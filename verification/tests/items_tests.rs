use the_factory::items::{create_ore_item, transfer_ore, Inventory, Item};
use the_factory::item_map::ItemMap;
use the_factory::materials::items::{
    execute_transfer, validate_transfer, Cargo, InputPort, InventoryAccess, ItemDef, ItemRegistry,
    OutputPort, StoragePort, TransferError,
};

fn items(entries: &[(&str, u32)]) -> ItemMap {
    let mut m = ItemMap::new();
    for (name, q) in entries {
        m.insert(name.to_string(), *q);
    }
    m
}

#[test]
fn test_item_registry_get_definition_existing() {
    let registry = ItemRegistry::from_defs(vec![ItemDef { name: "Test Item".to_string(), tier: 3 }]);
    let def = registry.get_definition("Test Item");
    assert!(def.is_some());
    let def = def.unwrap();
    assert_eq!(def.name, "Test Item");
    assert_eq!(def.tier, 3);
}

#[test]
fn test_item_registry_get_definition_nonexistent() {
    let registry = ItemRegistry::from_defs(Vec::new());
    let def = registry.get_definition("Nonexistent");
    assert!(def.is_none());
}

#[test]
fn item_registry_later_definition_replaces_earlier() {
    let registry = ItemRegistry::from_defs(vec![
        ItemDef { name: "Gear".to_string(), tier: 1 },
        ItemDef { name: "Coal".to_string(), tier: 0 },
        ItemDef { name: "Gear".to_string(), tier: 2 },
    ]);
    assert_eq!(registry.len(), 2);
    assert_eq!(registry.get_definition("Gear").unwrap().tier, 2);
    assert!(registry.contains("Coal"));
}

#[test]
fn test_transfer_error_display_item_not_found() {
    let error = TransferError::ItemNotFound;
    assert_eq!(error.message(), "Item not found!");
}

#[test]
fn test_transfer_error_display_not_enough_items() {
    let error = TransferError::NotEnoughItems;
    assert_eq!(error.message(), "Not enough items to transfer!");
}

#[test]
fn test_transfer_error_display_destination_full() {
    let error = TransferError::DestinationFull;
    assert_eq!(error.message(), "Destination storage full!");
}

#[test]
fn test_is_full_under_capacity() {
    let mut storage = StoragePort::new(100);
    storage.add_item("iron", 50);
    assert!(!storage.is_full());
}

#[test]
fn test_is_full_at_capacity() {
    let mut storage = StoragePort::new(100);
    storage.add_item("iron", 100);
    assert!(storage.is_full());
}

#[test]
fn test_is_full_over_capacity() {
    let mut storage = StoragePort::new(100);
    storage.add_item("iron", 101);
    assert!(storage.is_full());
}

#[test]
fn add_then_remove_gives_back_the_port() {
    let mut port = OutputPort::new(10);
    port.add_item("Gear", 3);
    assert_eq!(port.get_item_quantity("Gear"), 3);
    assert_eq!(port.remove_item("Gear", 3), 3);
    assert!(port.is_empty());
    assert_eq!(port.get_total_quantity(), 0);
}

#[test]
fn remove_more_than_held_takes_what_is_there() {
    let mut port = InputPort::new(10);
    port.add_item("Coal", 2);
    assert_eq!(port.remove_item("Coal", 5), 2);
    assert_eq!(port.get_item_quantity("Coal"), 0);
    assert_eq!(port.remove_item("Coal", 1), 0);
}

#[test]
fn has_space_and_recipe_checks() {
    let mut port = InputPort::new(10);
    port.add_item("Iron Ore", 4);
    port.add_item("Coal", 1);
    assert!(port.has_items_for_recipe(&items(&[("Iron Ore", 2), ("Coal", 1)])));
    assert!(!port.has_items_for_recipe(&items(&[("Iron Ore", 5)])));
    assert!(port.has_space_for(&items(&[("Gear", 5)])));
    assert!(!port.has_space_for(&items(&[("Gear", 6)])));
    assert!(port.has_at_least("Iron Ore", 4));
    assert!(!port.has_at_least("Iron Ore", 5));
    let all = port.get_all_items();
    assert_eq!(all.get("Coal"), Some(&1));
    assert_eq!(all.len(), 2);
}

#[test]
fn validate_transfer_grants_what_is_held_and_fits() {
    let sender = items(&[("Iron Ore", 10), ("Coal", 3)]);
    let request = items(&[("Iron Ore", 4), ("Coal", 5)]);
    let granted = validate_transfer(&sender, 0, 100, &request).unwrap();
    assert_eq!(granted.get("Iron Ore"), Some(&4));
    assert_eq!(granted.get("Coal"), Some(&3));
}

#[test]
fn validate_transfer_stops_at_receiver_capacity() {
    let sender = items(&[("Iron Ore", 10), ("Coal", 10)]);
    let request = items(&[("Iron Ore", 6), ("Coal", 6)]);
    let granted = validate_transfer(&sender, 2, 10, &request).unwrap();
    assert_eq!(granted.get("Iron Ore"), Some(&6));
    assert_eq!(granted.get("Coal"), Some(&2));
    assert_eq!(granted.len(), 2);
}

#[test]
fn validate_transfer_not_enough_items_when_sender_lacks_all() {
    let sender = items(&[("Gear", 1)]);
    let request = items(&[("Iron Ore", 4)]);
    assert_eq!(validate_transfer(&sender, 0, 10, &request).err(), Some(TransferError::NotEnoughItems));
}

#[test]
fn validate_transfer_destination_full_when_no_room() {
    let sender = items(&[("Iron Ore", 5)]);
    let request = items(&[("Iron Ore", 4)]);
    assert_eq!(validate_transfer(&sender, 10, 10, &request).err(), Some(TransferError::DestinationFull));
}

#[test]
fn execute_transfer_moves_items_and_conserves_totals() {
    let mut sender = StoragePort::new(100);
    sender.add_item("Iron Ore", 5);
    sender.add_item("Coal", 2);
    let mut receiver = Cargo::new(20);
    receiver.add_item("Coal", 1);
    let granted = items(&[("Iron Ore", 3), ("Coal", 4), ("Gear", 1)]);
    let moved = execute_transfer(&mut sender, &mut receiver, &granted);
    assert_eq!(moved.get("Iron Ore"), Some(&3));
    assert_eq!(moved.get("Coal"), Some(&2));
    assert_eq!(moved.get("Gear"), None);
    assert_eq!(sender.get_item_quantity("Iron Ore"), 2);
    assert_eq!(sender.get_item_quantity("Coal"), 0);
    assert_eq!(receiver.get_item_quantity("Iron Ore"), 3);
    assert_eq!(receiver.get_item_quantity("Coal"), 3);
    assert_eq!(sender.get_total_quantity() + receiver.get_total_quantity(), 8);
}

#[test]
fn numbered_inventory_merges_by_number() {
    let mut inv = Inventory::new(20);
    assert_eq!(inv.capacity(), 20);
    assert_eq!(inv.add_item(create_ore_item(), 5), 5);
    inv.add_item(Item { id: 0, name: "Ore".to_string() }, 3);
    inv.add_item(Item { id: 7, name: "Gear".to_string() }, 1);
    assert_eq!(inv.get_item_quantity(0), 8);
    assert!(inv.has_item(7, 1));
    assert!(!inv.has_item(7, 2));
    assert_eq!(inv.remove_item(0, 10), 8);
    assert_eq!(inv.get_item_quantity(0), 0);
    assert_eq!(inv.remove_item(9, 1), 0);
    let mut hub = Inventory::new(100);
    hub.add_item(create_ore_item(), 2);
    let mut site = Inventory::new(100);
    site.add_item(create_ore_item(), 4);
    assert_eq!(transfer_ore(&mut site, &mut hub), 4);
    assert_eq!(hub.get_item_quantity(0), 6);
    assert_eq!(site.get_item_quantity(0), 0);
    assert_eq!(transfer_ore(&mut site, &mut hub), 0);
}

#[test]
fn validated_transfer_moves_exactly_what_was_granted() {
    let mut sender = StoragePort::new(100);
    sender.add_item("Iron Ore", 7);
    sender.add_item("Coal", 2);
    let mut receiver = InputPort::new(6);
    receiver.add_item("Coal", 1);
    let request = items(&[("Iron Ore", 9), ("Coal", 2)]);
    let granted = validate_transfer(&sender.items, receiver.get_total_quantity(), receiver.capacity, &request).unwrap();
    assert_eq!(granted.get("Iron Ore"), Some(&5));
    assert_eq!(granted.get("Coal"), None);
    let moved = execute_transfer(&mut sender, &mut receiver, &granted);
    assert_eq!(moved.get("Iron Ore"), Some(&5));
    assert_eq!(moved.len(), granted.len());
    assert_eq!(receiver.get_total_quantity(), 6);
    assert_eq!(sender.get_item_quantity("Iron Ore"), 2);
}

#[test]
fn execute_transfer_adds_only_what_the_sender_holds() {
    let mut sender = StoragePort::new(100);
    sender.add_item("Gear", 3);
    let mut receiver = Cargo::new(u32::MAX);
    receiver.add_item("Gear", u32::MAX - 3);
    let granted = items(&[("Gear", 100)]);
    let moved = execute_transfer(&mut sender, &mut receiver, &granted);
    assert_eq!(moved.get("Gear"), Some(&3));
    assert_eq!(receiver.get_item_quantity("Gear"), u32::MAX);
    assert_eq!(sender.get_item_quantity("Gear"), 0);
}

#[test]
fn validate_transfer_grants_all_that_is_offered_when_room_suffices() {
    let sender = items(&[("Iron Ore", 7), ("Coal", 2)]);
    let request = items(&[("Iron Ore", 3), ("Coal", 5), ("Gear", 1)]);
    let granted = validate_transfer(&sender, 0, 100, &request).unwrap();
    assert_eq!(granted.get("Iron Ore"), Some(&3));
    assert_eq!(granted.get("Coal"), Some(&2));
    assert_eq!(granted.sum(), 5);
}

#[test]
fn numbered_inventory_keeps_the_first_name() {
    let mut inv = Inventory::new(20);
    assert_eq!(inv.item_name(7), None);
    inv.add_item(Item { id: 7, name: "Gear".to_string() }, 1);
    inv.add_item(Item { id: 7, name: "Cog".to_string() }, 1);
    assert_eq!(inv.item_name(7), Some(&"Gear".to_string()));
    assert_eq!(inv.remove_item(7, 2), 2);
    assert_eq!(inv.item_name(7), None);
}
