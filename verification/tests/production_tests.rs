use the_factory::grid::Position;
use the_factory::item_map::ItemMap;
use the_factory::materials::items::{InputPort, InventoryAccess, ItemDef, ItemRegistry, OutputPort, StoragePort};
use the_factory::materials::recipes::{RecipeDef, RecipeRegistry};
use the_factory::structures::building_config::{
    AppearanceDef, BuildingCategory, BuildingDef, BuildingRegistry, CostDef, PlacementDef,
};
use the_factory::structures::construction::RecipeCrafter;
use the_factory::structures::construction_auto_pull::{compute_deficit, plan_auto_pull};
use the_factory::structures::production::{
    compute_item_limits, craft, launch_points, launch_reward, run_port_crafter, run_sink_crafter,
    run_source_crafter,
};
use the_factory::structures::validation::{
    validate_placement, CellContents, PlacementError, PlacementRule,
};
use the_factory::systems::network::NetworkConnectivity;
use the_factory::systems::GameScore;

fn items(entries: &[(&str, u32)]) -> ItemMap {
    let mut m = ItemMap::new();
    for (name, q) in entries {
        m.insert(name.to_string(), *q);
    }
    m
}

fn recipe(name: &str, inputs: &[(&str, u32)], outputs: &[(&str, u32)]) -> RecipeDef {
    RecipeDef { name: name.to_string(), inputs: items(inputs), outputs: items(outputs) }
}

#[test]
fn compute_item_limits_multi_input_proportional() {
    let inputs = items(&[("Iron Ore", 2), ("Coal", 1)]);
    let limits = compute_item_limits(50, &inputs);
    assert_eq!(limits.get("Iron Ore").copied().unwrap(), 34);
    assert_eq!(limits.get("Coal").copied().unwrap(), 17);
    assert_eq!(limits.len(), 2);
}

#[test]
fn compute_item_limits_single_input_gets_full_capacity() {
    let inputs = items(&[("Coal", 1)]);
    let limits = compute_item_limits(50, &inputs);
    assert_eq!(limits.get("Coal").copied().unwrap(), 50);
    assert_eq!(limits.len(), 1);
}

#[test]
fn compute_item_limits_empty_inputs_returns_empty() {
    let inputs = ItemMap::new();
    let limits = compute_item_limits(50, &inputs);
    assert!(limits.is_empty());
}

#[test]
fn compute_item_limits_guarantees_at_least_one_batch() {
    let inputs = items(&[("Rare", 10), ("Common", 1)]);
    let limits = compute_item_limits(5, &inputs);
    assert!(limits.get("Rare").copied().unwrap() >= 10);
    assert!(limits.get("Common").copied().unwrap() >= 1);
}

#[test]
fn compute_item_limits_equal_inputs() {
    let inputs = items(&[("A", 1), ("B", 1)]);
    let limits = compute_item_limits(100, &inputs);
    assert_eq!(limits.get("A").copied().unwrap(), 50);
    assert_eq!(limits.get("B").copied().unwrap(), 50);
}

#[test]
fn sync_sets_limits_from_active_recipe() {
    let registry = RecipeRegistry::from_defs(vec![recipe(
        "Iron Ingot",
        &[("Iron Ore", 2), ("Coal", 1)],
        &[("Iron Ingot", 1)],
    )]);
    let mut port = InputPort::new(50);
    port.sync_limits(registry.get_definition("Iron Ingot"));
    assert_eq!(port.item_limits.get("Iron Ore").copied().unwrap(), 34);
    assert_eq!(port.item_limits.get("Coal").copied().unwrap(), 17);
    assert_eq!(port.item_limits.len(), 2);
}

#[test]
fn sync_clears_limits_when_no_recipe() {
    let mut port = InputPort::new(50);
    port.item_limits.insert("Stale".to_string(), 25);
    port.sync_limits(None);
    assert!(port.item_limits.is_empty());
}

#[test]
fn craft_consumes_inputs_and_produces_outputs() {
    let r = recipe("Iron Ingot", &[("Iron Ore", 2), ("Coal", 1)], &[("Iron Ingot", 1)]);
    let mut input = InputPort::new(50);
    input.add_item("Iron Ore", 3);
    input.add_item("Coal", 1);
    let mut output = OutputPort::new(10);
    assert!(craft(&mut input, &mut output, &r));
    assert_eq!(input.get_item_quantity("Iron Ore"), 1);
    assert_eq!(input.get_item_quantity("Coal"), 0);
    assert_eq!(output.get_item_quantity("Iron Ingot"), 1);
    assert!(!craft(&mut input, &mut output, &r));
    assert_eq!(input.get_item_quantity("Iron Ore"), 1);
}

#[test]
fn craft_waits_for_output_room() {
    let r = recipe("Gear", &[("Iron Ingot", 1)], &[("Gear", 2)]);
    let mut input = InputPort::new(50);
    input.add_item("Iron Ingot", 5);
    let mut output = OutputPort::new(3);
    output.add_item("Gear", 2);
    assert!(!craft(&mut input, &mut output, &r));
    assert_eq!(input.get_item_quantity("Iron Ingot"), 5);
    assert_eq!(output.get_item_quantity("Gear"), 2);
}

#[test]
fn port_crafter_without_registered_recipe_does_nothing() {
    let registry = RecipeRegistry::from_defs(Vec::new());
    let crafter = RecipeCrafter { current_recipe: Some("Missing".to_string()), available_recipes: Vec::new() };
    let mut input = InputPort::new(5);
    input.add_item("A", 1);
    let mut output = OutputPort::new(5);
    assert!(!run_port_crafter(&mut input, &mut output, &crafter, &registry));
    assert_eq!(input.get_item_quantity("A"), 1);
}

#[test]
fn source_crafter_produces_until_full() {
    let registry = RecipeRegistry::from_defs(vec![recipe("Iron Ore", &[], &[("Iron Ore", 1)])]);
    let crafter = RecipeCrafter { current_recipe: Some("Iron Ore".to_string()), available_recipes: Vec::new() };
    let mut output = OutputPort::new(2);
    assert!(run_source_crafter(&mut output, &crafter, &registry));
    assert!(run_source_crafter(&mut output, &crafter, &registry));
    assert!(!run_source_crafter(&mut output, &crafter, &registry));
    assert_eq!(output.get_item_quantity("Iron Ore"), 2);
}

#[test]
fn launch_points_grow_with_the_square_of_the_tier() {
    assert_eq!(launch_points(0), 10);
    assert_eq!(launch_points(1), 40);
    assert_eq!(launch_points(3), 160);
}

#[test]
fn launch_reward_uses_tier_of_first_input() {
    let items_registry = ItemRegistry::from_defs(vec![ItemDef { name: "Gearbox".to_string(), tier: 3 }]);
    assert_eq!(launch_reward(&recipe("Launch", &[("Gearbox", 1)], &[]), &items_registry), Some(160));
    assert_eq!(launch_reward(&recipe("Launch", &[("Unknown", 1)], &[]), &items_registry), Some(10));
    assert_eq!(launch_reward(&recipe("Launch", &[], &[]), &items_registry), None);
}

#[test]
fn launchpad_scores_each_launch() {
    let registry = RecipeRegistry::from_defs(vec![recipe("Launch Gear", &[("Gear", 2)], &[])]);
    let items_registry = ItemRegistry::from_defs(vec![ItemDef { name: "Gear".to_string(), tier: 2 }]);
    let crafter = RecipeCrafter { current_recipe: Some("Launch Gear".to_string()), available_recipes: Vec::new() };
    let mut input = InputPort::new(10);
    input.add_item("Gear", 3);
    let mut score = GameScore::default();
    assert!(run_sink_crafter(&mut input, &crafter, &registry, &items_registry, true, &mut score));
    assert_eq!(score.total_score, 90);
    assert_eq!(score.launches_completed, 1);
    assert!(!run_sink_crafter(&mut input, &crafter, &registry, &items_registry, true, &mut score));
    assert_eq!(score.total_score, 90);
    input.add_item("Gear", 1);
    assert!(run_sink_crafter(&mut input, &crafter, &registry, &items_registry, false, &mut score));
    assert_eq!(score.launches_completed, 1);
    assert_eq!(input.get_item_quantity("Gear"), 0);
}

#[test]
fn compute_deficit_full_deficit() {
    let needed = items(&[("Iron Ore", 10), ("Copper Ore", 5)]);
    let input_port = InputPort::new(1000);
    let deficit = compute_deficit(&needed, &input_port);
    assert_eq!(deficit.get("Iron Ore"), Some(&10));
    assert_eq!(deficit.get("Copper Ore"), Some(&5));
}

#[test]
fn compute_deficit_partial_deficit() {
    let needed = items(&[("Iron Ore", 10), ("Copper Ore", 5)]);
    let mut input_port = InputPort::new(1000);
    input_port.add_item("Iron Ore", 3);
    input_port.add_item("Copper Ore", 5);
    let deficit = compute_deficit(&needed, &input_port);
    assert_eq!(deficit.get("Iron Ore"), Some(&7));
    assert!(!deficit.contains_key("Copper Ore"));
}

#[test]
fn compute_deficit_no_deficit() {
    let needed = items(&[("Iron Ore", 10), ("Copper Ore", 5)]);
    let mut input_port = InputPort::new(1000);
    input_port.add_item("Iron Ore", 10);
    input_port.add_item("Copper Ore", 5);
    let deficit = compute_deficit(&needed, &input_port);
    assert!(deficit.is_empty());
}

#[test]
fn compute_deficit_extra_materials() {
    let needed = items(&[("Iron Ore", 10)]);
    let mut input_port = InputPort::new(1000);
    input_port.add_item("Iron Ore", 20);
    let deficit = compute_deficit(&needed, &input_port);
    assert!(deficit.is_empty());
}

#[test]
fn compute_deficit_no_materials_needed() {
    let needed = ItemMap::new();
    let input_port = InputPort::new(1000);
    let deficit = compute_deficit(&needed, &input_port);
    assert!(deficit.is_empty());
}

#[test]
fn auto_pull_asks_connected_storages_in_order() {
    let cost = items(&[("Iron Ore", 10), ("Coal", 4)]);
    let mut site = InputPort::new(100);
    site.add_item("Iron Ore", 2);
    let mut network = NetworkConnectivity::default();
    network.add_connected_cell(0, 0);
    network.add_connected_cell(1, 0);
    network.add_connected_cell(3, 0);
    let mut s0 = StoragePort::new(100);
    s0.add_item("Iron Ore", 5);
    let mut s1 = StoragePort::new(100);
    s1.add_item("Iron Ore", 50);
    s1.add_item("Coal", 50);
    let mut s2 = StoragePort::new(100);
    s2.add_item("Iron Ore", 2);
    s2.add_item("Coal", 1);
    let storages = vec![(&s2, Position { x: 2, y: 0 }), (&s0, Position { x: 1, y: 0 }), (&s1, Position { x: 3, y: 0 })];
    let requests = plan_auto_pull(&cost, &site, Position { x: 0, y: 0 }, &storages, &network);
    assert_eq!(requests.len(), 2);
    assert_eq!(requests[0].0, 1);
    assert_eq!(requests[0].1.get("Iron Ore"), Some(&5));
    assert_eq!(requests[0].1.len(), 1);
    assert_eq!(requests[1].0, 2);
    assert_eq!(requests[1].1.get("Iron Ore"), Some(&3));
    assert_eq!(requests[1].1.get("Coal"), Some(&4));
}

#[test]
fn auto_pull_needs_a_connected_site() {
    let cost = items(&[("Iron Ore", 10)]);
    let site = InputPort::new(100);
    let mut network = NetworkConnectivity::default();
    network.add_connected_cell(1, 0);
    let mut s = StoragePort::new(100);
    s.add_item("Iron Ore", 50);
    let storages = vec![(&s, Position { x: 1, y: 0 })];
    assert!(plan_auto_pull(&cost, &site, Position { x: 0, y: 0 }, &storages, &network).is_empty());
    network.add_connected_cell(0, 0);
    assert_eq!(plan_auto_pull(&cost, &site, Position { x: 0, y: 0 }, &storages, &network).len(), 1);
}

fn placement_registry() -> BuildingRegistry {
    BuildingRegistry::from_defs(vec![
        BuildingDef {
            name: "Mining Drill".to_string(),
            category: BuildingCategory::Production,
            appearance: AppearanceDef { multi_cell: None },
            placement: PlacementDef {
                cost: CostDef { inputs: items(&[("Iron Ore", 10)]) },
                rules: vec![PlacementRule::RequiresResource, PlacementRule::AdjacentToNetwork],
            },
            components: Vec::new(),
        },
        BuildingDef {
            name: "Storage".to_string(),
            category: BuildingCategory::Logistics,
            appearance: AppearanceDef { multi_cell: None },
            placement: PlacementDef { cost: CostDef { inputs: ItemMap::new() }, rules: Vec::new() },
            components: Vec::new(),
        },
    ])
}

#[test]
fn placement_error_display_cell_not_found() {
    assert_eq!(PlacementError::CellNotFound.message(), "Cannot place building outside grid bounds!");
}

#[test]
fn placement_error_display_cell_occupied() {
    assert_eq!(PlacementError::CellOccupied.message(), "Cell is already occupied!");
}

#[test]
fn placement_error_display_not_adjacent_to_network() {
    assert_eq!(
        PlacementError::NotAdjacentToNetwork.message(),
        "Building must be placed adjacent to hub or connector!"
    );
}

#[test]
fn placement_error_display_requires_resource_node() {
    assert_eq!(PlacementError::RequiresResourceNode.message(), "Building requires resource node!");
}

#[test]
fn placement_error_debug_formatting() {
    let errors = [
        PlacementError::CellNotFound,
        PlacementError::CellOccupied,
        PlacementError::NotAdjacentToNetwork,
        PlacementError::RequiresResourceNode,
    ];
    for error in &errors {
        let debug_output = format!("{error:?}");
        assert!(!debug_output.is_empty());
    }
}

#[test]
fn placement_checks_cell_then_occupancy_then_rules_in_order() {
    let registry = placement_registry();
    let mut network = NetworkConnectivity::default();
    let free = CellContents { layers: vec![0], has_resource: false };
    let ore = CellContents { layers: vec![0], has_resource: true };
    let taken = CellContents { layers: vec![0, 1], has_resource: true };
    assert_eq!(validate_placement(&registry, "Mining Drill", 1, 0, None, &network), Err(PlacementError::CellNotFound));
    assert_eq!(validate_placement(&registry, "Mining Drill", 1, 0, Some(&taken), &network), Err(PlacementError::CellOccupied));
    assert_eq!(
        validate_placement(&registry, "Mining Drill", 1, 0, Some(&free), &network),
        Err(PlacementError::RequiresResourceNode)
    );
    assert_eq!(
        validate_placement(&registry, "Mining Drill", 1, 0, Some(&ore), &network),
        Err(PlacementError::NotAdjacentToNetwork)
    );
    network.add_core_network_cell(0, 0);
    assert_eq!(validate_placement(&registry, "Mining Drill", 1, 0, Some(&ore), &network), Ok(()));
    assert_eq!(validate_placement(&registry, "Storage", 9, 9, Some(&free), &network), Ok(()));
    assert_eq!(validate_placement(&registry, "Unknown", 9, 9, Some(&free), &network), Ok(()));
}

#[test]
fn auto_pull_takes_the_lesser_of_missing_and_available() {
    let cost = items(&[("Iron Ore", 10)]);
    let site = InputPort::new(100);
    let mut network = NetworkConnectivity::default();
    for x in 0..4 {
        network.add_connected_cell(x, 0);
    }
    let mut a = StoragePort::new(100);
    a.add_item("Iron Ore", 3);
    let mut b = StoragePort::new(100);
    b.add_item("Iron Ore", 4);
    let storages = vec![(&a, Position { x: 1, y: 0 }), (&b, Position { x: 2, y: 0 })];
    let requests = plan_auto_pull(&cost, &site, Position { x: 0, y: 0 }, &storages, &network);
    let total: u32 = requests.iter().map(|(_, r)| r.quantity("Iron Ore")).sum();
    assert_eq!(total, 7);
    let mut c = StoragePort::new(100);
    c.add_item("Iron Ore", 50);
    let storages = vec![(&a, Position { x: 1, y: 0 }), (&c, Position { x: 3, y: 0 }), (&b, Position { x: 2, y: 0 })];
    let requests = plan_auto_pull(&cost, &site, Position { x: 0, y: 0 }, &storages, &network);
    let total: u32 = requests.iter().map(|(_, r)| r.quantity("Iron Ore")).sum();
    assert_eq!(total, 10);
    assert_eq!(requests.len(), 2);
}

#[test]
fn item_limits_hold_a_batch_and_stay_within_capacity() {
    let inputs = items(&[("A", 7), ("B", 2), ("C", 1)]);
    let limits = compute_item_limits(40, &inputs);
    assert_eq!(limits.get("A").copied().unwrap(), 28);
    assert_eq!(limits.get("B").copied().unwrap(), 8);
    assert_eq!(limits.get("C").copied().unwrap(), 4);
    let limits = compute_item_limits(3, &inputs);
    assert_eq!(limits.get("A").copied().unwrap(), 7);
    assert_eq!(limits.get("B").copied().unwrap(), 2);
    assert_eq!(limits.get("C").copied().unwrap(), 1);
}

#[test]
fn placement_at_the_coordinate_edge_without_network_rule() {
    let registry = placement_registry();
    let network = NetworkConnectivity::default();
    let free = CellContents { layers: vec![0], has_resource: false };
    assert_eq!(validate_placement(&registry, "Storage", i32::MAX, i32::MIN, Some(&free), &network), Ok(()));
    assert_eq!(
        validate_placement(&registry, "Mining Drill", i32::MAX, 0, None, &network),
        Err(PlacementError::CellNotFound)
    );
}

#[test]
fn launch_ignores_unused_high_tier_items() {
    let registry = RecipeRegistry::from_defs(vec![recipe("Launch Gearbox", &[("Gearbox", 1)], &[])]);
    let items_registry = ItemRegistry::from_defs(vec![
        ItemDef { name: "Gearbox".to_string(), tier: 3 },
        ItemDef { name: "Relic".to_string(), tier: u32::MAX },
    ]);
    let crafter = RecipeCrafter { current_recipe: Some("Launch Gearbox".to_string()), available_recipes: Vec::new() };
    let mut input = InputPort::new(10);
    input.add_item("Gearbox", 1);
    let mut score = GameScore::default();
    assert!(run_sink_crafter(&mut input, &crafter, &registry, &items_registry, true, &mut score));
    assert_eq!(score.total_score, 160);
    assert_eq!(score.launches_completed, 1);
}
