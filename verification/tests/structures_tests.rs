use the_factory::structures::construction::removal_indices;
use the_factory::grid::Position;
use the_factory::item_map::ItemMap;
use the_factory::materials::items::{InputPort, InventoryAccess, StoragePort};
use the_factory::materials::recipes::{RecipeDef, RecipeRegistry};
use the_factory::structures::building_config::{
    crafter_setup, AppearanceDef, BuildingCategory, BuildingComponentDef, BuildingDef,
    BuildingRegistry, CostDef, PlacementDef,
};
use the_factory::structures::construction::{
    construction_complete, construction_site_setup, hub_footprint, hub_storage,
    needs_drill_assignment, view_range_expansion, BuildingCost, ConstructionSite, RecipeCommitment,
    RecipeCrafter, ViewRange,
};
use the_factory::structures::validation::PlacementRule;

fn items(entries: &[(&str, u32)]) -> ItemMap {
    let mut m = ItemMap::new();
    for (name, q) in entries {
        m.insert(name.to_string(), *q);
    }
    m
}

fn recipe(name: &str, inputs: &[(&str, u32)], outputs: &[(&str, u32)]) -> RecipeDef {
    RecipeDef { name: name.to_string(), inputs: items(inputs), outputs: items(outputs) }
}

fn building(
    name: &str,
    category: BuildingCategory,
    cost: &[(&str, u32)],
    rules: Vec<PlacementRule>,
    components: Vec<BuildingComponentDef>,
) -> BuildingDef {
    BuildingDef {
        name: name.to_string(),
        category,
        appearance: AppearanceDef { multi_cell: None },
        placement: PlacementDef { cost: CostDef { inputs: items(cost) }, rules },
        components,
    }
}

fn test_buildings() -> BuildingRegistry {
    BuildingRegistry::from_defs(vec![
        building(
            "TestHub",
            BuildingCategory::Utility,
            &[],
            vec![],
            vec![
                BuildingComponentDef::PowerGenerator { amount: 100 },
                BuildingComponentDef::ComputeGenerator { amount: 50 },
                BuildingComponentDef::Inventory { capacity: 500 },
                BuildingComponentDef::ViewRange { radius: 5 },
                BuildingComponentDef::NetWorkComponent,
            ],
        ),
        building(
            "TestMiner",
            BuildingCategory::Production,
            &[("iron_plate", 5)],
            vec![PlacementRule::RequiresResource],
            vec![
                BuildingComponentDef::PowerConsumer { amount: 10 },
                BuildingComponentDef::Inventory { capacity: 20 },
                BuildingComponentDef::RecipeCrafter {
                    recipe_name: Some("mine_iron".to_string()),
                    available_recipes: None,
                },
            ],
        ),
        building(
            "TestConnector",
            BuildingCategory::Logistics,
            &[("iron_plate", 2)],
            vec![PlacementRule::AdjacentToNetwork],
            vec![BuildingComponentDef::NetWorkComponent],
        ),
    ])
}

#[test]
fn recipe_commitment_new_committed_with_recipe() {
    let commitment = RecipeCommitment::new_committed(Some("iron_ingot".to_string()));
    assert_eq!(commitment.committed_recipe, Some("iron_ingot".to_string()));
    assert_eq!(commitment.pending_recipe, None);
}

#[test]
fn recipe_commitment_new_committed_without_recipe() {
    let commitment = RecipeCommitment::new_committed(None);
    assert_eq!(commitment.committed_recipe, None);
    assert_eq!(commitment.pending_recipe, None);
}

#[test]
fn evaluate_recipe_commitments_same_recipe_no_change() {
    let recipe_name = "Test Recipe".to_string();
    let crafter = RecipeCrafter { current_recipe: Some(recipe_name.clone()), available_recipes: Vec::new() };
    let mut commitment = RecipeCommitment::new_committed(Some(recipe_name.clone()));
    commitment.evaluate(&crafter);
    assert_eq!(commitment.committed_recipe, Some(recipe_name));
    assert_eq!(commitment.pending_recipe, None);
}

#[test]
fn evaluate_recipe_commitments_different_recipe_empty_transit_commits_immediately() {
    let old_recipe = "Old Recipe".to_string();
    let new_recipe = "New Recipe".to_string();
    let crafter = RecipeCrafter {
        current_recipe: Some(new_recipe.clone()),
        available_recipes: vec![old_recipe.clone(), new_recipe.clone()],
    };
    let mut commitment = RecipeCommitment::new_committed(Some(old_recipe));
    commitment.evaluate(&crafter);
    assert_eq!(commitment.committed_recipe, Some(new_recipe));
    assert_eq!(commitment.pending_recipe, None);
}

#[test]
fn evaluate_recipe_commitments_different_recipe_with_transit_sets_pending() {
    let old_recipe = "Old Recipe".to_string();
    let new_recipe = "New Recipe".to_string();
    let crafter = RecipeCrafter {
        current_recipe: Some(new_recipe.clone()),
        available_recipes: vec![old_recipe.clone(), new_recipe.clone()],
    };
    let mut commitment = RecipeCommitment::new_committed(Some(old_recipe.clone()));
    commitment.add_in_transit(&items(&[("Iron Ore", 10)]));
    commitment.evaluate(&crafter);
    assert_eq!(commitment.committed_recipe, Some(old_recipe));
    assert_eq!(commitment.pending_recipe, Some(new_recipe));
}

#[test]
fn commit_pending_recipes_commits_when_transit_empty() {
    let old_recipe = "Old Recipe".to_string();
    let new_recipe = "New Recipe".to_string();
    let mut commitment = RecipeCommitment::new_committed(Some(old_recipe));
    commitment.pending_recipe = Some(new_recipe.clone());
    commitment.commit_pending();
    assert_eq!(commitment.committed_recipe, Some(new_recipe));
    assert_eq!(commitment.pending_recipe, None);
}

#[test]
fn commit_pending_recipes_waits_when_transit_not_empty() {
    let old_recipe = "Old Recipe".to_string();
    let new_recipe = "New Recipe".to_string();
    let mut commitment = RecipeCommitment::new_committed(Some(old_recipe.clone()));
    commitment.pending_recipe = Some(new_recipe.clone());
    commitment.add_in_transit(&items(&[("Iron Ore", 10)]));
    commitment.commit_pending();
    assert_eq!(commitment.committed_recipe, Some(old_recipe));
    assert_eq!(commitment.pending_recipe, Some(new_recipe));
}

#[test]
fn in_transit_accumulates_per_item() {
    let mut commitment = RecipeCommitment::new_committed(None);
    assert!(commitment.can_commit_new_recipe());
    commitment.add_in_transit(&items(&[("Iron Ore", 10), ("Coal", 1)]));
    commitment.add_in_transit(&items(&[("Iron Ore", 5)]));
    assert_eq!(commitment.in_transit.get("Iron Ore"), Some(&15));
    assert_eq!(commitment.in_transit.get("Coal"), Some(&1));
    assert!(!commitment.can_commit_new_recipe());
}

#[test]
fn single_recipe_crafter_accepts_any_recipe() {
    let mut crafter = RecipeCrafter { current_recipe: None, available_recipes: Vec::new() };
    assert!(crafter.is_single_recipe());
    assert!(crafter.set_recipe("Iron Ore".to_string()).is_ok());
    assert_eq!(crafter.get_active_recipe(), Some(&"Iron Ore".to_string()));
}

#[test]
fn multi_recipe_crafter_refuses_unlisted_recipe() {
    let mut crafter = RecipeCrafter {
        current_recipe: Some("Gear".to_string()),
        available_recipes: vec!["Gear".to_string(), "Iron Plate".to_string()],
    };
    assert!(crafter.is_multi_recipe());
    assert_eq!(
        crafter.set_recipe("Copper Wire".to_string()),
        Err("Recipe 'Copper Wire' not available for this crafter".to_string())
    );
    assert_eq!(crafter.current_recipe, Some("Gear".to_string()));
    assert!(crafter.set_recipe("Iron Plate".to_string()).is_ok());
    assert_eq!(crafter.current_recipe, Some("Iron Plate".to_string()));
}

#[test]
fn test_get_definition_nonexistent() {
    let registry = RecipeRegistry::from_defs(Vec::new());
    assert!(registry.get_definition("Nonexistent").is_none());
}

#[test]
fn test_get_inputs_existing() {
    let registry = RecipeRegistry::from_defs(vec![recipe(
        "Multi Input Recipe",
        &[("Item A", 3), ("Item B", 5)],
        &[("Result", 1)],
    )]);
    let inputs = registry.get_inputs("Multi Input Recipe");
    assert!(inputs.is_some());
    let inputs = inputs.unwrap();
    assert_eq!(inputs.len(), 2);
    assert_eq!(inputs.get("Item A"), Some(&3));
    assert_eq!(inputs.get("Item B"), Some(&5));
}

#[test]
fn test_get_inputs_empty() {
    let registry = RecipeRegistry::from_defs(vec![recipe("No Input Recipe", &[], &[("Output", 1)])]);
    let inputs = registry.get_inputs("No Input Recipe");
    assert!(inputs.is_some());
    assert!(inputs.unwrap().is_empty());
}

#[test]
fn test_get_inputs_nonexistent_recipe() {
    let registry = RecipeRegistry::from_defs(Vec::new());
    assert!(registry.get_inputs("Nonexistent").is_none());
}

#[test]
fn test_get_outputs_existing() {
    let registry = RecipeRegistry::from_defs(vec![recipe(
        "Multi Output Recipe",
        &[("Input", 1)],
        &[("Output A", 2), ("Output B", 3)],
    )]);
    let outputs = registry.get_outputs("Multi Output Recipe");
    assert!(outputs.is_some());
    let outputs = outputs.unwrap();
    assert_eq!(outputs.len(), 2);
    assert_eq!(outputs.get("Output A"), Some(&2));
    assert_eq!(outputs.get("Output B"), Some(&3));
}

#[test]
fn test_get_outputs_empty() {
    let registry = RecipeRegistry::from_defs(vec![recipe("No Output Recipe", &[("Input", 1)], &[])]);
    let outputs = registry.get_outputs("No Output Recipe");
    assert!(outputs.is_some());
    assert!(outputs.unwrap().is_empty());
}

#[test]
fn test_get_outputs_nonexistent_recipe() {
    let registry = RecipeRegistry::from_defs(Vec::new());
    assert!(registry.get_outputs("Nonexistent").is_none());
}

#[test]
fn get_definition_for_nonexistent_building_returns_none() {
    let registry = test_buildings();
    assert!(registry.get_definition("NonExistentBuilding").is_none());
}

#[test]
fn get_all_building_names_returns_all_registered() {
    let registry = test_buildings();
    let names = registry.get_all_building_names();
    assert_eq!(names.len(), 3);
    assert!(names.contains(&"TestHub".to_string()));
    assert!(names.contains(&"TestMiner".to_string()));
    assert!(names.contains(&"TestConnector".to_string()));
}

#[test]
fn get_buildings_by_category_filters_correctly() {
    let registry = test_buildings();
    let production_buildings = registry.get_buildings_by_category(BuildingCategory::Production);
    assert_eq!(production_buildings.len(), 1);
    assert!(production_buildings.contains(&"TestMiner".to_string()));
    let utility_buildings = registry.get_buildings_by_category(BuildingCategory::Utility);
    assert_eq!(utility_buildings.len(), 1);
    assert!(utility_buildings.contains(&"TestHub".to_string()));
    let logistics_buildings = registry.get_buildings_by_category(BuildingCategory::Logistics);
    assert_eq!(logistics_buildings.len(), 1);
    assert!(logistics_buildings.contains(&"TestConnector".to_string()));
}

#[test]
fn get_name_by_name_only_for_registered() {
    let registry = test_buildings();
    assert_eq!(registry.get_name_by_name("TestHub"), Some("TestHub".to_string()));
    assert_eq!(registry.get_name_by_name("Nope"), None);
}

#[test]
fn cost_def_to_recipe_def_conversion() {
    let cost = CostDef { inputs: items(&[("iron_plate", 10), ("copper_plate", 5)]) };
    let recipe = cost.to_recipe_def();
    assert_eq!(recipe.name, "");
    assert_eq!(recipe.inputs.get("iron_plate"), Some(&10));
    assert_eq!(recipe.inputs.get("copper_plate"), Some(&5));
    assert!(recipe.outputs.is_empty());
}

#[test]
fn crafter_setup_covers_the_four_configurations() {
    let (current, list) = crafter_setup(&Some("mine_iron".to_string()), &None);
    assert_eq!(current, Some("mine_iron".to_string()));
    assert!(list.is_empty());
    let (current, list) = crafter_setup(&None, &Some(vec!["A".to_string(), "B".to_string()]));
    assert_eq!(current, None);
    assert_eq!(list, vec!["A".to_string(), "B".to_string()]);
    let (current, list) = crafter_setup(&Some("B".to_string()), &Some(vec!["A".to_string(), "B".to_string()]));
    assert_eq!(current, Some("B".to_string()));
    assert_eq!(list.len(), 2);
    let (current, list) = crafter_setup(&None, &None);
    assert_eq!(current, None);
    assert!(list.is_empty());
}

#[test]
fn construction_site_setup_reads_cost_and_network() {
    let registry = test_buildings();
    let (cost, network) = construction_site_setup(&registry, "TestConnector").unwrap();
    assert!(network);
    assert_eq!(cost.cost.inputs.get("iron_plate"), Some(&2));
    assert!(cost.cost.outputs.is_empty());
    let (_, network) = construction_site_setup(&registry, "TestMiner").unwrap();
    assert!(!network);
    assert!(construction_site_setup(&registry, "Unknown").is_none());
}

#[test]
fn hub_starts_with_ore() {
    let storage: StoragePort = hub_storage();
    assert_eq!(storage.capacity, 10000);
    assert_eq!(storage.get_item_quantity("Iron Ore"), 400);
    assert_eq!(storage.get_item_quantity("Copper Ore"), 400);
    assert_eq!(storage.get_total_quantity(), 800);
    let footprint = hub_footprint();
    assert_eq!((footprint.width, footprint.height, footprint.center_x, footprint.center_y), (3, 3, 0, 0));
}

#[test]
fn construction_completes_when_cost_arrived() {
    let cost = BuildingCost { cost: CostDef { inputs: items(&[("iron_plate", 5)]) }.to_recipe_def() };
    let mut port = InputPort::new(100);
    port.add_item("iron_plate", 4);
    assert!(!construction_complete(&port, &cost));
    port.add_item("iron_plate", 1);
    assert!(construction_complete(&port, &cost));
}

#[test]
fn only_mining_drills_wait_for_a_recipe() {
    assert!(needs_drill_assignment(&ConstructionSite { building_name: "Mining Drill".to_string() }));
    assert!(!needs_drill_assignment(&ConstructionSite { building_name: "Smelter".to_string() }));
}

#[test]
fn view_range_expands_only_when_positive() {
    let e = view_range_expansion(&ViewRange { radius: 4 }, &Position { x: 2, y: -1 }).unwrap();
    assert_eq!((e.center_x, e.center_y, e.radius), (2, -1, 4));
    assert!(view_range_expansion(&ViewRange { radius: 0 }, &Position { x: 0, y: 0 }).is_none());
}

#[test]
fn recipe_change_is_committed_once_transit_clears() {
    let crafter = RecipeCrafter {
        current_recipe: Some("Gear".to_string()),
        available_recipes: vec!["Gear".to_string(), "Plate".to_string()],
    };
    let mut commitment = RecipeCommitment::new_committed(Some("Plate".to_string()));
    commitment.add_in_transit(&items(&[("Iron Ingot", 3)]));
    commitment.evaluate(&crafter);
    commitment.commit_pending();
    assert_eq!(commitment.committed_recipe, Some("Plate".to_string()));
    assert_eq!(commitment.pending_recipe, Some("Gear".to_string()));
    commitment.in_transit = ItemMap::new();
    commitment.commit_pending();
    assert_eq!(commitment.committed_recipe, Some("Gear".to_string()));
    assert_eq!(commitment.pending_recipe, None);
}

#[test]
fn drill_sites_get_the_site_port() {
    let port = the_factory::structures::construction::construction_site_port();
    assert_eq!(port.capacity, 1000);
    assert!(port.items.is_empty());
}

#[test]
fn removal_indices_pick_buildings_at_the_cell() {
    let here = Some(Position { x: 1, y: 2 });
    let children = vec![None, here, Some(Position { x: 0, y: 0 }), here];
    assert_eq!(removal_indices(&children, 1, 2), vec![1, 3]);
    assert!(removal_indices(&children, 5, 5).is_empty());
}

#[test]
fn get_definition_for_existing_building() {
    let registry = test_buildings();
    let hub_def = registry.get_definition("TestHub");
    assert!(hub_def.is_some());
    let hub = hub_def.unwrap();
    assert_eq!(hub.name, "TestHub");
    assert_eq!(hub.category, BuildingCategory::Utility);
    assert_eq!(hub.components.len(), 5);
}

#[test]
fn test_get_definition_existing() {
    let registry = RecipeRegistry::from_defs(vec![recipe("Test Recipe", &[("Iron Ore", 2)], &[("Iron Ingot", 1)])]);
    let def = registry.get_definition("Test Recipe");
    assert!(def.is_some());
    let def = def.unwrap();
    assert_eq!(def.name, "Test Recipe");
    assert_eq!(def.inputs.get("Iron Ore"), Some(&2));
    assert_eq!(def.outputs.get("Iron Ingot"), Some(&1));
}

#[test]
fn test_recipe_structure_integrity() {
    let registry = RecipeRegistry::from_defs(vec![recipe("Full Recipe", &[("Raw Material", 10)], &[("Product", 5)])]);
    let def = registry.get_definition("Full Recipe").unwrap();
    assert_eq!(def.name, "Full Recipe");
    assert_eq!(def.inputs.len(), 1);
    assert_eq!(def.outputs.len(), 1);
    assert!(def.inputs.contains_key("Raw Material"));
    assert!(def.outputs.contains_key("Product"));
}
