use the_factory::systems::operational::{Operational, OperationalCondition};
use the_factory::ui::{indicator_change, IndicatorChange};
use the_factory::item_map::ItemMap;
use the_factory::structures::building_config::{
    AppearanceDef, BuildingCategory, BuildingComponentDef, BuildingDef, BuildingRegistry, CostDef,
    PlacementDef,
};
use the_factory::ui::{
    decimal_text, format_cost_display, format_score, get_available_building_categories,
    get_building_type_hotkey, get_buildings_of_category, grouped_text, name_less, sort_by_name,
    tooltip_text,
};

fn items(entries: &[(&str, u32)]) -> ItemMap {
    let mut m = ItemMap::new();
    for (name, q) in entries {
        m.insert(name.to_string(), *q);
    }
    m
}

fn def(name: &str, category: BuildingCategory) -> BuildingDef {
    BuildingDef {
        name: name.to_string(),
        category,
        appearance: AppearanceDef { multi_cell: None },
        placement: PlacementDef { cost: CostDef { inputs: ItemMap::new() }, rules: Vec::new() },
        components: Vec::new(),
    }
}

#[test]
fn score_text_groups_thousands() {
    assert_eq!(format_score(0), Some("0".to_string()));
    assert_eq!(format_score(999), Some("999".to_string()));
    assert_eq!(format_score(1_000), Some("1,000".to_string()));
    assert_eq!(format_score(10_040), Some("10,040".to_string()));
    assert_eq!(format_score(999_999), Some("999,999".to_string()));
    assert_eq!(format_score(1_000_000), None);
}

#[test]
fn decimal_and_grouped_text() {
    assert_eq!(decimal_text(1234567890), "1234567890");
    assert_eq!(grouped_text(1234567890), "1,234,567,890");
    assert_eq!(grouped_text(u64::MAX), "18,446,744,073,709,551,615");
}

#[test]
fn cost_display_sorts_and_shortens() {
    assert_eq!(format_cost_display(&ItemMap::new()), "Free");
    assert_eq!(format_cost_display(&items(&[("Iron Ore", 5), ("Coal", 2)])), "2 Coal\n5 Iron Ore");
    assert_eq!(
        format_cost_display(&items(&[("b", 1), ("c", 2), ("a", 3)])),
        "3 a\n1 b\n2 c"
    );
    assert_eq!(
        format_cost_display(&items(&[("d", 4), ("b", 1), ("c", 2), ("a", 3)])),
        "3 a\n1 b\n..."
    );
}

#[test]
fn names_compare_by_characters() {
    assert!(name_less("Coal", "Iron Ore"));
    assert!(!name_less("Iron Ore", "Coal"));
    assert!(name_less("Iron", "Iron Ore"));
    assert!(!name_less("Iron", "Iron"));
    assert!(name_less("Z", "a"));
    let sorted = sort_by_name(&vec![("b".to_string(), 2u32), ("a".to_string(), 1u32), ("ab".to_string(), 3u32)]);
    assert_eq!(sorted, vec![("a".to_string(), 1), ("ab".to_string(), 3), ("b".to_string(), 2)]);
}

#[test]
fn hotkeys_follow_the_tab_order() {
    assert_eq!(get_building_type_hotkey(BuildingCategory::Logistics), "[1]");
    assert_eq!(get_building_type_hotkey(BuildingCategory::Production), "[2]");
    assert_eq!(get_building_type_hotkey(BuildingCategory::Utility), "[3]");
}

#[test]
fn available_categories_are_listed_once_by_name() {
    let registry = BuildingRegistry::from_defs(vec![
        def("Radar", BuildingCategory::Utility),
        def("Smelter", BuildingCategory::Production),
        def("Generator", BuildingCategory::Utility),
    ]);
    assert_eq!(
        get_available_building_categories(&registry),
        vec![BuildingCategory::Production, BuildingCategory::Utility]
    );
    assert!(get_available_building_categories(&BuildingRegistry::from_defs(Vec::new())).is_empty());
}

#[test]
fn buildings_of_category_are_sorted() {
    let registry = BuildingRegistry::from_defs(vec![
        def("Smelter", BuildingCategory::Production),
        def("Radar", BuildingCategory::Utility),
        def("Assembler", BuildingCategory::Production),
        def("Mining Drill", BuildingCategory::Production),
    ]);
    assert_eq!(
        get_buildings_of_category(&registry, BuildingCategory::Production),
        vec!["Assembler".to_string(), "Mining Drill".to_string(), "Smelter".to_string()]
    );
    assert!(get_buildings_of_category(&registry, BuildingCategory::Logistics).is_empty());
}

#[test]
fn inventory_text_names_each_item() {
    let registry = the_factory::materials::items::ItemRegistry::from_defs(vec![the_factory::materials::items::ItemDef {
        name: "Coal".to_string(),
        tier: 0,
    }]);
    assert_eq!(the_factory::ui::inventory_display_text(&ItemMap::new(), &registry), "Empty");
    assert_eq!(
        the_factory::ui::inventory_display_text(&items(&[("Coal", 12), ("Mystery", 3)]), &registry),
        "Coal: 12\nUnknown: 3"
    );
}

#[test]
fn warning_sign_follows_the_status() {
    let stopped = Operational(Some(vec![OperationalCondition::Power(false)]));
    let working = Operational(None);
    assert_eq!(indicator_change(&stopped, false), IndicatorChange::Show);
    assert_eq!(indicator_change(&stopped, true), IndicatorChange::Keep);
    assert_eq!(indicator_change(&working, true), IndicatorChange::Hide);
    assert_eq!(indicator_change(&working, false), IndicatorChange::Keep);
}

#[test]
fn tooltip_of_a_free_building_without_components() {
    let d = def("Connector", BuildingCategory::Logistics);
    assert_eq!(
        tooltip_text(&d, &Vec::new()),
        "Connector\nCategory: Logistics\n\nCost:\n  Free\n\nCapabilities:\n  - Basic structure\n"
    );
}

#[test]
fn tooltip_lists_sorted_cost_and_each_component() {
    let mut d = def("Smelter", BuildingCategory::Production);
    d.placement.cost.inputs = items(&[("Iron Plate", 5), ("Copper Wire", 12)]);
    d.components = vec![
        BuildingComponentDef::PowerConsumer { amount: 15 },
        BuildingComponentDef::PowerGenerator { amount: -3 },
        BuildingComponentDef::ComputeGenerator { amount: 7 },
        BuildingComponentDef::ComputeConsumer { amount: 2 },
        BuildingComponentDef::Inventory { capacity: 500 },
        BuildingComponentDef::ViewRange { radius: 4 },
        BuildingComponentDef::NetWorkComponent,
        BuildingComponentDef::RecipeCrafter { recipe_name: Some("Iron Ingot".to_string()), available_recipes: None },
        BuildingComponentDef::RecipeCrafter { recipe_name: None, available_recipes: None },
        BuildingComponentDef::Scanner,
        BuildingComponentDef::InputPort { capacity: 10 },
        BuildingComponentDef::OutputPort { capacity: 20 },
        BuildingComponentDef::StoragePort { capacity: 30 },
    ];
    let expected = [
        "Smelter\n",
        "Category: Production\n\n",
        "Cost:\n",
        "  12 Copper Wire\n",
        "  5 Iron Plate\n",
        "\nCapabilities:\n",
        "  - Consumes 15 power\n",
        "  - Generates -3 power\n",
        "  - Generates 7 compute\n",
        "  - Consumes 2 compute\n",
        "  - Storage capacity: 500\n",
        "  - View range: 4 tiles\n",
        "  - Network connection point\n",
        "  - Crafts 'Iron Ingot' every 2.5s\n",
        "  - Crafts 'Unknown' every 4.0s\n",
        "Reveals new tiles every 3.0s, scales with distance\n",
        "  - Input capacity: 10\n",
        "  - Output capacity: 20\n",
        "  - Storage capacity: 30\n",
    ]
    .concat();
    let mut intervals: Vec<String> = vec![String::new(); 13];
    intervals[7] = "2.5".to_string();
    intervals[8] = "4.0".to_string();
    intervals[9] = "3.0".to_string();
    assert_eq!(tooltip_text(&d, &intervals), expected);
}

#[test]
fn tooltip_names_the_utility_category() {
    let d = def("Hub", BuildingCategory::Utility);
    assert!(tooltip_text(&d, &Vec::new()).starts_with("Hub\nCategory: Utility\n"));
}
