use the_factory::grid::{Grid, Position};
use the_factory::item_map::ItemMap;
use the_factory::materials::items::{InputPort, InventoryAccess, OutputPort};
use the_factory::materials::recipes::{RecipeDef, RecipeRegistry};
use the_factory::structures::construction::{
    ComputeConsumer, ComputeGenerator, MultiCellBuilding, PowerConsumer, PowerGenerator,
    RecipeCrafter,
};
use the_factory::systems::compute::{update_compute, ComputeGrid};
use the_factory::systems::network::{calculate_network_connectivity, NetworkConnectivity, NetworkNode};
use the_factory::systems::operational::{
    update_operational, BuildingParts, Operational, OperationalCondition,
};
use the_factory::systems::power::{update_power_grid, PowerGrid};
use the_factory::systems::scanning::ScanState;
use the_factory::systems::GameScore;

fn items(entries: &[(&str, u32)]) -> ItemMap {
    let mut m = ItemMap::new();
    for (name, q) in entries {
        m.insert(name.to_string(), *q);
    }
    m
}

#[test]
fn network_connectivity_default_is_empty() {
    let connectivity = NetworkConnectivity::default();
    assert!(!connectivity.is_cell_connected(0, 0));
    assert!(!connectivity.is_core_network_cell(0, 0));
}

#[test]
fn is_cell_connected_returns_true_for_connected_cell() {
    let mut connectivity = NetworkConnectivity::default();
    connectivity.add_connected_cell(5, 10);
    assert!(connectivity.is_cell_connected(5, 10));
}

#[test]
fn is_cell_connected_returns_false_for_unconnected_cell() {
    let mut connectivity = NetworkConnectivity::default();
    connectivity.add_connected_cell(5, 10);
    assert!(!connectivity.is_cell_connected(0, 0));
    assert!(!connectivity.is_cell_connected(5, 11));
    assert!(!connectivity.is_cell_connected(6, 10));
}

#[test]
fn is_core_network_cell_returns_true_for_core_cell() {
    let mut connectivity = NetworkConnectivity::default();
    connectivity.add_core_network_cell(3, 7);
    assert!(connectivity.is_core_network_cell(3, 7));
}

#[test]
fn is_core_network_cell_returns_false_for_non_core_cell() {
    let mut connectivity = NetworkConnectivity::default();
    connectivity.add_core_network_cell(3, 7);
    assert!(!connectivity.is_core_network_cell(0, 0));
    assert!(!connectivity.is_core_network_cell(3, 8));
    assert!(!connectivity.is_core_network_cell(4, 7));
}

#[test]
fn is_adjacent_to_connected_network_with_cell_to_north() {
    let mut connectivity = NetworkConnectivity::default();
    connectivity.add_connected_cell(5, 6);
    assert!(connectivity.is_adjacent_to_connected_network(5, 5));
}

#[test]
fn is_adjacent_to_connected_network_with_cell_to_south() {
    let mut connectivity = NetworkConnectivity::default();
    connectivity.add_connected_cell(5, 4);
    assert!(connectivity.is_adjacent_to_connected_network(5, 5));
}

#[test]
fn is_adjacent_to_connected_network_with_cell_to_east() {
    let mut connectivity = NetworkConnectivity::default();
    connectivity.add_connected_cell(6, 5);
    assert!(connectivity.is_adjacent_to_connected_network(5, 5));
}

#[test]
fn is_adjacent_to_connected_network_with_cell_to_west() {
    let mut connectivity = NetworkConnectivity::default();
    connectivity.add_connected_cell(4, 5);
    assert!(connectivity.is_adjacent_to_connected_network(5, 5));
}

#[test]
fn is_adjacent_to_connected_network_returns_false_for_no_adjacent() {
    let mut connectivity = NetworkConnectivity::default();
    connectivity.add_connected_cell(6, 6);
    assert!(!connectivity.is_adjacent_to_connected_network(5, 5));
}

#[test]
fn is_adjacent_to_core_network_with_cell_to_north() {
    let mut connectivity = NetworkConnectivity::default();
    connectivity.add_core_network_cell(5, 6);
    assert!(connectivity.is_adjacent_to_core_network(5, 5));
}

#[test]
fn is_adjacent_to_core_network_with_cell_to_south() {
    let mut connectivity = NetworkConnectivity::default();
    connectivity.add_core_network_cell(5, 4);
    assert!(connectivity.is_adjacent_to_core_network(5, 5));
}

#[test]
fn is_adjacent_to_core_network_with_cell_to_east() {
    let mut connectivity = NetworkConnectivity::default();
    connectivity.add_core_network_cell(6, 5);
    assert!(connectivity.is_adjacent_to_core_network(5, 5));
}

#[test]
fn is_adjacent_to_core_network_with_cell_to_west() {
    let mut connectivity = NetworkConnectivity::default();
    connectivity.add_core_network_cell(4, 5);
    assert!(connectivity.is_adjacent_to_core_network(5, 5));
}

#[test]
fn is_adjacent_to_core_network_returns_false_for_no_adjacent() {
    let mut connectivity = NetworkConnectivity::default();
    connectivity.add_core_network_cell(6, 6);
    assert!(!connectivity.is_adjacent_to_core_network(5, 5));
}

#[test]
fn connected_cells_and_core_cells_are_independent() {
    let mut connectivity = NetworkConnectivity::default();
    connectivity.add_connected_cell(1, 1);
    connectivity.add_core_network_cell(2, 2);
    assert!(connectivity.is_cell_connected(1, 1));
    assert!(!connectivity.is_core_network_cell(1, 1));
    assert!(connectivity.is_core_network_cell(2, 2));
    assert!(!connectivity.is_cell_connected(2, 2));
}

fn node(x: i32, y: i32, network: bool) -> NetworkNode {
    NetworkNode { position: Position { x, y }, layer: 1, network }
}

#[test]
fn network_reaches_through_connectors_and_touches_buildings() {
    let hub = MultiCellBuilding { width: 3, height: 3, center_x: 0, center_y: 0 };
    let nodes = vec![node(2, 0, true), node(3, 0, true), node(4, 0, false), node(6, 0, true)];
    let (core, connected) = calculate_network_connectivity(&nodes, &vec![hub]);
    assert!(core.contains(&(0, 0)));
    assert!(core.contains(&(-1, -1)));
    assert!(core.contains(&(3, 0)));
    assert!(!core.contains(&(4, 0)));
    assert!(!core.contains(&(6, 0)));
    assert_eq!(core.len(), 11);
    assert!(connected.contains(&(4, 0)));
    assert!(!connected.contains(&(6, 0)));
    assert_eq!(connected.len(), 12);
}

#[test]
fn network_update_only_after_change_or_when_empty() {
    let mut connectivity = NetworkConnectivity::default();
    assert!(connectivity.should_update(false));
    connectivity.update(&vec![], &vec![MultiCellBuilding { width: 1, height: 1, center_x: 0, center_y: 0 }]);
    assert!(connectivity.is_core_network_cell(0, 0));
    assert!(!connectivity.should_update(false));
    assert!(connectivity.should_update(true));
}

#[test]
fn operational_condition_network_false_displays_correctly() {
    assert_eq!(OperationalCondition::Network(false).message(), "Not connected to network");
}

#[test]
fn operational_condition_power_false_displays_correctly() {
    assert_eq!(OperationalCondition::Power(false).message(), "Insufficient power");
}

#[test]
fn operational_condition_compute_false_displays_correctly() {
    assert_eq!(OperationalCondition::Compute(false).message(), "Insufficient compute");
}

#[test]
fn operational_condition_has_items_false_displays_correctly() {
    assert_eq!(OperationalCondition::HasItems(false).message(), "Missing required items");
}

#[test]
fn operational_condition_has_inventory_space_false_displays_correctly() {
    assert_eq!(OperationalCondition::HasInventorySpace(false).message(), "Output full");
}

#[test]
fn operational_condition_true_displays_empty() {
    let conditions = [
        OperationalCondition::Network(true),
        OperationalCondition::Power(true),
        OperationalCondition::Compute(true),
        OperationalCondition::HasItems(true),
        OperationalCondition::HasInventorySpace(true),
    ];
    for condition in conditions {
        assert_eq!(condition.message(), "");
    }
}

#[test]
fn get_status_with_no_conditions_is_operational() {
    assert!(Operational(None).get_status());
}

#[test]
fn get_status_with_empty_conditions_is_operational() {
    assert!(Operational(Some(Vec::new())).get_status());
}

#[test]
fn get_status_with_all_conditions_true_is_operational() {
    let conditions = vec![
        OperationalCondition::Network(true),
        OperationalCondition::Power(true),
        OperationalCondition::Compute(true),
        OperationalCondition::HasItems(true),
        OperationalCondition::HasInventorySpace(true),
    ];
    assert!(Operational(Some(conditions)).get_status());
}

#[test]
fn get_status_with_one_condition_false_is_not_operational() {
    let conditions = vec![OperationalCondition::Network(false), OperationalCondition::Power(true)];
    assert!(!Operational(Some(conditions)).get_status());
}

#[test]
fn get_status_with_power_false_is_not_operational() {
    let conditions = vec![OperationalCondition::Network(true), OperationalCondition::Power(false)];
    assert!(!Operational(Some(conditions)).get_status());
}

#[test]
fn get_status_with_compute_false_is_not_operational() {
    let conditions = vec![OperationalCondition::Network(true), OperationalCondition::Compute(false)];
    assert!(!Operational(Some(conditions)).get_status());
}

#[test]
fn get_status_with_has_items_false_is_not_operational() {
    let conditions = vec![OperationalCondition::Network(true), OperationalCondition::HasItems(false)];
    assert!(!Operational(Some(conditions)).get_status());
}

#[test]
fn get_status_with_has_inventory_space_false_is_not_operational() {
    let conditions =
        vec![OperationalCondition::Network(true), OperationalCondition::HasInventorySpace(false)];
    assert!(!Operational(Some(conditions)).get_status());
}

#[test]
fn get_status_with_multiple_conditions_false_is_not_operational() {
    let conditions = vec![
        OperationalCondition::Network(false),
        OperationalCondition::Power(false),
        OperationalCondition::Compute(true),
    ];
    assert!(!Operational(Some(conditions)).get_status());
}

#[test]
fn get_status_single_true_condition_is_operational() {
    assert!(Operational(Some(vec![OperationalCondition::Network(true)])).get_status());
}

#[test]
fn get_status_single_false_condition_is_not_operational() {
    assert!(!Operational(Some(vec![OperationalCondition::Network(false)])).get_status());
}

#[test]
fn populate_gives_conditions_in_order_once() {
    let parts = BuildingParts {
        building: true,
        power_consumer: true,
        compute_consumer: false,
        recipe_crafter: true,
        input_port: true,
        output_port: true,
    };
    let mut op = Operational(Some(Vec::new()));
    op.populate(parts);
    assert_eq!(
        op.0,
        Some(vec![
            OperationalCondition::Network(false),
            OperationalCondition::Power(false),
            OperationalCondition::HasItems(false),
            OperationalCondition::HasInventorySpace(false),
        ])
    );
    let mut kept = Operational(Some(vec![OperationalCondition::Compute(true)]));
    kept.populate(parts);
    assert_eq!(kept.0, Some(vec![OperationalCondition::Compute(true)]));
    let mut none = Operational(None);
    none.populate(BuildingParts {
        building: false,
        power_consumer: false,
        compute_consumer: false,
        recipe_crafter: true,
        input_port: false,
        output_port: false,
    });
    assert_eq!(none.0, Some(Vec::new()));
}

#[test]
fn update_operational_reads_the_world() {
    let mut network = NetworkConnectivity::default();
    network.add_connected_cell(1, 0);
    let power = PowerGrid { capacity: 10, usage: 20, available: -10 };
    let compute = ComputeGrid { capacity: 10, usage: 5, available: 5 };
    let recipes = RecipeRegistry::from_defs(vec![RecipeDef {
        name: "Iron Ingot".to_string(),
        inputs: items(&[("Iron Ore", 2)]),
        outputs: items(&[("Iron Ingot", 1)]),
    }]);
    let crafter = RecipeCrafter { current_recipe: Some("Iron Ingot".to_string()), available_recipes: Vec::new() };
    let mut input = InputPort::new(10);
    input.add_item("Iron Ore", 2);
    let mut output = OutputPort::new(1);
    output.add_item("Iron Ingot", 1);
    let mut op = Operational(Some(vec![
        OperationalCondition::Network(false),
        OperationalCondition::Power(true),
        OperationalCondition::Compute(false),
        OperationalCondition::HasItems(false),
        OperationalCondition::HasInventorySpace(true),
    ]));
    update_operational(
        &mut op,
        Some(&crafter),
        Some(&input),
        Some(&output),
        Position { x: 0, y: 0 },
        &network,
        &power,
        &compute,
        &recipes,
    );
    assert_eq!(
        op.0,
        Some(vec![
            OperationalCondition::Network(true),
            OperationalCondition::Power(false),
            OperationalCondition::Compute(true),
            OperationalCondition::HasItems(true),
            OperationalCondition::HasInventorySpace(false),
        ])
    );
    assert!(!op.get_status());
}

#[test]
fn update_operational_keeps_has_items_without_a_recipe() {
    let network = NetworkConnectivity::default();
    let power = PowerGrid::default();
    let compute = ComputeGrid::default();
    let recipes = RecipeRegistry::from_defs(Vec::new());
    let crafter = RecipeCrafter { current_recipe: None, available_recipes: Vec::new() };
    let mut op = Operational(Some(vec![OperationalCondition::HasItems(true)]));
    update_operational(&mut op, Some(&crafter), None, None, Position { x: 0, y: 0 }, &network, &power, &compute, &recipes);
    assert_eq!(op.0, Some(vec![OperationalCondition::HasItems(true)]));
}

#[test]
fn power_grid_default_has_zero_values() {
    let grid = PowerGrid::default();
    assert_eq!(grid.capacity, 0);
    assert_eq!(grid.usage, 0);
    assert_eq!(grid.available, 0);
}

#[test]
fn power_grid_single_producer() {
    let grid = PowerGrid { capacity: 100, usage: 0, available: 100 };
    assert_eq!(grid.capacity, 100);
    assert_eq!(grid.available, 100);
}

#[test]
fn power_grid_multiple_producers() {
    let grid = PowerGrid { capacity: 350, usage: 0, available: 350 };
    assert_eq!(grid.capacity, 350);
    assert_eq!(grid.available, 350);
}

#[test]
fn power_grid_single_consumer() {
    let grid = PowerGrid { capacity: 100, usage: 30, available: 70 };
    assert_eq!(grid.usage, 30);
    assert_eq!(grid.available, 70);
}

#[test]
fn power_grid_multiple_consumers() {
    let grid = PowerGrid { capacity: 100, usage: 65, available: 35 };
    assert_eq!(grid.usage, 65);
    assert_eq!(grid.available, 35);
}

#[test]
fn power_grid_available_capacity_calculation() {
    let grid = PowerGrid { capacity: 500, usage: 200, available: 300 };
    assert_eq!(grid.available, 300);
}

#[test]
fn power_grid_negative_available_when_overconsumption() {
    let grid = PowerGrid { capacity: 100, usage: 150, available: -50 };
    assert_eq!(grid.available, -50);
    assert!(grid.available < 0);
}

#[test]
fn power_grid_zero_available_when_balanced() {
    let grid = PowerGrid { capacity: 100, usage: 100, available: 0 };
    assert_eq!(grid.available, 0);
}

#[test]
fn power_grid_counts_only_working_generators() {
    let working = Operational(None);
    let stopped = Operational(Some(vec![OperationalCondition::Network(false)]));
    let g1 = PowerGenerator { amount: 100 };
    let g2 = PowerGenerator { amount: 200 };
    let g3 = PowerGenerator { amount: 50 };
    let c1 = PowerConsumer { amount: 20 };
    let c2 = PowerConsumer { amount: 30 };
    let mut grid = PowerGrid::default();
    update_power_grid(&mut grid, &vec![(&g1, &working), (&g2, &stopped), (&g3, &working)], &vec![&c1, &c2]);
    assert_eq!(grid.capacity, 150);
    assert_eq!(grid.usage, 50);
    assert_eq!(grid.available, 100);
}

#[test]
fn compute_grid_goes_negative_when_overdrawn() {
    let working = Operational(None);
    let g = ComputeGenerator { amount: 60 };
    let c1 = ComputeConsumer { amount: 50 };
    let c2 = ComputeConsumer { amount: 25 };
    let mut grid = ComputeGrid::default();
    update_compute(&mut grid, &vec![(&g, &working)], &vec![&c1, &c2]);
    assert_eq!(grid.capacity, 60);
    assert_eq!(grid.usage, 75);
    assert_eq!(grid.available, -15);
}

#[test]
fn game_score_counts_launches() {
    let mut score = GameScore::default();
    score.record_launch(40);
    score.record_launch(90);
    assert_eq!(score.total_score, 130);
    assert_eq!(score.launches_completed, 2);
}

fn create_grid_with_coordinates(coords: &[(i32, i32)]) -> Grid {
    let mut grid = Grid::new();
    for &(x, y) in coords {
        grid.add_coordinate(x, y);
    }
    grid
}

#[test]
fn to_sector_center_rounds_to_nearest_sector() {
    let scanner = ScanState::new(Position { x: 0, y: 0 });
    assert_eq!(scanner.to_sector_center(0, 0), (0, 0));
    assert_eq!(scanner.to_sector_center(2, 2), (0, 0));
    assert_eq!(scanner.to_sector_center(3, 3), (5, 5));
    assert_eq!(scanner.to_sector_center(-2, -2), (0, 0));
    assert_eq!(scanner.to_sector_center(-3, -3), (-5, -5));
    assert_eq!(scanner.to_sector_center(7, 8), (5, 10));
}

#[test]
fn find_exploration_targets_returns_sector_centers() {
    let scanner = ScanState::new(Position { x: 0, y: 0 });
    let grid = create_grid_with_coordinates(&[(0, 0)]);
    let targets = scanner.find_exploration_targets(&grid);
    for (x, y, _) in &targets {
        assert_eq!(x % scanner.sector_size, 0, "Target x={x} should be multiple of sector_size");
        assert_eq!(y % scanner.sector_size, 0, "Target y={y} should be multiple of sector_size");
    }
}

#[test]
fn find_exploration_targets_finds_sectors_with_unexplored_tiles() {
    let scanner = ScanState::new(Position { x: 0, y: 0 });
    let grid = create_grid_with_coordinates(&[(0, 0)]);
    let targets = scanner.find_exploration_targets(&grid);
    assert!(!targets.is_empty());
    assert!(targets.iter().any(|(x, y, _)| (*x, *y) == (0, 0)));
}

#[test]
fn find_exploration_targets_finds_adjacent_sectors_when_current_full() {
    let scanner = ScanState::new(Position { x: 0, y: 0 });
    let mut coords = Vec::new();
    for y in -2..=2 {
        for x in -2..=2 {
            coords.push((x, y));
        }
    }
    let grid = create_grid_with_coordinates(&coords);
    let targets = scanner.find_exploration_targets(&grid);
    let found = |c: (i32, i32)| targets.iter().any(|(x, y, _)| (*x, *y) == c);
    assert!(found((5, 0)) || found((0, 5)));
}

#[test]
fn find_exploration_targets_sorts_by_distance_then_angle() {
    let scanner = ScanState::new(Position { x: 0, y: 0 });
    let grid = create_grid_with_coordinates(&[(0, 0)]);
    let targets = scanner.find_exploration_targets(&grid);
    assert_eq!(targets, vec![(0, 0, 0)]);
}

#[test]
fn targets_at_equal_distance_come_clockwise_from_north() {
    let scanner = ScanState::new(Position { x: 0, y: 0 });
    let mut coords = Vec::new();
    for y in -2..=2 {
        for x in -2..=2 {
            coords.push((x, y));
        }
    }
    let grid = create_grid_with_coordinates(&coords);
    let targets = scanner.find_exploration_targets(&grid);
    assert_eq!(targets, vec![(0, 5, 5), (5, 0, 5), (0, -5, 5), (-5, 0, 5)]);
}

#[test]
fn targets_after_east_start_from_east() {
    let mut scanner = ScanState::new(Position { x: 0, y: 0 });
    scanner.last_direction = (5, 0);
    let mut coords = Vec::new();
    for y in -2..=2 {
        for x in -2..=2 {
            coords.push((x, y));
        }
    }
    let grid = create_grid_with_coordinates(&coords);
    let targets = scanner.find_exploration_targets(&grid);
    assert_eq!(targets, vec![(5, 0, 5), (0, -5, 5), (-5, 0, 5), (0, 5, 5)]);
}

#[test]
fn scanner_new_initializes_correctly() {
    let scanner = ScanState::new(Position { x: 10, y: 20 });
    assert_eq!(scanner.position.x, 10);
    assert_eq!(scanner.position.y, 20);
    assert_eq!(scanner.last_direction, (0, 1), "Should start at angle 0 (north)");
    assert_eq!(scanner.current_target_distance, 1, "Should start at distance 1");
}

#[test]
fn reset_timer_for_distance_updates_state() {
    let mut scanner = ScanState::new(Position { x: 0, y: 0 });
    let intervals = scanner.reset_for_distance(5);
    assert_eq!(scanner.current_target_distance, 5);
    assert!((intervals as f32 * 2.0 - 10.0).abs() < 0.01, "Timer duration should be 10.0");
}

#[test]
fn find_next_cluster_reveals_sector_size_area() {
    let mut scanner = ScanState::new(Position { x: 0, y: 0 });
    let grid = create_grid_with_coordinates(&[(0, 0)]);
    let (cluster, _) = scanner.find_next_cluster(&grid).unwrap();
    assert_eq!(cluster.len(), 25, "Should reveal 5x5 area with sector_size=5");
}

#[test]
fn find_next_cluster_respects_sector_size() {
    let mut scanner = ScanState::new(Position { x: 0, y: 0 });
    scanner.sector_size = 3;
    let grid = create_grid_with_coordinates(&[(0, 0)]);
    let (cluster, _) = scanner.find_next_cluster(&grid).unwrap();
    assert_eq!(cluster.len(), 9, "Should reveal 3x3 area with sector_size=3");
}

#[test]
fn consecutive_sector_scans_share_edges_not_overlap() {
    let mut scanner = ScanState::new(Position { x: 0, y: 0 });
    let mut grid = create_grid_with_coordinates(&[(0, 0)]);
    let (cluster1, _) = scanner.find_next_cluster(&grid).unwrap();
    for (x, y) in &cluster1 {
        grid.add_coordinate(*x, *y);
    }
    let (cluster2, _) = scanner.find_next_cluster(&grid).unwrap();
    let overlap = cluster1.iter().filter(|c| cluster2.contains(c)).count();
    assert!(overlap <= 5, "Adjacent sectors should share at most one edge, found {overlap}");
}

#[test]
fn first_cluster_is_the_origin_sector_then_a_neighbour() {
    let mut scanner = ScanState::new(Position { x: 0, y: 0 });
    let mut grid = create_grid_with_coordinates(&[(0, 0)]);
    let (cluster1, d1) = scanner.find_next_cluster(&grid).unwrap();
    assert_eq!(d1, 0);
    assert!(cluster1.contains(&(-2, -2)) && cluster1.contains(&(2, 2)));
    for (x, y) in &cluster1 {
        grid.add_coordinate(*x, *y);
    }
    let (cluster2, d2) = scanner.find_next_cluster(&grid).unwrap();
    assert_eq!(d2, 5);
    assert_eq!(cluster2.len(), 25);
}

#[test]
fn freshly_populated_building_is_not_operational() {
    let mut op = Operational(Some(Vec::new()));
    op.populate(BuildingParts {
        building: true,
        power_consumer: false,
        compute_consumer: false,
        recipe_crafter: false,
        input_port: false,
        output_port: false,
    });
    assert!(!op.get_status());
}

#[test]
fn scan_time_grows_with_distance_up_to_ten_intervals() {
    let mut scanner = ScanState::new(Position { x: 0, y: 0 });
    assert_eq!(scanner.reset_for_distance(5), 5);
    assert_eq!(scanner.current_target_distance, 5);
    assert_eq!(scanner.reset_for_distance(15), 10);
    assert_eq!(scanner.reset_for_distance(100), 10);
}

#[test]
fn links_join_adjacent_cells_touching_the_core() {
    let mut network = NetworkConnectivity::default();
    for c in [(0, 0), (1, 0), (2, 0), (2, 1), (5, 5), (5, 6)] {
        network.add_connected_cell(c.0, c.1);
    }
    network.add_core_network_cell(0, 0);
    network.add_core_network_cell(1, 0);
    network.add_core_network_cell(5, 5);
    let links = network.connection_links();
    let has = |a: (i32, i32), b: (i32, i32)| links.iter().any(|l| *l == (a, b) || *l == (b, a));
    assert!(has((0, 0), (1, 0)));
    assert!(has((1, 0), (2, 0)));
    assert!(!has((2, 0), (2, 1)));
    assert!(has((5, 5), (5, 6)));
    assert_eq!(links.len(), 3);
}

#[test]
fn hub_seeds_rows_by_width_and_columns_up_to_half_height() {
    let hub = MultiCellBuilding { width: 3, height: 1, center_x: 0, center_y: 0 };
    let (core, _) = calculate_network_connectivity(&vec![], &vec![hub]);
    assert!(core.contains(&(-1, -1)));
    assert!(core.contains(&(0, 1)));
    assert!(core.contains(&(-1, 0)));
    assert!(!core.contains(&(1, 0)));
    assert_eq!(core.len(), 6);
}

#[test]
fn core_is_closed_and_stops_at_non_network_buildings() {
    let hub = MultiCellBuilding { width: 1, height: 1, center_x: 0, center_y: 0 };
    let nodes = vec![node(0, 1, true), node(0, 2, true), node(0, 3, false), node(0, 4, true)];
    let (core, connected) = calculate_network_connectivity(&nodes, &vec![hub]);
    assert!(core.contains(&(0, 2)));
    assert!(!core.contains(&(0, 4)));
    assert_eq!(core.len(), 3);
    assert!(connected.contains(&(0, 3)));
    assert_eq!(connected.len(), 4);
}

#[test]
fn operational_status_at_the_coordinate_edge_without_network_condition() {
    let network = NetworkConnectivity::default();
    let power = PowerGrid { capacity: 10, usage: 5, available: 5 };
    let compute = ComputeGrid::default();
    let recipes = RecipeRegistry::from_defs(Vec::new());
    let mut op = Operational(Some(vec![OperationalCondition::Power(false)]));
    update_operational(&mut op, None, None, None, Position { x: i32::MAX, y: i32::MIN }, &network, &power, &compute, &recipes);
    assert_eq!(op.0, Some(vec![OperationalCondition::Power(true)]));
}
