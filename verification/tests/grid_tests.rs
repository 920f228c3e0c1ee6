use the_factory::grid::{area_cells, Grid};

#[test]
fn new_creates_grid_with_empty_coordinates() {
    let grid = Grid::new();
    assert!(grid.valid_coordinates.is_empty());
}

#[test]
fn add_coordinate_returns_true_when_new() {
    let mut grid = Grid::new();
    let result = grid.add_coordinate(5, 10);
    assert!(result);
    assert!(grid.valid_coordinates.contains(&(5, 10)));
}

#[test]
fn add_coordinate_returns_false_when_duplicate() {
    let mut grid = Grid::new();
    grid.add_coordinate(5, 10);
    let result = grid.add_coordinate(5, 10);
    assert!(!result);
    assert_eq!(grid.valid_coordinates.len(), 1);
}

#[test]
fn get_coordinates_in_radius_zero_radius() {
    let coords = Grid::get_coordinates_in_radius(5, 5, 0);
    assert_eq!(coords.len(), 1);
    assert!(coords.contains(&(5, 5)));
}

#[test]
fn get_coordinates_in_radius_one() {
    let coords = Grid::get_coordinates_in_radius(0, 0, 1);
    assert_eq!(coords.len(), 5);
    assert!(coords.contains(&(0, 0)));
    assert!(coords.contains(&(1, 0)));
    assert!(coords.contains(&(-1, 0)));
    assert!(coords.contains(&(0, 1)));
    assert!(coords.contains(&(0, -1)));
}

#[test]
fn get_coordinates_in_radius_three() {
    let coords = Grid::get_coordinates_in_radius(0, 0, 3);
    assert!(coords.contains(&(0, 0)));
    assert!(coords.contains(&(3, 0)));
    assert!(coords.contains(&(-3, 0)));
    assert!(coords.contains(&(0, 3)));
    assert!(coords.contains(&(0, -3)));
    assert!(!coords.contains(&(3, 3)));
    assert!(!coords.contains(&(-3, -3)));
    assert!(coords.contains(&(2, 2)));
}

#[test]
fn radius_cells_come_row_by_row() {
    let coords = Grid::get_coordinates_in_radius(10, -4, 1);
    assert_eq!(coords, vec![(10, -5), (9, -4), (10, -4), (11, -4), (10, -3)]);
}

#[test]
fn negative_radius_gives_no_cells() {
    assert!(Grid::get_coordinates_in_radius(0, 0, -1).is_empty());
}

#[test]
fn radius_two_has_thirteen_cells() {
    let coords = Grid::get_coordinates_in_radius(0, 0, 2);
    assert_eq!(coords.len(), 13);
    assert!(!coords.contains(&(2, 1)));
    assert!(coords.contains(&(1, 1)));
}

#[test]
fn area_cells_cover_the_rectangle_row_by_row() {
    let cells = area_cells(1, 1, 1, 0);
    assert_eq!(cells, vec![(0, 1), (1, 1), (2, 1)]);
    assert_eq!(area_cells(0, 0, 1, 1).len(), 9);
    assert!(area_cells(0, 0, -1, 1).is_empty());
}

#[test]
fn reveal_cells_returns_only_hidden_cells_once() {
    let mut grid = Grid::new();
    grid.add_coordinate(0, 0);
    let revealed = grid.reveal_cells(&vec![(0, 0), (1, 0), (1, 0), (2, 0)]);
    assert_eq!(revealed, vec![(1, 0), (2, 0)]);
    assert_eq!(grid.valid_coordinates.len(), 3);
    assert!(grid.valid_coordinates.contains(&(2, 0)));
}

#[test]
fn expand_around_reveals_the_disk() {
    let mut grid = Grid::new();
    grid.add_coordinate(0, 0);
    let revealed = grid.expand_around(0, 0, 1);
    assert_eq!(revealed, vec![(0, -1), (-1, 0), (1, 0), (0, 1)]);
    assert_eq!(grid.valid_coordinates.len(), 5);
    let again = grid.expand_around(0, 0, 1);
    assert!(again.is_empty());
}

#[test]
fn initial_grid_is_five_by_five() {
    let (grid, cells) = Grid::initial();
    assert_eq!(cells.len(), 25);
    assert_eq!(grid.valid_coordinates.len(), 25);
    assert_eq!(cells[0], (-2, -2));
    assert_eq!(cells[24], (2, 2));
    assert!(grid.valid_coordinates.contains(&(0, 0)));
    assert!(!grid.valid_coordinates.contains(&(3, 0)));
}

#[test]
fn grid_coordinates_only_for_revealed_cells() {
    let mut grid = Grid::new();
    grid.add_coordinate(2, 3);
    let c = grid.grid_coordinates_at(2, 3).unwrap();
    assert_eq!((c.grid_x, c.grid_y), (2, 3));
    assert!(grid.grid_coordinates_at(3, 2).is_none());
}

#[test]
fn expand_around_lists_each_new_cell_once() {
    let mut grid = Grid::new();
    let first = grid.expand_around(0, 0, 1);
    assert_eq!(first.len(), 5);
    let second = grid.expand_around(1, 0, 1);
    assert_eq!(second, vec![(1, -1), (2, 0), (1, 1)]);
    assert_eq!(grid.valid_coordinates.len(), 8);
}
