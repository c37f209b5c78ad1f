use astar_grid::grid::Coordinate;
use astar_grid::grid::calculate_h_value;
use astar_grid::grid::generate_adjacency_list;
use astar_grid::grid::generate_closed_list;
use astar_grid::search::SearchError;
use astar_grid::search::a_star_search;
use astar_grid::search::find_path;

fn free_mask(rows: usize, columns: usize) -> Vec<Vec<bool>> {
    vec![vec![false; columns]; rows]
}

fn step_is_cardinal(a: Coordinate, b: Coordinate) -> bool {
    let dx = if a.x >= b.x { a.x - b.x } else { b.x - a.x };
    let dy = if a.y >= b.y { a.y - b.y } else { b.y - a.y };
    dx + dy == 1
}

/// The path runs from just before the goal back to the start: its head is
/// one step from the goal, its tail is the start, every hop is cardinal,
/// and no coordinate is blocked.
fn check_path(path: &Vec<Coordinate>, mask: &Vec<Vec<bool>>, start: Coordinate, goal: Coordinate) {
    assert!(!path.is_empty());
    assert!(step_is_cardinal(path[0], goal));
    assert_eq!(path[path.len() - 1], start);
    for i in 0..path.len() - 1 {
        assert!(step_is_cardinal(path[i + 1], path[i]));
    }
    for c in path {
        assert!(!mask[c.y][c.x], "blocked cell on path: ({}, {})", c.x, c.y);
    }
    for i in 0..path.len() {
        assert_ne!(path[i], goal, "the goal itself must not appear on the path");
        for j in i + 1..path.len() {
            assert_ne!(path[i], path[j], "a path must not repeat a coordinate");
        }
    }
}

#[test]
fn free_3x3_corner_to_corner_has_four_steps() {
    let mask = free_mask(3, 3);
    let r = a_star_search(&mask, 3, 3);
    let path = r.expect("a free grid must have a path");
    assert_eq!(path.len(), 4);
    check_path(
        &path,
        &mask,
        Coordinate { x: 0, y: 0 },
        Coordinate { x: 2, y: 2 },
    );
}

#[test]
fn free_grid_path_length_is_manhattan_distance() {
    let mask = free_mask(4, 5);
    let r = a_star_search(&mask, 4, 5);
    let path = r.expect("a free grid must have a path");
    assert_eq!(path.len(), (4 - 1) + (5 - 1));
    check_path(
        &path,
        &mask,
        Coordinate { x: 0, y: 0 },
        Coordinate { x: 4, y: 3 },
    );

    let mask2 = free_mask(2, 2);
    let r2 = a_star_search(&mask2, 2, 2);
    assert_eq!(r2.expect("a free grid must have a path").len(), 2);
}

#[test]
fn single_row_grid_walks_straight() {
    let mask = free_mask(1, 5);
    let path = a_star_search(&mask, 1, 5).expect("a free grid must have a path");
    assert_eq!(path.len(), 4);
    for (i, c) in path.iter().enumerate() {
        assert_eq!(c.y, 0);
        assert_eq!(c.x, 3 - i);
    }
}

#[test]
fn single_cell_grid_finds_trivial_path() {
    let mask = free_mask(1, 1);
    let r = a_star_search(&mask, 1, 1);
    assert_eq!(r, Ok(Vec::new()));
    let start = Coordinate { x: 0, y: 0 };
    let r2 = find_path(1, 1, &mask, start, start);
    assert_eq!(r2, Ok(Vec::new()));
}

#[test]
fn start_equal_goal_inside_larger_grid() {
    let mask = free_mask(3, 3);
    let c = Coordinate { x: 1, y: 2 };
    assert_eq!(find_path(3, 3, &mask, c, c), Ok(Vec::new()));
}

#[test]
fn blocked_column_3x3_reports_no_path() {
    let mut mask = free_mask(3, 3);
    for y in 0..3 {
        mask[y][1] = true;
    }
    let r = a_star_search(&mask, 3, 3);
    assert_eq!(r, Err(SearchError::NoPathFound));
}

#[test]
fn blocked_row_reports_no_path() {
    let mut mask = free_mask(4, 4);
    for x in 0..4 {
        mask[2][x] = true;
    }
    let r = a_star_search(&mask, 4, 4);
    assert_eq!(r, Err(SearchError::NoPathFound));
}

#[test]
fn path_detours_around_center_obstacle() {
    let mut mask = free_mask(3, 3);
    mask[1][1] = true;
    let path = a_star_search(&mask, 3, 3).expect("a detour exists");
    assert_eq!(path.len(), 4);
    check_path(
        &path,
        &mask,
        Coordinate { x: 0, y: 0 },
        Coordinate { x: 2, y: 2 },
    );
}

#[test]
fn blocked_cells_never_appear_on_path() {
    let mut mask = free_mask(4, 4);
    mask[0][2] = true;
    mask[1][1] = true;
    mask[2][3] = true;
    mask[3][0] = true;
    let path = a_star_search(&mask, 4, 4).expect("a route around the obstacles exists");
    check_path(
        &path,
        &mask,
        Coordinate { x: 0, y: 0 },
        Coordinate { x: 3, y: 3 },
    );
}

#[test]
fn repeated_search_yields_identical_path() {
    let mut mask = free_mask(4, 4);
    mask[1][2] = true;
    mask[2][1] = true;
    let first = a_star_search(&mask, 4, 4);
    let second = a_star_search(&mask, 4, 4);
    assert_eq!(first, second);
    let len1 = first.expect("a route exists").len();
    let len2 = second.expect("a route exists").len();
    assert_eq!(len1, len2);
}

#[test]
fn mask_dimension_mismatch_is_rejected() {
    let mask = free_mask(2, 2);
    let r = a_star_search(&mask, 3, 2);
    assert_eq!(r, Err(SearchError::InvalidDimensions));

    let mut ragged = free_mask(3, 3);
    ragged[1].pop();
    let r2 = a_star_search(&ragged, 3, 3);
    assert_eq!(r2, Err(SearchError::InvalidDimensions));
}

#[test]
fn blocked_endpoints_report_no_path() {
    let mut mask = free_mask(3, 3);
    mask[2][2] = true;
    assert_eq!(a_star_search(&mask, 3, 3), Err(SearchError::NoPathFound));

    let mut mask2 = free_mask(3, 3);
    mask2[0][0] = true;
    assert_eq!(a_star_search(&mask2, 3, 3), Err(SearchError::NoPathFound));
}

#[test]
fn closed_list_starts_fully_open() {
    let closed = generate_closed_list(3, 5);
    assert_eq!(closed.len(), 3);
    for row in &closed {
        assert_eq!(row.len(), 5);
        for flag in row {
            assert!(!flag);
        }
    }
}

#[test]
fn adjacency_list_holds_in_bounds_neighbours() {
    let mut mask = free_mask(3, 3);
    mask[0][1] = true;
    let cells = generate_adjacency_list(&mask, 3, 3);
    assert_eq!(cells.len(), 3);
    assert_eq!(cells[0].len(), 3);

    // corner (0, 0): right and down only
    let corner = &cells[0][0];
    assert!(!corner.obstacle);
    assert_eq!(corner.neighbours.len(), 2);
    assert_eq!(corner.neighbours[0], Coordinate { x: 1, y: 0 });
    assert_eq!(corner.neighbours[1], Coordinate { x: 0, y: 1 });

    // centre (1, 1): all four, in left-right-up-down order
    let centre = &cells[1][1];
    assert_eq!(centre.neighbours.len(), 4);
    assert_eq!(centre.neighbours[0], Coordinate { x: 0, y: 1 });
    assert_eq!(centre.neighbours[1], Coordinate { x: 2, y: 1 });
    assert_eq!(centre.neighbours[2], Coordinate { x: 1, y: 0 });
    assert_eq!(centre.neighbours[3], Coordinate { x: 1, y: 2 });

    // the mask is mirrored into the cells
    assert!(cells[0][1].obstacle);
    assert_eq!(cells[0][1].g, None);
    assert_eq!(cells[0][1].parent, None);
}

#[test]
fn heuristic_is_manhattan_distance() {
    let goal = Coordinate { x: 2, y: 2 };
    assert_eq!(calculate_h_value(0, 0, goal), 4);
    assert_eq!(calculate_h_value(2, 2, goal), 0);
    assert_eq!(calculate_h_value(4, 1, goal), 3);
}

#[test]
fn free_grid_inner_endpoints_connect() {
    let mask = free_mask(4, 4);
    let start = Coordinate { x: 1, y: 2 };
    let goal = Coordinate { x: 3, y: 0 };
    let path = find_path(4, 4, &mask, start, goal).expect("a free grid is fully connected");
    check_path(&path, &mask, start, goal);
}

#[test]
fn narrow_gap_is_found() {
    // column 1 blocked except one gap: completeness demands success
    let mut mask = free_mask(4, 4);
    mask[0][1] = true;
    mask[1][1] = true;
    mask[3][1] = true;
    let path = a_star_search(&mask, 4, 4).expect("one gap keeps the corners connected");
    check_path(
        &path,
        &mask,
        Coordinate { x: 0, y: 0 },
        Coordinate { x: 3, y: 3 },
    );
}

#[test]
fn adjacent_corners_always_succeed() {
    let mask = free_mask(1, 2);
    let path = a_star_search(&mask, 1, 2).expect("adjacent corners must connect");
    assert_eq!(path, vec![Coordinate { x: 0, y: 0 }]);

    let mask2 = free_mask(2, 1);
    let path2 = a_star_search(&mask2, 2, 1).expect("adjacent corners must connect");
    assert_eq!(path2, vec![Coordinate { x: 0, y: 0 }]);
}
