use uav_optimizer::fixed::{isqrt, isqrt_ceil};
use uav_optimizer::terrain::{Point, Terrain, TerrainType, CELL_SIDE, IMPASSABLE, UNIT};

#[test]
fn new_terrain_is_normal_flat_and_calm() {
    let terrain = Terrain::new(4, 3);
    assert_eq!(terrain.get_width(), 4);
    assert_eq!(terrain.get_height(), 3);
    for y in 0..3 {
        for x in 0..4 {
            assert_eq!(terrain.get_terrain(x, y), TerrainType::Normal);
            assert_eq!(terrain.get_elevation(x, y), 0);
            assert_eq!(terrain.get_wind_resistance(x, y), 0);
        }
    }
}

#[test]
fn reads_outside_the_grid_give_safe_values() {
    let terrain = Terrain::new(2, 2);
    assert_eq!(terrain.get_terrain(2, 0), TerrainType::Obstacle);
    assert_eq!(terrain.get_terrain(0, 2), TerrainType::Obstacle);
    assert_eq!(terrain.get_terrain(usize::MAX, usize::MAX), TerrainType::Obstacle);
    assert_eq!(terrain.get_elevation(5, 5), 0);
    assert_eq!(terrain.get_wind_resistance(5, 5), 0);
}

#[test]
fn writes_outside_the_grid_are_ignored() {
    let mut terrain = Terrain::new(2, 2);
    terrain.set_terrain(2, 1, TerrainType::Hill);
    terrain.set_terrain(1, 2, TerrainType::Hill);
    terrain.set_elevation(7, 0, 9000);
    terrain.set_wind_resistance(0, 7, 9000);
    terrain.set_terrain(4_294_967_297, 0, TerrainType::Hill);
    for y in 0..2 {
        for x in 0..2 {
            assert_eq!(terrain.get_terrain(x, y), TerrainType::Normal);
            assert_eq!(terrain.get_elevation(x, y), 0);
            assert_eq!(terrain.get_wind_resistance(x, y), 0);
        }
    }
    assert_eq!(terrain.get_width(), 2);
    assert_eq!(terrain.get_height(), 2);
}

#[test]
fn writes_inside_the_grid_change_one_cell() {
    let mut terrain = Terrain::new(3, 2);
    terrain.set_terrain(2, 1, TerrainType::WindZone);
    terrain.set_elevation(1, 0, 1500);
    terrain.set_wind_resistance(0, 1, 700);
    assert_eq!(terrain.get_terrain(2, 1), TerrainType::WindZone);
    assert_eq!(terrain.get_terrain(1, 1), TerrainType::Normal);
    assert_eq!(terrain.get_elevation(1, 0), 1500);
    assert_eq!(terrain.get_elevation(0, 1), 0);
    assert_eq!(terrain.get_wind_resistance(0, 1), 700);
    assert_eq!(terrain.get_wind_resistance(1, 0), 0);
}

#[test]
fn movement_cost_follows_the_formula() {
    let mut terrain = Terrain::new(6, 1);
    terrain.set_terrain(1, 0, TerrainType::Hill);
    terrain.set_elevation(1, 0, 3000);
    terrain.set_terrain(2, 0, TerrainType::WindZone);
    terrain.set_wind_resistance(2, 0, 2000);
    terrain.set_terrain(3, 0, TerrainType::Start);
    terrain.set_terrain(4, 0, TerrainType::End);
    terrain.set_elevation(5, 0, 2000);
    terrain.set_wind_resistance(5, 0, 1000);
    assert_eq!(terrain.get_movement_cost(&Point::new(0, 0)), 1000);
    assert_eq!(terrain.get_movement_cost(&Point::new(1, 0)), 4500);
    assert_eq!(terrain.get_movement_cost(&Point::new(2, 0)), 2600);
    assert_eq!(terrain.get_movement_cost(&Point::new(3, 0)), 1000);
    assert_eq!(terrain.get_movement_cost(&Point::new(4, 0)), 1000);
    assert_eq!(terrain.get_movement_cost(&Point::new(5, 0)), 1000 + 1000 + 300);
}

#[test]
fn movement_cost_rounds_the_surcharge_down() {
    let mut terrain = Terrain::new(2, 1);
    terrain.set_elevation(0, 0, 1);
    terrain.set_wind_resistance(0, 0, 1);
    terrain.set_elevation(1, 0, 3);
    assert_eq!(terrain.get_movement_cost(&Point::new(0, 0)), 1000);
    assert_eq!(terrain.get_movement_cost(&Point::new(1, 0)), 1001);
}

#[test]
fn obstacles_and_outside_cells_cost_the_sentinel() {
    let mut terrain = Terrain::new(2, 2);
    terrain.set_terrain(1, 1, TerrainType::Obstacle);
    terrain.set_elevation(1, 1, 3000);
    assert_eq!(IMPASSABLE, 1000 * UNIT);
    assert_eq!(terrain.get_movement_cost(&Point::new(1, 1)), IMPASSABLE);
    assert_eq!(terrain.get_movement_cost(&Point::new(-1, 0)), IMPASSABLE);
    assert_eq!(terrain.get_movement_cost(&Point::new(0, -1)), IMPASSABLE);
    assert_eq!(terrain.get_movement_cost(&Point::new(2, 0)), IMPASSABLE);
    assert_eq!(terrain.get_movement_cost(&Point::new(0, 2)), IMPASSABLE);
    assert_eq!(terrain.get_movement_cost(&Point::new(i32::MAX, i32::MIN)), IMPASSABLE);
}

#[test]
fn cost_reaches_the_sentinel_only_where_nothing_can_enter() {
    let mut terrain = Terrain::new(4, 4);
    terrain.set_terrain(1, 2, TerrainType::Obstacle);
    terrain.set_terrain(3, 3, TerrainType::Hill);
    terrain.set_elevation(3, 3, 3000);
    terrain.set_terrain(0, 3, TerrainType::WindZone);
    terrain.set_wind_resistance(0, 3, 2000);
    for y in -1..5 {
        for x in -1..5 {
            let p = Point::new(x, y);
            let blocked = !terrain.is_valid_position(&p) || terrain.is_obstacle(&p);
            assert_eq!(terrain.get_movement_cost(&p) >= IMPASSABLE, blocked);
            assert_eq!(terrain.is_passable(&p), !blocked);
        }
    }
}

#[test]
fn extreme_elevation_lifts_a_passable_cell_to_the_sentinel() {
    let mut terrain = Terrain::new(1, 1);
    terrain.set_elevation(0, 0, 2_000_000);
    assert!(terrain.is_passable(&Point::new(0, 0)));
    assert_eq!(terrain.get_movement_cost(&Point::new(0, 0)), 1_001_000);
}

#[test]
fn validity_passability_and_obstacles() {
    let mut terrain = Terrain::new(3, 2);
    terrain.set_terrain(1, 1, TerrainType::Obstacle);
    assert!(terrain.is_valid_position(&Point::new(0, 0)));
    assert!(terrain.is_valid_position(&Point::new(2, 1)));
    assert!(!terrain.is_valid_position(&Point::new(3, 1)));
    assert!(!terrain.is_valid_position(&Point::new(2, 2)));
    assert!(!terrain.is_valid_position(&Point::new(-1, 0)));
    assert!(!terrain.is_valid_position(&Point::new(0, -1)));
    assert!(terrain.is_obstacle(&Point::new(1, 1)));
    assert!(terrain.is_obstacle(&Point::new(-1, 0)));
    assert!(terrain.is_obstacle(&Point::new(3, 0)));
    assert!(!terrain.is_obstacle(&Point::new(0, 0)));
    assert!(terrain.is_passable(&Point::new(0, 0)));
    assert!(!terrain.is_passable(&Point::new(1, 1)));
    assert!(!terrain.is_passable(&Point::new(5, 5)));
}

#[test]
fn neighbors_come_in_the_fixed_order() {
    let terrain = Terrain::new(3, 3);
    assert_eq!(
        terrain.get_neighbors(&Point::new(1, 1)),
        vec![
            Point::new(0, 0),
            Point::new(0, 1),
            Point::new(0, 2),
            Point::new(1, 0),
            Point::new(1, 2),
            Point::new(2, 0),
            Point::new(2, 1),
            Point::new(2, 2),
        ]
    );
}

#[test]
fn neighbors_leave_out_obstacles_and_outside_cells() {
    let mut terrain = Terrain::new(3, 3);
    terrain.set_terrain(1, 0, TerrainType::Obstacle);
    assert_eq!(terrain.get_neighbors(&Point::new(0, 0)), vec![Point::new(0, 1), Point::new(1, 1)]);
    assert_eq!(
        terrain.get_neighbors(&Point::new(2, 2)),
        vec![Point::new(1, 1), Point::new(1, 2), Point::new(2, 1)]
    );
    assert_eq!(
        terrain.get_neighbors(&Point::new(-1, 1)),
        vec![Point::new(0, 0), Point::new(0, 1), Point::new(0, 2)]
    );
    assert!(terrain.get_neighbors(&Point::new(10, 10)).is_empty());
    assert!(terrain.get_neighbors(&Point::new(i32::MAX, i32::MAX)).is_empty());
    assert!(terrain.get_neighbors(&Point::new(i32::MIN, i32::MIN)).is_empty());
}

#[test]
fn neighbors_are_passable_adjacent_and_at_most_eight() {
    let mut terrain = Terrain::new(5, 4);
    terrain.set_terrain(2, 1, TerrainType::Obstacle);
    terrain.set_terrain(3, 3, TerrainType::Obstacle);
    for y in 0..4 {
        for x in 0..5 {
            let p = Point::new(x, y);
            let neighbors = terrain.get_neighbors(&p);
            assert!(neighbors.len() <= 8);
            for q in &neighbors {
                assert!(terrain.is_passable(q));
                assert!((q.x - x).abs() <= 1 && (q.y - y).abs() <= 1 && *q != p);
            }
        }
    }
}

#[test]
fn heuristic_is_the_straight_line_rounded_down() {
    let terrain = Terrain::new(1, 1);
    assert_eq!(terrain.get_heuristic_cost(&Point::new(0, 0), &Point::new(0, 0)), 0);
    assert_eq!(terrain.get_heuristic_cost(&Point::new(0, 0), &Point::new(1, 0)), CELL_SIDE);
    assert_eq!(terrain.get_heuristic_cost(&Point::new(0, 0), &Point::new(3, 4)), 5_000_000);
    assert_eq!(terrain.get_heuristic_cost(&Point::new(3, 4), &Point::new(0, 0)), 5_000_000);
    assert_eq!(terrain.get_heuristic_cost(&Point::new(0, 0), &Point::new(1, 1)), 1_414_213);
    assert_eq!(terrain.get_heuristic_cost(&Point::new(2, 2), &Point::new(2, 9)), 7_000_000);
    assert_eq!(terrain.get_heuristic_cost(&Point::new(0, 0), &Point::new(1, 2)), 2_236_067);
    assert_eq!(
        terrain.get_heuristic_cost(&Point::new(i32::MIN, 0), &Point::new(i32::MAX, 0)),
        4_294_967_295_000_000
    );
    assert_eq!(
        terrain.get_heuristic_cost(&Point::new(i32::MIN, i32::MIN), &Point::new(i32::MAX, i32::MAX)),
        6_074_000_998_537_885
    );
}

#[test]
fn terrain_symbols() {
    let terrain = Terrain::new(1, 1);
    assert_eq!(terrain.get_terrain_char(TerrainType::Normal), '.');
    assert_eq!(terrain.get_terrain_char(TerrainType::Hill), '^');
    assert_eq!(terrain.get_terrain_char(TerrainType::Obstacle), 'O');
    assert_eq!(terrain.get_terrain_char(TerrainType::WindZone), 'W');
    assert_eq!(terrain.get_terrain_char(TerrainType::Start), 'S');
    assert_eq!(terrain.get_terrain_char(TerrainType::End), 'D');
}

#[test]
fn path_is_drawn_over_the_terrain() {
    let mut terrain = Terrain::new(4, 3);
    terrain.set_terrain(3, 0, TerrainType::Obstacle);
    terrain.set_terrain(0, 2, TerrainType::Hill);
    terrain.set_terrain(3, 2, TerrainType::WindZone);
    let path = vec![Point::new(0, 0), Point::new(1, 1), Point::new(2, 1), Point::new(2, 2)];
    assert_eq!(terrain.visualize_path(&path), vec!["S..O", ".**.", "^.DW"]);
}

#[test]
fn drawing_shows_the_last_visit_of_a_cell() {
    let terrain = Terrain::new(2, 1);
    let back = vec![Point::new(0, 0), Point::new(1, 0), Point::new(0, 0)];
    assert_eq!(terrain.visualize_path(&back), vec!["D*"]);
    let stay = vec![Point::new(0, 0), Point::new(1, 0), Point::new(0, 0), Point::new(1, 0)];
    assert_eq!(terrain.visualize_path(&stay), vec!["*D"]);
    let single = vec![Point::new(1, 0)];
    assert_eq!(terrain.visualize_path(&single), vec![".S"]);
    let outside = vec![Point::new(5, 5), Point::new(-1, 0)];
    assert_eq!(terrain.visualize_path(&outside), vec![".."]);
    assert_eq!(terrain.visualize_path(&Vec::new()), vec![".."]);
}

#[test]
fn integer_square_roots() {
    assert_eq!(isqrt(0), 0);
    assert_eq!(isqrt(1), 1);
    assert_eq!(isqrt(2), 1);
    assert_eq!(isqrt(3), 1);
    assert_eq!(isqrt(4), 2);
    assert_eq!(isqrt(99), 9);
    assert_eq!(isqrt(100), 10);
    assert_eq!(isqrt(2_000_000), 1414);
    assert_eq!(isqrt(1_000_000_000_000), 1_000_000);
    assert_eq!(isqrt(u128::MAX), u64::MAX);
    assert_eq!(isqrt_ceil(0), 0);
    assert_eq!(isqrt_ceil(1), 1);
    assert_eq!(isqrt_ceil(2), 2);
    assert_eq!(isqrt_ceil(4), 2);
    assert_eq!(isqrt_ceil(5), 3);
    assert_eq!(isqrt_ceil(2_000_000), 1415);
    assert_eq!(isqrt_ceil(u128::MAX), 1u128 << 64);
}
