use uav_optimizer::map_parser::MapParser;
use uav_optimizer::optimizer::Optimizer;
use uav_optimizer::search::{PathNode, Strategy};
use uav_optimizer::terrain::{Point, Terrain, TerrainType};

fn walled_goal() -> Terrain {
    let mut terrain = Terrain::new(5, 5);
    for (x, y) in [(1, 1), (2, 1), (3, 1), (1, 2), (3, 2), (1, 3), (2, 3), (3, 3)] {
        terrain.set_terrain(x, y, TerrainType::Obstacle);
    }
    terrain
}

fn is_chain_of_steps(terrain: &Terrain, path: &Vec<Point>) -> bool {
    path.windows(2).all(|pair| {
        (pair[1].x - pair[0].x).abs() <= 1
            && (pair[1].y - pair[0].y).abs() <= 1
            && pair[0] != pair[1]
            && terrain.is_passable(&pair[1])
    })
}

fn edge_cost(optimizer: &Optimizer, terrain: &Terrain, path: &Vec<Point>) -> u128 {
    path.windows(2)
        .map(|pair| {
            terrain.get_movement_cost(&pair[1]) as u128
                * optimizer.calculate_distance(&pair[0], &pair[1]) as u128
        })
        .sum()
}

#[test]
fn astar_crosses_open_three_by_three_diagonally() {
    let terrain = Terrain::new(3, 3);
    let optimizer = Optimizer::new(&terrain);
    let path = optimizer.find_path_astar(&Point::new(0, 0), &Point::new(2, 2));
    assert_eq!(path, vec![Point::new(0, 0), Point::new(1, 1), Point::new(2, 2)]);
    assert_eq!(optimizer.calculate_path_cost(&path), 3000);
    assert_eq!(optimizer.find_path(&Point::new(0, 0), &Point::new(2, 2)), path);
}

#[test]
fn astar_routes_around_single_obstacle() {
    let mut terrain = Terrain::new(3, 3);
    terrain.set_terrain(1, 1, TerrainType::Obstacle);
    let optimizer = Optimizer::new(&terrain);
    let path = optimizer.find_path_astar(&Point::new(0, 0), &Point::new(2, 2));
    assert_eq!(path.len(), 4);
    assert_eq!(path[0], Point::new(0, 0));
    assert_eq!(path[3], Point::new(2, 2));
    assert!(!path.contains(&Point::new(1, 1)));
    assert!(optimizer.is_path_valid(&path));
    assert!(is_chain_of_steps(&terrain, &path));
    assert_eq!(edge_cost(&optimizer, &terrain, &path), 2 * 1_000_000_000 + 1_414_214_000);
}

#[test]
fn open_ground_paths_have_chebyshev_length() {
    let terrain = Terrain::new(7, 5);
    let optimizer = Optimizer::new(&terrain);
    for (sx, sy, gx, gy) in [(0, 0, 6, 4), (6, 0, 0, 4), (3, 2, 3, 2), (0, 4, 6, 4), (5, 0, 5, 4), (1, 3, 4, 1), (6, 4, 0, 0)] {
        let start = Point::new(sx, sy);
        let goal = Point::new(gx, gy);
        let cells = ((gx - sx).abs().max((gy - sy).abs()) + 1) as usize;
        let astar = optimizer.find_path_astar(&start, &goal);
        let dijkstra = optimizer.find_path_dijkstra(&start, &goal);
        assert_eq!(astar.len(), cells);
        assert_eq!(dijkstra.len(), cells);
        assert!(is_chain_of_steps(&terrain, &astar));
        assert!(is_chain_of_steps(&terrain, &dijkstra));
        assert_eq!(astar[0], start);
        assert_eq!(astar[cells - 1], goal);
        assert_eq!(dijkstra[0], start);
        assert_eq!(dijkstra[cells - 1], goal);
    }
}

#[test]
fn searches_stay_on_passable_cells_of_the_built_in_maps() {
    let parser = MapParser::new();
    for terrain in [parser.create_sample_map(), parser.create_complex_map()] {
        let optimizer = Optimizer::new(&terrain);
        let start = Point::new(0, 0);
        let goal = Point::new(terrain.get_width() as i32 - 1, terrain.get_height() as i32 - 1);
        for path in [
            optimizer.find_path_astar(&start, &goal),
            optimizer.find_path_dijkstra(&start, &goal),
            optimizer.find_energy_optimal_path(&start, &goal, 2500),
            optimizer.find_energy_optimal_path(&start, &goal, 300),
        ] {
            assert!(!path.is_empty());
            assert_eq!(path[0], start);
            assert_eq!(path[path.len() - 1], goal);
            assert!(optimizer.is_path_valid(&path));
            assert!(is_chain_of_steps(&terrain, &path));
            for (i, p) in path.iter().enumerate() {
                assert!(!path[..i].contains(p));
            }
        }
    }
}

#[test]
fn astar_and_dijkstra_find_routes_of_equal_cost() {
    let parser = MapParser::new();
    for terrain in [parser.create_sample_map(), parser.create_complex_map()] {
        let optimizer = Optimizer::new(&terrain);
        let w = terrain.get_width() as i32;
        let h = terrain.get_height() as i32;
        for (start, goal) in [
            (Point::new(0, 0), Point::new(w - 1, h - 1)),
            (Point::new(w - 1, 0), Point::new(0, h - 1)),
            (Point::new(0, h / 2), Point::new(w - 1, h / 2)),
            (Point::new(w / 2 - 1, 0), Point::new(w / 2 - 1, h - 1)),
        ] {
            let astar = optimizer.find_path_astar(&start, &goal);
            let dijkstra = optimizer.find_path_dijkstra(&start, &goal);
            assert!(!astar.is_empty());
            assert_eq!(
                edge_cost(&optimizer, &terrain, &astar),
                edge_cost(&optimizer, &terrain, &dijkstra)
            );
        }
    }
}

#[test]
fn astar_goes_around_a_hill_when_that_is_cheaper() {
    let mut terrain = Terrain::new(3, 3);
    terrain.set_terrain(1, 1, TerrainType::Hill);
    terrain.set_elevation(1, 1, 3000);
    let optimizer = Optimizer::new(&terrain);
    let path = optimizer.find_path_astar(&Point::new(0, 1), &Point::new(2, 1));
    assert_eq!(path, vec![Point::new(0, 1), Point::new(1, 0), Point::new(2, 1)]);
    assert_eq!(edge_cost(&optimizer, &terrain, &path), 2_828_428_000);
    let dijkstra = optimizer.find_path_dijkstra(&Point::new(0, 1), &Point::new(2, 1));
    assert_eq!(dijkstra, path);
}

#[test]
fn astar_crosses_a_hill_when_the_way_around_costs_more() {
    let mut terrain = Terrain::new(3, 1);
    terrain.set_terrain(1, 0, TerrainType::Hill);
    terrain.set_elevation(1, 0, 3000);
    let optimizer = Optimizer::new(&terrain);
    let path = optimizer.find_path_astar(&Point::new(0, 0), &Point::new(2, 0));
    assert_eq!(path, vec![Point::new(0, 0), Point::new(1, 0), Point::new(2, 0)]);
    assert_eq!(optimizer.calculate_path_cost(&path), 1000 + 4500 + 1000);
    assert_eq!(edge_cost(&optimizer, &terrain, &path), 4_500_000_000 + 1_000_000_000);
}

#[test]
fn cells_at_the_sentinel_are_not_entered() {
    let mut terrain = Terrain::new(3, 1);
    terrain.set_elevation(1, 0, 2_000_000);
    let optimizer = Optimizer::new(&terrain);
    assert!(terrain.is_passable(&Point::new(1, 0)));
    for path in [
        optimizer.find_path_astar(&Point::new(0, 0), &Point::new(2, 0)),
        optimizer.find_path_dijkstra(&Point::new(0, 0), &Point::new(2, 0)),
        optimizer.find_energy_optimal_path(&Point::new(0, 0), &Point::new(2, 0), 1),
    ] {
        assert!(path.is_empty());
    }
    assert_eq!(
        optimizer.find_path_greedy(&Point::new(0, 0), &Point::new(2, 0)),
        vec![Point::new(0, 0), Point::new(1, 0), Point::new(2, 0)]
    );
}

#[test]
fn start_equal_to_goal_gives_that_cell() {
    let mut terrain = Terrain::new(3, 3);
    terrain.set_terrain(2, 2, TerrainType::Obstacle);
    let optimizer = Optimizer::new(&terrain);
    for p in [Point::new(1, 1), Point::new(0, 0), Point::new(2, 2), Point::new(-4, 9)] {
        assert_eq!(optimizer.find_path(&p, &p), vec![p]);
        assert_eq!(optimizer.find_path_astar(&p, &p), vec![p]);
        assert_eq!(optimizer.find_path_dijkstra(&p, &p), vec![p]);
        assert_eq!(optimizer.find_path_greedy(&p, &p), vec![p]);
        assert_eq!(optimizer.find_energy_optimal_path(&p, &p, 1000), vec![p]);
        assert_eq!(optimizer.find_energy_optimal_path(&p, &p, 0), vec![p]);
        assert_eq!(optimizer.search(Strategy::Dijkstra, &p, &p), vec![p]);
    }
}

#[test]
fn enclosed_goal_gives_the_empty_path() {
    let terrain = walled_goal();
    let optimizer = Optimizer::new(&terrain);
    let start = Point::new(0, 0);
    let goal = Point::new(2, 2);
    assert!(terrain.is_passable(&goal));
    assert!(optimizer.find_path_astar(&start, &goal).is_empty());
    assert!(optimizer.find_path_dijkstra(&start, &goal).is_empty());
    assert!(optimizer.find_energy_optimal_path(&start, &goal, 1000).is_empty());
    assert!(optimizer.find_energy_optimal_path(&start, &goal, 4000).is_empty());
    let greedy = optimizer.find_path_greedy(&start, &goal);
    assert!(!greedy.is_empty());
    assert!(greedy.len() <= 5 * 5 + 1);
    assert_eq!(greedy[0], start);
    assert!(is_chain_of_steps(&terrain, &greedy));
    assert!(!greedy.contains(&goal));
}

#[test]
fn goal_outside_the_grid_or_on_an_obstacle_is_not_reached() {
    let mut terrain = Terrain::new(3, 3);
    terrain.set_terrain(2, 2, TerrainType::Obstacle);
    let optimizer = Optimizer::new(&terrain);
    let start = Point::new(0, 0);
    for goal in [Point::new(2, 2), Point::new(3, 3), Point::new(-1, 0)] {
        assert!(optimizer.find_path_astar(&start, &goal).is_empty());
        assert!(optimizer.find_path_dijkstra(&start, &goal).is_empty());
        assert!(optimizer.find_energy_optimal_path(&start, &goal, 1000).is_empty());
    }
}

#[test]
fn search_from_outside_the_grid_steps_in() {
    let terrain = Terrain::new(2, 2);
    let optimizer = Optimizer::new(&terrain);
    let path = optimizer.find_path_astar(&Point::new(-1, 0), &Point::new(1, 1));
    assert_eq!(path, vec![Point::new(-1, 0), Point::new(0, 0), Point::new(1, 1)]);
    assert!(!optimizer.is_path_valid(&path));
    assert!(optimizer.find_path_astar(&Point::new(-5, 0), &Point::new(1, 1)).is_empty());
}

#[test]
fn empty_grid_has_no_routes() {
    let terrain = Terrain::new(0, 0);
    let optimizer = Optimizer::new(&terrain);
    let start = Point::new(0, 0);
    let goal = Point::new(1, 1);
    assert!(optimizer.find_path_astar(&start, &goal).is_empty());
    assert!(optimizer.find_path_dijkstra(&start, &goal).is_empty());
    assert_eq!(optimizer.find_path_greedy(&start, &goal), vec![start]);
}

#[test]
fn unit_energy_weight_gives_the_astar_path() {
    let parser = MapParser::new();
    for terrain in [parser.create_sample_map(), parser.create_complex_map(), walled_goal()] {
        let optimizer = Optimizer::new(&terrain);
        let w = terrain.get_width() as i32;
        let h = terrain.get_height() as i32;
        for (start, goal) in [
            (Point::new(0, 0), Point::new(w - 1, h - 1)),
            (Point::new(0, h - 1), Point::new(w - 1, 0)),
            (Point::new(0, 0), Point::new(2, 2)),
            (Point::new(w / 2, 0), Point::new(w / 2, h - 1)),
        ] {
            assert_eq!(
                optimizer.find_energy_optimal_path(&start, &goal, 1000),
                optimizer.find_path_astar(&start, &goal)
            );
        }
    }
}

#[test]
fn energy_weight_scales_what_a_cell_costs() {
    let mut terrain = Terrain::new(3, 3);
    terrain.set_terrain(1, 1, TerrainType::Hill);
    terrain.set_elevation(1, 1, 3000);
    let optimizer = Optimizer::new(&terrain);
    let start = Point::new(0, 1);
    let goal = Point::new(2, 1);
    let around = vec![Point::new(0, 1), Point::new(1, 0), Point::new(2, 1)];
    let across = vec![Point::new(0, 1), Point::new(1, 1), Point::new(2, 1)];
    assert_eq!(optimizer.find_energy_optimal_path(&start, &goal, 3000), around);
    assert_eq!(optimizer.find_energy_optimal_path(&start, &goal, 1000), around);
    assert_eq!(optimizer.find_energy_optimal_path(&start, &goal, 1), across);
    let free = optimizer.find_energy_optimal_path(&start, &goal, 0);
    assert_eq!(free.len(), 3);
    assert_eq!(free[0], start);
    assert_eq!(free[2], goal);
    assert!(is_chain_of_steps(&terrain, &free));
}

#[test]
fn greedy_follows_the_nearest_neighbour() {
    let terrain = Terrain::new(5, 5);
    let optimizer = Optimizer::new(&terrain);
    assert_eq!(
        optimizer.find_path_greedy(&Point::new(0, 0), &Point::new(4, 2)),
        vec![
            Point::new(0, 0),
            Point::new(1, 1),
            Point::new(2, 2),
            Point::new(3, 2),
            Point::new(4, 2),
        ]
    );
}

#[test]
fn greedy_ignores_what_cells_cost() {
    let mut terrain = Terrain::new(3, 3);
    terrain.set_terrain(1, 1, TerrainType::Hill);
    terrain.set_elevation(1, 1, 3000);
    let optimizer = Optimizer::new(&terrain);
    assert_eq!(
        optimizer.find_path_greedy(&Point::new(0, 1), &Point::new(2, 1)),
        vec![Point::new(0, 1), Point::new(1, 1), Point::new(2, 1)]
    );
}

#[test]
fn greedy_stops_at_a_dead_end() {
    let mut terrain = Terrain::new(3, 1);
    terrain.set_terrain(1, 0, TerrainType::Obstacle);
    let optimizer = Optimizer::new(&terrain);
    assert_eq!(
        optimizer.find_path_greedy(&Point::new(0, 0), &Point::new(2, 0)),
        vec![Point::new(0, 0)]
    );
}

#[test]
fn greedy_gives_up_when_longer_than_the_grid() {
    let terrain = Terrain::new(2, 1);
    let optimizer = Optimizer::new(&terrain);
    assert_eq!(
        optimizer.find_path_greedy(&Point::new(0, 0), &Point::new(5, 5)),
        vec![Point::new(0, 0), Point::new(1, 0), Point::new(0, 0)]
    );
}

#[test]
fn greedy_takes_the_first_of_equally_near_neighbours() {
    let terrain = Terrain::new(3, 3);
    let optimizer = Optimizer::new(&terrain);
    let mut terrain = Terrain::new(3, 3);
    terrain.set_terrain(1, 0, TerrainType::Obstacle);
    let optimizer = Optimizer::new(&terrain);
    let path = optimizer.find_path_greedy(&Point::new(1, 1), &Point::new(1, -3));
    assert_eq!(path[1], Point::new(0, 0));
}

#[test]
fn greedy_tells_near_neighbours_apart_at_any_distance() {
    let terrain = Terrain::new(3, 3);
    let optimizer = Optimizer::new(&terrain);
    let path = optimizer.find_path_greedy(&Point::new(1, 1), &Point::new(1, 5));
    assert_eq!(path[1], Point::new(1, 2));
    let far = optimizer.find_path_greedy(&Point::new(1, 1), &Point::new(1, 1_000_000));
    assert_eq!(far[1], Point::new(1, 2));
    let farthest = optimizer.find_path_greedy(&Point::new(1, 1), &Point::new(i32::MAX, i32::MIN));
    assert_eq!(farthest[1], Point::new(2, 0));
}

#[test]
fn path_cost_sums_the_cells() {
    let mut terrain = Terrain::new(3, 2);
    terrain.set_terrain(1, 0, TerrainType::Hill);
    terrain.set_elevation(1, 0, 3000);
    terrain.set_terrain(2, 0, TerrainType::Obstacle);
    let optimizer = Optimizer::new(&terrain);
    assert_eq!(optimizer.calculate_path_cost(&Vec::new()), 0);
    assert_eq!(optimizer.calculate_path_cost(&vec![Point::new(0, 0)]), 1000);
    assert_eq!(
        optimizer.calculate_path_cost(&vec![Point::new(0, 0), Point::new(1, 0), Point::new(1, 1)]),
        1000 + 4500 + 1000
    );
    assert_eq!(
        optimizer.calculate_path_cost(&vec![Point::new(2, 0), Point::new(9, 9), Point::new(0, 1)]),
        1_000_000 + 1_000_000 + 1000
    );
}

#[test]
fn path_validity() {
    let mut terrain = Terrain::new(3, 2);
    terrain.set_terrain(2, 0, TerrainType::Obstacle);
    let optimizer = Optimizer::new(&terrain);
    assert!(optimizer.is_path_valid(&Vec::new()));
    assert!(optimizer.is_path_valid(&vec![Point::new(0, 0), Point::new(2, 1)]));
    assert!(!optimizer.is_path_valid(&vec![Point::new(0, 0), Point::new(2, 0)]));
    assert!(!optimizer.is_path_valid(&vec![Point::new(0, 0), Point::new(3, 0)]));
    assert!(!optimizer.is_path_valid(&vec![Point::new(-1, 0)]));
}

#[test]
fn distances_round_up() {
    let terrain = Terrain::new(1, 1);
    let optimizer = Optimizer::new(&terrain);
    assert_eq!(optimizer.calculate_distance(&Point::new(0, 0), &Point::new(0, 0)), 0);
    assert_eq!(optimizer.calculate_distance(&Point::new(0, 0), &Point::new(1, 0)), 1_000_000);
    assert_eq!(optimizer.calculate_distance(&Point::new(0, 0), &Point::new(0, -1)), 1_000_000);
    assert_eq!(optimizer.calculate_distance(&Point::new(0, 0), &Point::new(1, 1)), 1_414_214);
    assert_eq!(optimizer.calculate_distance(&Point::new(4, 4), &Point::new(3, 5)), 1_414_214);
    assert_eq!(optimizer.calculate_distance(&Point::new(0, 0), &Point::new(3, 4)), 5_000_000);
    assert_eq!(optimizer.calculate_distance(&Point::new(0, 0), &Point::new(1, 2)), 2_236_068);
    assert_eq!(
        optimizer.calculate_distance(&Point::new(i32::MIN, i32::MIN), &Point::new(i32::MAX, i32::MAX)),
        6_074_000_998_537_886
    );
}

#[test]
fn statistics_of_a_path() {
    let terrain = Terrain::new(3, 3);
    let optimizer = Optimizer::new(&terrain);
    assert!(optimizer.path_statistics(&Vec::new()).is_none());
    let path = vec![Point::new(0, 0), Point::new(1, 1), Point::new(2, 1), Point::new(2, 2)];
    let statistics = optimizer.path_statistics(&path).unwrap();
    assert_eq!(statistics.steps, 4);
    assert_eq!(statistics.total_distance, 1_414_214 + 1_000_000 + 1_000_000);
    assert_eq!(statistics.total_cost, 4000);
    assert_eq!(statistics.average_cost, 1000);
    assert!(statistics.valid);
    let outside = vec![Point::new(0, 0), Point::new(5, 0)];
    let statistics = optimizer.path_statistics(&outside).unwrap();
    assert_eq!(statistics.steps, 2);
    assert_eq!(statistics.total_distance, 5_000_000);
    assert_eq!(statistics.total_cost, 1_001_000);
    assert_eq!(statistics.average_cost, 500_500);
    assert!(!statistics.valid);
}

#[test]
fn open_list_entries() {
    let a = PathNode::new(Point::new(1, 2), 3000, 500, Some(Point::new(0, 0)));
    assert_eq!(a.position, Point::new(1, 2));
    assert_eq!(a.g_cost, 3000);
    assert_eq!(a.h_cost, 500);
    assert_eq!(a.f_cost, 3500);
    assert_eq!(a.parent, Some(Point::new(0, 0)));
    let b = PathNode::new(Point::new(5, 5), 3100, 400, None);
    let c = PathNode::new(Point::new(6, 6), 3600, 0, None);
    assert!(b.comes_before(&a));
    assert!(!a.comes_before(&b));
    assert!(a.comes_before(&c));
    assert!(!a.comes_before(&a));
    let top = PathNode::new(Point::new(0, 0), u64::MAX as u128, u64::MAX, None);
    assert_eq!(top.f_cost, 2 * (u64::MAX as u128));
}

#[test]
fn searches_cross_a_large_grid_with_a_wall() {
    let mut terrain = Terrain::new(120, 90);
    for y in 0..80 {
        terrain.set_terrain(60, y, TerrainType::Obstacle);
    }
    let optimizer = Optimizer::new(&terrain);
    let start = Point::new(0, 0);
    let goal = Point::new(119, 0);
    let astar = optimizer.find_path_astar(&start, &goal);
    let dijkstra = optimizer.find_path_dijkstra(&start, &goal);
    assert!(is_chain_of_steps(&terrain, &astar));
    assert!(is_chain_of_steps(&terrain, &dijkstra));
    assert_eq!(astar[0], start);
    assert_eq!(astar[astar.len() - 1], goal);
    assert!(astar.contains(&Point::new(60, 80)));
    assert_eq!(
        edge_cost(&optimizer, &terrain, &astar),
        edge_cost(&optimizer, &terrain, &dijkstra)
    );
    assert_eq!(astar.len(), dijkstra.len());
}

#[test]
fn costly_corridor_is_crossed_whatever_the_sum() {
    let mut terrain = Terrain::new(12, 1);
    for x in 0..12 {
        terrain.set_elevation(x, 0, 1_997_998);
    }
    let optimizer = Optimizer::new(&terrain);
    let start = Point::new(0, 0);
    let goal = Point::new(11, 0);
    assert_eq!(terrain.get_movement_cost(&Point::new(5, 0)), 999_999);
    let expected: Vec<Point> = (0..12).map(|x| Point::new(x, 0)).collect();
    assert_eq!(optimizer.find_energy_optimal_path(&start, &goal, u32::MAX), expected);
    assert_eq!(optimizer.find_energy_optimal_path(&start, &goal, 1000), expected);
    assert_eq!(optimizer.find_path_astar(&start, &goal), expected);
    assert_eq!(optimizer.find_path_dijkstra(&start, &goal), expected);
    let step = 999_999u128 * (u32::MAX as u128) / 1000 * 1_000_000;
    assert!(11 * step > u64::MAX as u128);
}

#[test]
fn reachable_goal_always_gets_a_route() {
    let mut terrain = Terrain::new(6, 6);
    for y in 0..5 {
        terrain.set_terrain(2, y, TerrainType::Obstacle);
    }
    for y in 1..6 {
        terrain.set_terrain(4, y, TerrainType::Obstacle);
    }
    let optimizer = Optimizer::new(&terrain);
    let start = Point::new(0, 0);
    let goal = Point::new(5, 5);
    for weight in [0, 1, 999, 1000, 1001, 70_000, u32::MAX] {
        let path = optimizer.find_energy_optimal_path(&start, &goal, weight);
        assert!(!path.is_empty());
        assert_eq!(path[0], start);
        assert_eq!(path[path.len() - 1], goal);
        assert!(is_chain_of_steps(&terrain, &path));
    }
    assert!(!optimizer.find_path_astar(&start, &goal).is_empty());
    assert!(!optimizer.find_path_dijkstra(&start, &goal).is_empty());
}
