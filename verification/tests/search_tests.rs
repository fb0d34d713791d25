use maze_search::coord::Coord;
use maze_search::maze::{Maze, MazeError};
use maze_search::search::{a_star, dfs, manhattan, reconstruct_route};
use rustc_hash::FxHashMap;

fn coord(x: usize, y: usize) -> Coord {
    Coord { x, y }
}

/// Every consecutive pair of a route must differ by exactly one unit in
/// exactly one axis, and every cell must be in bounds and passable.
fn assert_route_valid(maze: &Maze, route: &[Coord]) {
    for c in route {
        assert!(maze.is_inbounds(*c));
        assert_ne!(maze.get(*c), None);
        assert_eq!(*maze.get(*c).unwrap(), maze_search::maze::Tile::Path);
    }
    for pair in route.windows(2) {
        let dx = pair[0].x.abs_diff(pair[1].x);
        let dy = pair[0].y.abs_diff(pair[1].y);
        assert_eq!(dx + dy, 1, "steps must be single cardinal moves");
    }
}

#[test]
fn spec_scenario_five_by_three() {
    let maze = Maze::read("-####\n-----\n####-\n").unwrap();
    let exits = maze.get_exits();
    let start = coord(0, 0);
    let end = coord(4, 2);
    assert!(exits.contains(&start));
    assert!(exits.contains(&end));

    let expected = vec![
        coord(0, 0),
        coord(0, 1),
        coord(1, 1),
        coord(2, 1),
        coord(3, 1),
        coord(4, 1),
        coord(4, 2),
    ];

    let (dfs_route, dfs_explored) = dfs(&maze, start, end).unwrap();
    let (astar_route, astar_explored) = a_star(&maze, start, end).unwrap();

    assert_eq!(dfs_route.len(), 7);
    assert_eq!(astar_route.len(), 7);
    assert_eq!(dfs_route, expected);
    assert_eq!(astar_route, expected);
    assert_route_valid(&maze, &dfs_route);
    assert_route_valid(&maze, &astar_route);
    assert_eq!(dfs_explored, 7);
    assert_eq!(astar_explored, 7);
    assert!(astar_explored <= dfs_explored);
}

#[test]
fn astar_route_no_longer_than_dfs_route() {
    // The unguided search takes whatever branch the stack order favours;
    // the heuristic search must not return a longer route.
    let maze = Maze::read("-#####\n------\n-####-\n------\n#####-\n").unwrap();
    let start = coord(0, 0);
    let end = coord(5, 4);
    let (dfs_route, _) = dfs(&maze, start, end).unwrap();
    let (astar_route, _) = a_star(&maze, start, end).unwrap();
    assert_route_valid(&maze, &dfs_route);
    assert_route_valid(&maze, &astar_route);
    assert!(astar_route.len() <= dfs_route.len());
    assert_eq!(astar_route.len(), 10);
}

#[test]
fn start_equals_end_gives_single_cell_route() {
    let maze = Maze::read("-####\n-----\n####-\n").unwrap();
    let start = coord(0, 0);
    let (dfs_route, dfs_explored) = dfs(&maze, start, start).unwrap();
    let (astar_route, astar_explored) = a_star(&maze, start, start).unwrap();
    assert_eq!(dfs_route, vec![start]);
    assert_eq!(astar_route, vec![start]);
    assert_eq!(dfs_explored, 1);
    assert_eq!(astar_explored, 1);
}

#[test]
fn disconnected_openings_are_unreachable() {
    let maze = Maze::read("-#\n#-\n").unwrap();
    let (start, end) = maze.endpoints().unwrap();
    assert_eq!(start, coord(0, 0));
    assert_eq!(end, coord(1, 1));
    assert_eq!(dfs(&maze, start, end), Err(MazeError::Unreachable));
    assert_eq!(a_star(&maze, start, end), Err(MazeError::Unreachable));
}

#[test]
fn walled_off_interior_is_unreachable() {
    let maze = Maze::read("--#--\n--#--\n--#--\n").unwrap();
    let start = coord(0, 0);
    let end = coord(4, 0);
    assert_eq!(dfs(&maze, start, end), Err(MazeError::Unreachable));
    assert_eq!(a_star(&maze, start, end), Err(MazeError::Unreachable));
}

#[test]
fn searches_agree_on_reachability_of_every_opening_pair() {
    let maze = Maze::read("-#-#\n-#-#\n----\n").unwrap();
    let exits = maze.get_exits();
    assert!(exits.len() >= 2);
    for a in &exits {
        for b in &exits {
            let d = dfs(&maze, *a, *b);
            let h = a_star(&maze, *a, *b);
            assert_eq!(d.is_ok(), h.is_ok());
            if let (Ok((dr, de)), Ok((ar, ae))) = (d, h) {
                assert_route_valid(&maze, &dr);
                assert_route_valid(&maze, &ar);
                assert_eq!(dr.first(), Some(a));
                assert_eq!(dr.last(), Some(b));
                assert_eq!(ar.first(), Some(a));
                assert_eq!(ar.last(), Some(b));
                assert!(ar.len() <= dr.len());
                assert!(de >= 1);
                assert!(ae >= 1);
            }
        }
    }
}

#[test]
fn manhattan_distance_is_coordinate_difference() {
    let maze = Maze::read("----\n----\n----\n").unwrap();
    assert_eq!(manhattan(&maze, coord(0, 0), coord(3, 2)), 5);
    assert_eq!(manhattan(&maze, coord(3, 2), coord(0, 0)), 5);
    assert_eq!(manhattan(&maze, coord(1, 1), coord(1, 1)), 0);
    assert_eq!(manhattan(&maze, coord(2, 0), coord(0, 2)), 4);
}

#[test]
fn reconstruct_walks_predecessors_back_to_root() {
    // 4 <- 3 <- 1 <- 0, with 0 as the root.
    let mut from: FxHashMap<usize, Option<usize>> = FxHashMap::default();
    from.insert(0, None);
    from.insert(1, Some(0));
    from.insert(3, Some(1));
    from.insert(4, Some(3));
    let route = reconstruct_route(4, &from).unwrap();
    assert_eq!(route, vec![0, 1, 3, 4]);
}

#[test]
fn reconstruct_reports_missing_goal_as_unreachable() {
    let mut from: FxHashMap<usize, Option<usize>> = FxHashMap::default();
    from.insert(0, None);
    assert_eq!(reconstruct_route(7, &from), Err(MazeError::Unreachable));
}
