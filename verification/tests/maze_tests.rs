use maze_search::coord::Coord;
use maze_search::maze::{Maze, MazeError, Tile};

fn coord(x: usize, y: usize) -> Coord {
    Coord { x, y }
}

#[test]
fn parse_simple_grid() {
    let maze = Maze::read("-####\n-----\n####-\n").unwrap();
    assert_eq!(maze.width, 5);
    assert_eq!(maze.height, 3);
    assert_eq!(maze.data.len(), 15);
    assert_eq!(maze.data[0], Tile::Path);
    assert_eq!(maze.data[1], Tile::Wall);
    assert_eq!(maze.data[5], Tile::Path);
    assert_eq!(maze.data[14], Tile::Path);
}

#[test]
fn parse_strips_spaces_and_carriage_returns() {
    let maze = Maze::read("- # -\r\n# - #\r\n").unwrap();
    assert_eq!(maze.width, 3);
    assert_eq!(maze.height, 2);
    assert_eq!(maze.data[0], Tile::Path);
    assert_eq!(maze.data[1], Tile::Wall);
    assert_eq!(maze.data[4], Tile::Path);
}

#[test]
fn parse_ignores_blank_edge_lines() {
    let maze = Maze::read("\n\n--\n##\n\n").unwrap();
    assert_eq!(maze.width, 2);
    assert_eq!(maze.height, 2);
}

#[test]
fn parse_rejects_empty_input() {
    assert_eq!(Maze::read(""), Err(MazeError::MalformedInput));
    assert_eq!(Maze::read("   \n  \n"), Err(MazeError::MalformedInput));
}

#[test]
fn parse_rejects_unknown_character() {
    assert_eq!(Maze::read("--\n-x\n"), Err(MazeError::MalformedInput));
}

#[test]
fn parse_rejects_ragged_rows() {
    assert_eq!(Maze::read("---\n--\n"), Err(MazeError::MalformedInput));
    assert_eq!(Maze::read("--\n\n--\n"), Err(MazeError::MalformedInput));
}

#[test]
fn text_round_trips_tile_pattern() {
    let source = "-####\n-----\n####-\n";
    let maze = Maze::read(source).unwrap();
    let rendered = maze.to_text();
    assert_eq!(rendered, source);
    let again = Maze::read(&rendered).unwrap();
    assert_eq!(again.width, maze.width);
    assert_eq!(again.height, maze.height);
    assert_eq!(again.data, maze.data);
}

#[test]
fn text_round_trips_after_whitespace_normalisation() {
    let maze = Maze::read("  - # \n  # - \n").unwrap();
    let rendered = maze.to_text();
    assert_eq!(rendered, "-#\n#-\n");
    let again = Maze::read(&rendered).unwrap();
    assert_eq!(again.data, maze.data);
}

#[test]
fn get_is_bounds_checked() {
    let maze = Maze::read("-#\n--\n").unwrap();
    assert_eq!(maze.get(coord(0, 0)), Some(&Tile::Path));
    assert_eq!(maze.get(coord(1, 0)), Some(&Tile::Wall));
    assert_eq!(maze.get(coord(2, 0)), None);
    assert_eq!(maze.get(coord(0, 2)), None);
}

#[test]
fn is_edge_marks_outer_ring() {
    let maze = Maze::read("---\n---\n---\n").unwrap();
    assert!(maze.is_edge(coord(0, 1)));
    assert!(maze.is_edge(coord(2, 1)));
    assert!(maze.is_edge(coord(1, 0)));
    assert!(maze.is_edge(coord(1, 2)));
    assert!(!maze.is_edge(coord(1, 1)));
}

#[test]
fn exits_scan_row_major() {
    let maze = Maze::read("-####\n-----\n####-\n").unwrap();
    let exits = maze.get_exits();
    assert_eq!(exits, vec![coord(0, 0), coord(0, 1), coord(4, 1), coord(4, 2)]);
}

#[test]
fn exits_are_stable_across_calls() {
    let maze = Maze::read("-####\n-----\n####-\n").unwrap();
    let first = maze.get_exits();
    let second = maze.get_exits();
    assert_eq!(first, second);
}

#[test]
fn endpoints_take_first_two_openings() {
    let maze = Maze::read("-####\n-----\n####-\n").unwrap();
    let (start, end) = maze.endpoints().unwrap();
    assert_eq!(start, coord(0, 0));
    assert_eq!(end, coord(0, 1));
}

#[test]
fn endpoints_reject_single_opening() {
    let maze = Maze::read("##-##\n#####\n#####\n").unwrap();
    assert_eq!(maze.get_exits().len(), 1);
    assert_eq!(maze.endpoints(), Err(MazeError::InsufficientOpenings));
}

#[test]
fn endpoints_reject_sealed_maze() {
    let maze = Maze::read("###\n###\n").unwrap();
    assert_eq!(maze.endpoints(), Err(MazeError::InsufficientOpenings));
}

#[test]
fn neighbours_fixed_order_west_north_south_east() {
    let maze = Maze::read("---\n---\n---\n").unwrap();
    let nbrs = maze.neighbours(coord(1, 1));
    assert_eq!(nbrs, vec![coord(0, 1), coord(1, 0), coord(1, 2), coord(2, 1)]);
}

#[test]
fn neighbours_skip_walls_and_grid_border() {
    let maze = Maze::read("-#\n--\n").unwrap();
    assert_eq!(maze.neighbours(coord(0, 0)), vec![coord(0, 1)]);
    assert_eq!(maze.neighbours(coord(1, 1)), vec![coord(0, 1)]);
    assert_eq!(maze.neighbours(coord(0, 1)), vec![coord(0, 0), coord(1, 1)]);
}

#[test]
fn index_decode_inverts_encode() {
    let maze = Maze::read("----\n----\n----\n").unwrap();
    for y in 0..3 {
        for x in 0..4 {
            let i = maze.idx(coord(x, y));
            assert_eq!(maze.coord_of(i), coord(x, y));
        }
    }
    assert_eq!(maze.idx(coord(3, 2)), 11);
}
