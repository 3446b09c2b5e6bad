use raycaster::maze::{Maze, BOUNDARY, EMPTY, MAX_SIDE};
use raycaster::player::Point;

#[test]
fn maze_answers_by_column_and_row() {
    let maze = Maze::new(vec![vec!['a', 'b', ' '], vec!['d', ' ', 'f']]).unwrap();
    assert_eq!(maze.width(), 3);
    assert_eq!(maze.height(), 2);
    assert_eq!(maze.symbol(0, 0), 'a');
    assert_eq!(maze.symbol(1, 0), 'b');
    assert_eq!(maze.symbol(2, 0), EMPTY);
    assert_eq!(maze.symbol(0, 1), 'd');
    assert_eq!(maze.symbol(2, 1), 'f');
}

#[test]
fn outside_of_the_maze_is_boundary() {
    let maze = Maze::new(vec![vec![' ', ' '], vec![' ', ' ']]).unwrap();
    assert_eq!(maze.symbol(-1, 0), BOUNDARY);
    assert_eq!(maze.symbol(0, -1), BOUNDARY);
    assert_eq!(maze.symbol(2, 0), BOUNDARY);
    assert_eq!(maze.symbol(0, 2), BOUNDARY);
    assert_eq!(maze.symbol(i64::MAX, i64::MIN), BOUNDARY);
    assert_eq!(maze.symbol(MAX_SIDE as i64, 0), BOUNDARY);
    assert_eq!(BOUNDARY, '#');
}

#[test]
fn ragged_rows_are_refused() {
    assert!(Maze::new(vec![vec!['a', 'b'], vec!['c']]).is_none());
    assert!(Maze::new(vec![vec![], vec!['c']]).is_none());
    assert!(Maze::new(vec![vec!['a'], vec!['b'], vec!['c', 'd']]).is_none());
}

#[test]
fn empty_mazes_are_accepted() {
    let none = Maze::new(Vec::new()).unwrap();
    assert_eq!((none.width(), none.height()), (0, 0));
    assert_eq!(none.symbol(0, 0), BOUNDARY);
    let thin = Maze::new(vec![vec![], vec![]]).unwrap();
    assert_eq!((thin.width(), thin.height()), (0, 2));
    assert_eq!(thin.symbol(0, 1), BOUNDARY);
}

#[test]
fn walls_and_the_outside_block() {
    let maze = Maze::new(vec![vec!['+', ' '], vec![' ', '-']]).unwrap();
    assert!(maze.is_wall(0, 0));
    assert!(!maze.is_wall(1, 0));
    assert!(!maze.is_wall(0, 1));
    assert!(maze.is_wall(1, 1));
    assert!(maze.is_wall(2, 0));
    assert!(maze.is_wall(-1, 0));
    // cells of 80 world units
    assert!(maze.blocks(Point { x: 79, y: 79 }, 80));
    assert!(!maze.blocks(Point { x: 80, y: 79 }, 80));
    assert!(!maze.blocks(Point { x: 0, y: 159 }, 80));
    assert!(maze.blocks(Point { x: 159, y: 80 }, 80));
    assert!(maze.blocks(Point { x: 160, y: 0 }, 80));
    assert!(maze.blocks(Point { x: u32::MAX, y: u32::MAX }, 1));
}
