use quests::position::Position;

#[test]
fn new() {
    assert_eq!(Position::new(5, 10), Position { row: 5, col: 10 });
}

#[test]
fn contains() {
    let bounds = Position::new(5, 5);
    assert!(bounds.contains(&Position::new(0, 0)));
    assert!(bounds.contains(&Position::new(5, 5)));
    assert!(bounds.contains(&Position::new(3, 4)));
    assert!(!bounds.contains(&Position::new(6, 5)));
    assert!(!bounds.contains(&Position::new(5, 6)));
    assert!(!bounds.contains(&Position::new(6, 6)));
}

#[test]
fn neighbors_middle() {
    let pos = Position::new(2, 2);
    let neighbors: Vec<_> = pos.neighbors();
    let expected = vec![
        Position::new(1, 2), // Up
        Position::new(2, 3), // Right
        Position::new(3, 2), // Down
        Position::new(2, 1), // Left
    ];
    assert_eq!(neighbors, expected);
}

#[test]
fn neighbors_origin() {
    let pos = Position::new(0, 0);
    let neighbors: Vec<_> = pos.neighbors();
    let expected = vec![
        Position::new(0, 1), // Right
        Position::new(1, 0), // Down
    ];
    assert_eq!(neighbors, expected);
}

#[test]
fn neighbors_edge() {
    let pos = Position::new(0, 2);
    let neighbors: Vec<_> = pos.neighbors();
    let expected = vec![
        Position::new(0, 3), // Right
        Position::new(1, 2), // Down
        Position::new(0, 1), // Left
    ];
    assert_eq!(neighbors, expected);
}

#[test]
fn neighbor_contained_middle() {
    let pos = Position::new(1, 1);
    let max = Position::new(2, 2);
    let neighbors: Vec<_> = pos.neighbors_contained(max);
    let expected = vec![
        Position::new(0, 1), // Up
        Position::new(1, 2), // Right
        Position::new(2, 1), // Down
        Position::new(1, 0), // Left
    ];
    assert_eq!(neighbors, expected);
}

#[test]
fn neighbor_contained_corner() {
    let pos = Position::new(2, 2);
    let max = Position::new(2, 2); // Max is the position itself
    let neighbors: Vec<_> = pos.neighbors_contained(max);
    let expected = vec![
        Position::new(1, 2), // Up
        // Right (2, 3) is out of bounds
        // Down (3, 2) is out of bounds
        Position::new(2, 1), // Left
    ];
    assert_eq!(neighbors, expected);
}

#[test]
fn neighbor_contained_origin_bounded() {
    let pos = Position::new(0, 0);
    let max = Position::new(0, 0); // Max is the origin
    let neighbors: Vec<_> = pos.neighbors_contained(max);
    let expected: Vec<Position> = vec![
        // Right (0, 1) is out of bounds
        // Down (1, 0) is out of bounds
    ];
    assert_eq!(neighbors, expected);
}
