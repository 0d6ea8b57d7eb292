use jugo::{BoxPuzzle, Direction, Puzzle};

fn board(tiles: &[u8], width: usize) -> BoxPuzzle<u8> {
    BoxPuzzle::from_pieces(tiles.to_vec(), width).unwrap()
}

fn solved4() -> BoxPuzzle<u8> {
    BoxPuzzle::default()
}

#[test]
fn default_is_the_solved_four_by_four() {
    let p = solved4();
    assert_eq!(p.shape(), (4, 4));
    assert_eq!(p.iter(), vec![1, 2, 3, 4, 5, 6, 7, 8, 9, 10, 11, 12, 13, 14, 15, 0]);
    assert!(p.is_solved());
    assert_eq!(p.index_of(0), Some((3, 3)));
    assert_eq!(p.index_of(7), Some((2, 1)));
    assert_eq!(p.index_of(16), None);
    assert_eq!(p.get(1, 2), 10);
    assert_eq!(p.get(3, 0), 4);
}

#[test]
fn from_pieces_checks_the_layout() {
    assert!(BoxPuzzle::from_pieces(vec![1u8, 2, 3, 0], 2).is_ok());
    assert_eq!(
        BoxPuzzle::from_pieces(vec![1u8, 2, 3, 0], 4).err(),
        Some(jugo::BoardError::InvalidBoard)
    );
    assert!(BoxPuzzle::from_pieces(vec![1u8, 2, 2, 0], 2).is_err());
    assert!(BoxPuzzle::from_pieces(vec![1u8, 2, 3, 0, 4, 5], 4).is_err());
    assert!(BoxPuzzle::from_pieces(vec![1u8, 2, 3, 0], 1).is_err());
}

#[test]
fn iter_indexed_gives_column_and_row() {
    let p = board(&[1, 2, 3, 4, 5, 0], 3);
    let cells = p.iter_indexed();
    assert_eq!(cells.len(), 6);
    assert_eq!(cells[0], ((0, 0), 1));
    assert_eq!(cells[2], ((2, 0), 3));
    assert_eq!(cells[4], ((1, 1), 5));
    assert_eq!(cells[5], ((2, 1), 0));
}

#[test]
fn slide_to_the_blank_is_a_no_op() {
    let mut p = board(&[2, 4, 8, 7, 0, 5, 3, 1, 6], 3);
    let before = p.iter();
    assert_eq!(p.slide_from((1, 1)), Some(0));
    assert_eq!(p.iter(), before);
    let mut q = solved4();
    assert_eq!(q.slide_from((3, 3)), Some(0));
    assert!(q.is_solved());
}

#[test]
fn slide_off_row_and_column_is_refused() {
    let mut p = board(&[2, 4, 8, 7, 0, 5, 3, 1, 6], 3);
    let before = p.iter();
    for from in [(0, 0), (2, 0), (0, 2), (2, 2)] {
        assert_eq!(p.slide_from(from), None);
        assert_eq!(p.iter(), before);
    }
}

#[test]
fn slide_off_the_grid_is_refused() {
    let mut p = solved4();
    assert_eq!(p.slide_from((4, 3)), None);
    assert_eq!(p.slide_from((3, 4)), None);
    assert_eq!(p.slide_from((usize::MAX, usize::MAX)), None);
    assert!(p.is_solved());
}

#[test]
fn slide_along_a_row() {
    let mut p = solved4();
    assert_eq!(p.slide_from((0, 3)), Some(3));
    assert_eq!(p.iter(), vec![1, 2, 3, 4, 5, 6, 7, 8, 9, 10, 11, 12, 0, 13, 14, 15]);
    assert_eq!(p.index_of(0), Some((0, 3)));
    assert_eq!(p.slide_from((2, 3)), Some(2));
    assert_eq!(p.iter(), vec![1, 2, 3, 4, 5, 6, 7, 8, 9, 10, 11, 12, 13, 14, 0, 15]);
}

#[test]
fn slide_along_a_column() {
    let mut p = solved4();
    assert_eq!(p.slide_from((3, 0)), Some(3));
    assert_eq!(p.iter(), vec![1, 2, 3, 0, 5, 6, 7, 4, 9, 10, 11, 8, 13, 14, 15, 12]);
    assert_eq!(p.slide_from((3, 2)), Some(2));
    assert_eq!(p.iter(), vec![1, 2, 3, 4, 5, 6, 7, 8, 9, 10, 11, 0, 13, 14, 15, 12]);
}

#[test]
fn slide_moves_the_run_one_cell() {
    // blank at (2, 2); target (0, 2): 7 and 8 each move one cell right
    let mut p = board(&[1, 2, 3, 4, 5, 6, 7, 8, 0], 3);
    assert_eq!(p.slide_from((0, 2)), Some(2));
    assert_eq!(p.get(0, 2), 0);
    assert_eq!(p.get(1, 2), 7);
    assert_eq!(p.get(2, 2), 8);
    // a neighbour moves into the blank's old place
    let mut q = board(&[1, 2, 3, 4, 5, 6, 7, 8, 0], 3);
    assert_eq!(q.slide_from((2, 1)), Some(1));
    assert_eq!(q.get(2, 2), 6);
    assert_eq!(q.get(2, 1), 0);
}

#[test]
fn slide_and_back_restores_the_board() {
    let start = [2u8, 4, 8, 7, 0, 5, 3, 1, 6];
    for from in [(0, 1), (2, 1), (1, 0), (1, 2)] {
        let mut p = board(&start, 3);
        assert_eq!(p.slide_from(from), Some(1));
        assert_eq!(p.slide_from((1, 1)), Some(1));
        assert_eq!(p.iter(), start.to_vec());
    }
    let mut p = solved4();
    assert_eq!(p.slide_from((0, 3)), Some(3));
    assert_eq!(p.slide_from((3, 3)), Some(3));
    assert!(p.is_solved());
}

#[test]
fn slide_towards_follows_the_direction() {
    let mut p = solved4();
    assert_eq!(p.slide_from((0, 3)), Some(3));
    assert_eq!(p.slide_towards(Direction::Left, 2), Some(2));
    assert_eq!(p.iter(), vec![1, 2, 3, 4, 5, 6, 7, 8, 9, 10, 11, 12, 13, 14, 0, 15]);
    assert_eq!(p.slide_towards(Direction::Down, 2), Some(2));
    assert_eq!(p.iter(), vec![1, 2, 3, 4, 5, 6, 0, 8, 9, 10, 7, 12, 13, 14, 11, 15]);
    assert_eq!(p.slide_towards(Direction::Up, 1), Some(1));
    assert_eq!(p.index_of(0), Some((2, 2)));
    assert_eq!(p.slide_towards(Direction::Right, 1), Some(1));
    assert_eq!(p.index_of(0), Some((1, 2)));
}

#[test]
fn slide_towards_stops_at_the_edge() {
    let mut p = solved4();
    assert_eq!(p.slide_towards(Direction::Up, 100), Some(0));
    assert!(p.is_solved());
    assert_eq!(p.slide_towards(Direction::Down, 100), Some(3));
    assert_eq!(p.index_of(0), Some((3, 0)));
    assert_eq!(p.slide_towards(Direction::Right, usize::MAX), Some(3));
    assert_eq!(p.index_of(0), Some((0, 0)));
    assert_eq!(p.slide_towards(Direction::Left, usize::MAX), Some(3));
    assert_eq!(p.index_of(0), Some((3, 0)));
}

#[test]
fn slide_towards_by_zero_changes_nothing() {
    let mut p = board(&[2, 4, 8, 7, 0, 5, 3, 1, 6], 3);
    let before = p.iter();
    for d in [Direction::Up, Direction::Down, Direction::Left, Direction::Right] {
        assert_eq!(p.slide_towards(d, 0), Some(0));
        assert_eq!(p.iter(), before);
    }
}

#[test]
fn direction_vectors() {
    assert_eq!(<(isize, isize)>::from(Direction::Up), (0, -1));
    assert_eq!(<(isize, isize)>::from(Direction::Down), (0, 1));
    assert_eq!(<(isize, isize)>::from(Direction::Left), (-1, 0));
    assert_eq!(<(isize, isize)>::from(Direction::Right), (1, 0));
}
