use jugo::{BoardError, Direction, Puzzle, StackPuzzle};

fn layout<P: Puzzle<u8>>(p: &P) -> Vec<u8> {
    let (w, h) = p.shape();
    let mut out = Vec::new();
    for y in 0..h {
        for x in 0..w {
            out.push(p.get(x, y));
        }
    }
    out
}

#[test]
fn stack_puzzle_walkthrough() {
    let mut p: StackPuzzle<4, 4, u8> = StackPuzzle::default();
    assert_eq!(p.shape(), (4, 4));
    assert_eq!(p.slide_from((0, 3)), Some(3));
    assert_eq!(p.slide_towards(Direction::Left, 2), Some(2));
    assert_eq!(p.slide_towards(Direction::Down, 2), Some(2));
    assert_eq!(p.slide_from((3, 1)), Some(1));
    assert_eq!(p.slide_from((3, 3)), Some(2));
    assert_eq!(layout(&p), vec![1, 2, 3, 4, 5, 6, 8, 12, 9, 10, 7, 15, 13, 14, 11, 0]);
    assert_eq!(p.index_of(0), Some((3, 3)));
}

#[test]
fn stack_puzzle_checks_its_size() {
    let p = StackPuzzle::<3, 2, u8>::from_pieces(vec![1, 2, 3, 4, 5, 0]).unwrap();
    assert_eq!(p.shape(), (3, 2));
    assert_eq!(p.get(1, 1), 5);
    assert_eq!(
        StackPuzzle::<3, 2, u8>::from_pieces(vec![1, 2, 3, 0]).err(),
        Some(BoardError::InvalidBoard)
    );
    assert!(StackPuzzle::<2, 3, u8>::from_pieces(vec![1, 2, 3, 4, 4, 0]).is_err());
    assert!(StackPuzzle::<1, 4, u8>::from_pieces(vec![1, 2, 3, 0]).is_err());
    assert!(StackPuzzle::<0, 4, u8>::from_pieces(vec![]).is_err());
}

#[test]
fn stack_puzzle_refuses_unaligned_slides() {
    let mut p: StackPuzzle<4, 4, u8> = StackPuzzle::default();
    assert_eq!(p.slide_from((0, 0)), None);
    assert_eq!(p.slide_from((3, 3)), Some(0));
    assert_eq!(p.slide_towards(Direction::Up, 0), Some(0));
    assert_eq!(layout(&p), (1..16).chain(std::iter::once(0)).collect::<Vec<u8>>());
}
