use jugo::{is_solvable, BoardError};

#[test]
fn is_solvable_works() {
    assert_eq!(is_solvable(&[1, 2, 3, 4, 5, 6, 7, 8, 0], 3), Ok(true));
    assert_eq!(is_solvable(&[2, 4, 8, 7, 6, 5, 3, 0, 1], 3), Ok(true));
    assert_eq!(is_solvable(&[2, 1, 3, 4, 8, 5, 0, 6, 7], 3), Ok(true));
    assert_eq!(is_solvable(&[1, 2, 3, 4, 5, 0, 7, 6, 8], 3), Ok(false));
    assert_eq!(is_solvable(&[2, 4, 8, 7, 0, 5, 3, 1, 6], 3), Ok(false));
    assert_eq!(is_solvable(&[2, 1, 3, 0, 8, 5, 4, 7, 6], 3), Ok(false));
}

#[test]
fn seed_examples_of_is_solvable() {
    assert_eq!(is_solvable(&[1u8, 2, 3, 4, 5, 6, 7, 8, 0], 3), Ok(true));
    assert_eq!(is_solvable(&[1u8, 2, 3, 4, 5, 0, 7, 6, 8], 3), Ok(false));
}

#[test]
fn is_solvable_on_other_piece_types_and_shapes() {
    assert_eq!(is_solvable(&[1u16, 2, 3, 0], 2), Ok(true));
    assert_eq!(is_solvable(&[2u32, 1, 3, 0], 2), Ok(false));
    assert_eq!(is_solvable(&[1u64, 2, 3, 4, 5, 0], 3), Ok(true));
    assert_eq!(is_solvable(&[1usize, 2, 3, 4, 5, 0], 2), Ok(true));
    assert_eq!(is_solvable(&[1i64, 2, 0, 3], 2), Ok(true));
    // 4 cells in one row: the blank is one step from the corner
    assert_eq!(is_solvable(&[1, 2, 0, 3], 4), Ok(true));
    let solved: Vec<u8> = (1..16).chain(std::iter::once(0)).collect();
    assert_eq!(is_solvable(&solved, 4), Ok(true));
}

#[test]
fn is_solvable_leaves_input_alone() {
    let tiles = vec![2, 1, 3, 4, 8, 5, 0, 6, 7];
    let copy = tiles.clone();
    assert_eq!(is_solvable(&tiles, 3), Ok(true));
    assert_eq!(tiles, copy);
}

#[test]
fn is_solvable_rejects_bad_input() {
    assert_eq!(is_solvable(&[1, 2, 3, 0], 1), Err(BoardError::InvalidBoard));
    assert_eq!(is_solvable(&[1, 0], 2), Err(BoardError::InvalidBoard));
    assert_eq!(is_solvable(&[1, 2, 3, 4, 0], 2), Err(BoardError::InvalidBoard));
    assert_eq!(is_solvable(&[1, 1, 3, 0], 2), Err(BoardError::InvalidBoard));
    assert_eq!(is_solvable(&[1, 2, 4, 0], 2), Err(BoardError::InvalidBoard));
    assert_eq!(is_solvable(&[1, -2, 3, 0], 2), Err(BoardError::InvalidBoard));
    assert_eq!(is_solvable(&[1, 2, 3, 5, 4, 6], 3), Err(BoardError::InvalidBoard));
    let empty: [u8; 0] = [];
    assert_eq!(is_solvable(&empty, 2), Err(BoardError::InvalidBoard));
}
