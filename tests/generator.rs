use jugo::{arrange_layout, is_solvable, BoardError, BoxPuzzle, Direction, Puzzle};
use rand::rngs::StdRng;
use rand::{Rng, SeedableRng};

#[test]
fn generated_boards_are_solvable() {
    let shapes = [(2, 2), (3, 3), (4, 4), (2, 5), (5, 3), (4, 6), (7, 2)];
    for seed in 0..10_000u64 {
        let (w, h) = shapes[(seed as usize) % shapes.len()];
        let mut rng = StdRng::seed_from_u64(seed);
        let p = BoxPuzzle::<u8>::random_with_rng(&mut rng, (w, h)).unwrap();
        assert_eq!(p.shape(), (w, h));
        assert_eq!(is_solvable(&p.iter(), w), Ok(true), "seed {seed}, shape {w}x{h}");
    }
}

#[test]
fn same_seed_gives_same_board() {
    for seed in [0u64, 7, 123123, 12312364] {
        let mut a = StdRng::seed_from_u64(seed);
        let mut b = StdRng::seed_from_u64(seed);
        let pa = BoxPuzzle::<u8>::random_with_rng(&mut a, (4, 4)).unwrap();
        let pb = BoxPuzzle::<u8>::random_with_rng(&mut b, (4, 4)).unwrap();
        assert_eq!(pa.iter(), pb.iter());
    }
}

#[test]
fn generated_boards_vary() {
    let mut orders = std::collections::HashSet::new();
    let mut blanks = std::collections::HashSet::new();
    for seed in 0..50u64 {
        let mut rng = StdRng::seed_from_u64(seed);
        let p = BoxPuzzle::<u8>::random_with_rng(&mut rng, (3, 3)).unwrap();
        blanks.insert(p.index_of(0));
        orders.insert(p.iter());
    }
    assert!(orders.len() > 10);
    assert!(blanks.len() > 3);
}

#[test]
fn random_without_a_seed() {
    let p = BoxPuzzle::<u16>::random((5, 4)).unwrap();
    assert_eq!(p.shape(), (5, 4));
    assert_eq!(is_solvable(&p.iter(), 5), Ok(true));
}

#[test]
fn generator_reports_bad_shapes() {
    let mut rng = StdRng::seed_from_u64(1);
    assert_eq!(
        BoxPuzzle::<u8>::random_with_rng(&mut rng, (1, 4)).err(),
        Some(BoardError::InvalidBoard)
    );
    assert_eq!(
        BoxPuzzle::<u8>::random_with_rng(&mut rng, (4, 0)).err(),
        Some(BoardError::InvalidBoard)
    );
    assert_eq!(
        BoxPuzzle::<u8>::random_with_rng(&mut rng, (17, 16)).err(),
        Some(BoardError::UnrepresentableSize)
    );
    assert_eq!(
        BoxPuzzle::<u64>::random_with_rng(&mut rng, (usize::MAX, 2)).err(),
        Some(BoardError::UnrepresentableSize)
    );
    assert!(BoxPuzzle::<u8>::random_with_rng(&mut rng, (16, 16)).is_ok());
}

#[test]
fn arrange_places_the_blank() {
    // blank drawn at the corner: nothing moves
    assert_eq!(arrange_layout(vec![1, 2, 3, 4, 5, 6, 7, 8], 3, 3, 8), vec![1, 2, 3, 4, 5, 6, 7, 8, 0]);
    // an odd number of steps from the corner: exchange with the last cell
    assert_eq!(arrange_layout(vec![1, 2, 3, 4, 5, 6, 7, 8], 3, 3, 5), vec![1, 2, 3, 4, 5, 0, 7, 8, 6]);
    // an even number: rotate with the last two cells
    assert_eq!(arrange_layout(vec![1, 2, 3, 4, 5, 6, 7, 8], 3, 3, 0), vec![0, 2, 3, 4, 5, 6, 7, 1, 8]);
    // an unsolvable order has its first two tiles exchanged
    assert_eq!(arrange_layout(vec![2, 1, 3, 4, 5, 6, 7, 8], 3, 3, 8), vec![1, 2, 3, 4, 5, 6, 7, 8, 0]);
    for t in 0..9 {
        let layout = arrange_layout(vec![2, 1, 3, 4, 5, 6, 7, 8], 3, 3, t);
        assert_eq!(layout[t], 0);
        assert_eq!(is_solvable(&layout, 3), Ok(true));
    }
}

#[test]
fn random_slides_keep_boards_solvable() {
    let mut rng = StdRng::seed_from_u64(42);
    for (w, h) in [(3, 3), (4, 4), (2, 6), (5, 3)] {
        let mut p = BoxPuzzle::<u16>::random_with_rng(&mut rng, (w, h)).unwrap();
        for _ in 0..500 {
            let (ex, ey) = p.index_of(0).unwrap();
            if rng.gen_bool(0.5) {
                let x = rng.gen_range(0..w);
                p.slide_from((x, ey));
            } else {
                let y = rng.gen_range(0..h);
                p.slide_from((ex, y));
            }
            let d = match rng.gen_range(0..4) {
                0 => Direction::Up,
                1 => Direction::Down,
                2 => Direction::Left,
                _ => Direction::Right,
            };
            p.slide_towards(d, rng.gen_range(0..3));
            assert_eq!(is_solvable(&p.iter(), w), Ok(true));
        }
    }
}
