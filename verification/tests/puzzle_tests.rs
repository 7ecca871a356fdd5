use npuzzle::puzzle::{int_sqrt, Action, Puzzle};

#[test]
fn int_sqrt_exact_squares() {
    assert_eq!(int_sqrt(0), 0);
    assert_eq!(int_sqrt(1), 1);
    assert_eq!(int_sqrt(4), 2);
    assert_eq!(int_sqrt(9), 3);
    assert_eq!(int_sqrt(16), 4);
}

#[test]
fn int_sqrt_rounds_down() {
    assert_eq!(int_sqrt(2), 1);
    assert_eq!(int_sqrt(3), 1);
    assert_eq!(int_sqrt(8), 2);
    assert_eq!(int_sqrt(15), 3);
    assert_eq!(int_sqrt(17), 4);
    assert_eq!(int_sqrt(2146483646), 46330);
    assert_eq!(int_sqrt(-5), -5);
}

#[test]
fn goal_is_identity_permutation() {
    let g: Puzzle<9> = Puzzle::goal();
    for i in 0..9 {
        assert_eq!(g.tile(i), i as u8);
    }
    assert_eq!(g.action, Action::Start);

    let g16: Puzzle<16> = Puzzle::goal();
    for i in 0..16 {
        assert_eq!(g16.tile(i), i as u8);
    }
}

#[test]
fn from_u8_slice_pads_and_truncates() {
    let p: Puzzle<9> = Puzzle::from_u8_slice(&[3, 1, 2]);
    assert_eq!(p.tiles, vec![3, 1, 2, 0, 0, 0, 0, 0, 0]);
    assert_eq!(p.action, Action::Start);

    let q: Puzzle<4> = Puzzle::from_u8_slice(&[3, 1, 2, 0, 9, 9]);
    assert_eq!(q.tiles, vec![3, 1, 2, 0]);
}

#[test]
fn heuristic_of_goal_is_zero() {
    let g: Puzzle<9> = Puzzle::goal();
    assert_eq!(g.heuristic(), 0);
}

#[test]
fn heuristic_exact_value() {
    // Manhattan distances per tile: 1+1+3+1+0+3+1+2+0 = 12.
    let p: Puzzle<9> = Puzzle::from_tiles(vec![1, 2, 3, 4, 0, 6, 7, 5, 8]);
    assert_eq!(p.heuristic(), 12);
}

#[test]
fn find_zero_reports_row_and_col() {
    let p: Puzzle<9> = Puzzle::from_tiles(vec![1, 2, 3, 4, 0, 5, 6, 7, 8]);
    let z = p.find_zero();
    assert_eq!((z.row, z.col), (1, 1));

    let g: Puzzle<9> = Puzzle::goal();
    let z0 = g.find_zero();
    assert_eq!((z0.row, z0.col), (0, 0));
}

#[test]
fn neighbors_center_blank_in_fixed_order() {
    // Blank slides are enumerated right, left, down, up; each successor's
    // tag names the displaced tile's move, the opposite direction.
    let p: Puzzle<9> = Puzzle::from_tiles(vec![1, 2, 3, 4, 0, 5, 6, 7, 8]);
    let ns = p.on_neighbors();
    assert_eq!(ns.len(), 4);
    assert_eq!(ns[0].action, Action::Left);
    assert_eq!(ns[0].tiles, vec![1, 2, 3, 4, 5, 0, 6, 7, 8]);
    assert_eq!(ns[1].action, Action::Right);
    assert_eq!(ns[1].tiles, vec![1, 2, 3, 0, 4, 5, 6, 7, 8]);
    assert_eq!(ns[2].action, Action::Up);
    assert_eq!(ns[2].tiles, vec![1, 2, 3, 4, 7, 5, 6, 0, 8]);
    assert_eq!(ns[3].action, Action::Down);
    assert_eq!(ns[3].tiles, vec![1, 0, 3, 4, 2, 5, 6, 7, 8]);
}

#[test]
fn neighbors_corner_blank_only_in_bounds() {
    let g: Puzzle<9> = Puzzle::goal();
    let ns = g.on_neighbors();
    assert_eq!(ns.len(), 2);
    assert_eq!(ns[0].action, Action::Left);
    assert_eq!(ns[0].tiles, vec![1, 0, 2, 3, 4, 5, 6, 7, 8]);
    assert_eq!(ns[1].action, Action::Up);
    assert_eq!(ns[1].tiles, vec![3, 1, 2, 0, 4, 5, 6, 7, 8]);
}

#[test]
fn hash_packs_four_bits_per_tile() {
    let g: Puzzle<9> = Puzzle::goal();
    assert_eq!(g.hash_u64(), 0x8_7654_3210);

    let p: Puzzle<4> = Puzzle::from_tiles(vec![3, 1, 2, 0]);
    assert_eq!(p.hash_u64(), 0x0213);
}

#[test]
fn hash_separates_distinct_boards() {
    let a: Puzzle<9> = Puzzle::from_tiles(vec![1, 2, 3, 4, 0, 6, 7, 5, 8]);
    let b: Puzzle<9> = Puzzle::from_tiles(vec![1, 2, 3, 4, 0, 6, 7, 8, 5]);
    assert_ne!(a.hash_u64(), b.hash_u64());
}

#[test]
fn equality_ignores_move_tag() {
    let g: Puzzle<9> = Puzzle::goal();
    let ns = g.on_neighbors();
    let back = ns[0].on_neighbors();
    // Sliding the blank right then left restores the goal configuration,
    // though the restored board carries the returning tile's Right tag
    // rather than Start.
    assert_eq!(back[1].tiles, g.tiles);
    assert_eq!(back[1], g);
    assert_eq!(back[1].action, Action::Right);
    assert_ne!(back[1].action, g.action);
}

#[test]
fn wellformed_accepts_permutations_with_blank() {
    let g: Puzzle<9> = Puzzle::goal();
    assert!(g.is_wellformed());
    let p: Puzzle<9> = Puzzle::from_tiles(vec![1, 2, 3, 4, 0, 6, 7, 5, 8]);
    assert!(p.is_wellformed());
}

#[test]
fn wellformed_rejects_blankless_board() {
    // A full arrangement with no blank tile must be detected up front:
    // the solvers demand a well-formed board, and this check is the
    // fail-fast guard a caller runs instead of searching forever.
    let p: Puzzle<9> = Puzzle::from_tiles(vec![1, 2, 3, 4, 5, 6, 7, 8, 9]);
    assert!(!p.is_wellformed());
}

#[test]
fn wellformed_rejects_duplicates_and_range() {
    let dup: Puzzle<9> = Puzzle::from_tiles(vec![0, 1, 1, 3, 4, 5, 6, 7, 8]);
    assert!(!dup.is_wellformed());
    let big: Puzzle<9> = Puzzle::from_tiles(vec![0, 1, 2, 3, 4, 5, 6, 7, 9]);
    assert!(!big.is_wellformed());
    let short: Puzzle<9> = Puzzle::from_u8_slice(&[0, 1]);
    // Padding zeros duplicate the blank, so the padded board is malformed.
    assert!(!short.is_wellformed());
}
