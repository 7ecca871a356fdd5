use std::collections::{HashMap, VecDeque};
use npuzzle::puzzle::{Action, Puzzle};
use npuzzle::solver::{SolverArena, SolverRc, SolverSlow};

/// Brute-force breadth-first search over raw tile vectors, returning the
/// optimal solution depth, or None when the goal is unreachable.
fn bfs_depth(start: &[u8]) -> Option<usize> {
    let n = start.len();
    let dim = npuzzle::puzzle::int_sqrt(n as i32) as usize;
    let goal: Vec<u8> = (0..n as u8).collect();
    let mut dist: HashMap<Vec<u8>, usize> = HashMap::new();
    let mut queue: VecDeque<Vec<u8>> = VecDeque::new();
    dist.insert(start.to_vec(), 0);
    queue.push_back(start.to_vec());
    while let Some(curr) = queue.pop_front() {
        let d = dist[&curr];
        if curr == goal {
            return Some(d);
        }
        let zi = curr.iter().position(|&t| t == 0).unwrap();
        let (zr, zc) = (zi / dim, zi % dim);
        for (dr, dc) in [(0i64, 1i64), (0, -1), (1, 0), (-1, 0)] {
            let (nr, nc) = (zr as i64 + dr, zc as i64 + dc);
            if nr < 0 || nr >= dim as i64 || nc < 0 || nc >= dim as i64 {
                continue;
            }
            let zj = (nr as usize) * dim + nc as usize;
            let mut next = curr.clone();
            next.swap(zi, zj);
            if !dist.contains_key(&next) {
                dist.insert(next.clone(), d + 1);
                queue.push_back(next);
            }
        }
    }
    None
}

/// Checks that `path` is a valid solution for `start`: it begins at the
/// start board tagged Start, ends at the goal, and every consecutive pair
/// differs by one adjacent swap of the blank, labelled with the displaced
/// tile's direction of travel.
fn assert_valid_path<const N: usize>(start: &[u8], path: &[Puzzle<N>]) {
    let dim = npuzzle::puzzle::int_sqrt(N as i32) as i64;
    assert!(!path.is_empty());
    assert_eq!(path[0].tiles, start.to_vec());
    let goal: Vec<u8> = (0..N as u8).collect();
    assert_eq!(path[path.len() - 1].tiles, goal);
    for w in path.windows(2) {
        let a = &w[0].tiles;
        let b = &w[1].tiles;
        let zi = a.iter().position(|&t| t == 0).unwrap() as i64;
        let zj = b.iter().position(|&t| t == 0).unwrap() as i64;
        // One adjacent swap involving the blank.
        let (dr, dc) = (zj / dim - zi / dim, zj % dim - zi % dim);
        // The tag names the displaced tile's move: the opposite of the
        // blank's slide.
        let expect = match (dr, dc) {
            (0, 1) => Action::Left,
            (0, -1) => Action::Right,
            (1, 0) => Action::Up,
            (-1, 0) => Action::Down,
            _ => panic!("blank did not move to an adjacent cell"),
        };
        assert_eq!(w[1].action, expect);
        for i in 0..N as i64 {
            if i == zi {
                assert_eq!(b[i as usize], a[zj as usize]);
            } else if i == zj {
                assert_eq!(b[i as usize], 0);
            } else {
                assert_eq!(b[i as usize], a[i as usize]);
            }
        }
    }
}

const EIGHT: [u8; 9] = [1, 2, 3, 4, 0, 6, 7, 5, 8];

#[test]
fn already_solved_board_yields_single_board_path() {
    let solved: Vec<u8> = (0..9).collect();
    let (pa, ca) = SolverArena::find_path::<9>(Puzzle::from_u8_slice(&solved));
    let (pr, cr) = SolverRc::find_path::<9>(Puzzle::from_u8_slice(&solved));
    let (ps, cs) = SolverSlow::find_path::<9>(Puzzle::from_u8_slice(&solved));
    for (path, count) in [(&pa, ca), (&pr, cr), (&ps, cs)] {
        assert_eq!(path.len(), 1);
        assert_eq!(count, 1);
        assert_eq!(path[0].tiles, solved);
        assert_eq!(path[0].action, Action::Start);
    }
}

#[test]
fn solved_path_is_a_valid_move_sequence() {
    let (path, _) = SolverArena::find_path::<9>(Puzzle::from_u8_slice(&EIGHT));
    assert_valid_path(&EIGHT, &path);
    let (path_rc, _) = SolverRc::find_path::<9>(Puzzle::from_u8_slice(&EIGHT));
    assert_valid_path(&EIGHT, &path_rc);
    let (path_slow, _) = SolverSlow::find_path::<9>(Puzzle::from_u8_slice(&EIGHT));
    assert_valid_path(&EIGHT, &path_slow);
}

#[test]
fn path_length_is_optimal() {
    let optimal = bfs_depth(&EIGHT).expect("instance is solvable");
    let (path, _) = SolverArena::find_path::<9>(Puzzle::from_u8_slice(&EIGHT));
    assert_eq!(path.len() - 1, optimal);
}

#[test]
fn repeated_runs_are_deterministic() {
    let (p1, c1) = SolverArena::find_path::<9>(Puzzle::from_u8_slice(&EIGHT));
    let (p2, c2) = SolverArena::find_path::<9>(Puzzle::from_u8_slice(&EIGHT));
    assert_eq!(p1, p2);
    assert_eq!(c1, c2);
    let (r1, d1) = SolverRc::find_path::<9>(Puzzle::from_u8_slice(&EIGHT));
    let (r2, d2) = SolverRc::find_path::<9>(Puzzle::from_u8_slice(&EIGHT));
    assert_eq!(r1, r2);
    assert_eq!(d1, d2);
}

#[test]
fn strategies_agree_on_path_and_node_count() {
    for tiles in [
        EIGHT.to_vec(),
        vec![1, 2, 3, 4, 5, 0, 7, 8, 6],
        vec![3, 1, 2, 6, 4, 5, 0, 7, 8],
        vec![1, 2, 3, 4, 5, 6, 0, 7, 8],
    ] {
        let (pa, ca) = SolverArena::find_path::<9>(Puzzle::from_u8_slice(&tiles));
        let (pr, cr) = SolverRc::find_path::<9>(Puzzle::from_u8_slice(&tiles));
        let (ps, cs) = SolverSlow::find_path::<9>(Puzzle::from_u8_slice(&tiles));
        let optimal = bfs_depth(&tiles).expect("instance is solvable");
        assert_eq!(pa.len() - 1, optimal);
        assert_eq!(pa, pr);
        assert_eq!(pr, ps);
        assert_eq!(ca, cr);
        assert_eq!(cr, cs);
        let actions_a: Vec<Action> = pa.iter().map(|p| p.action).collect();
        let actions_r: Vec<Action> = pr.iter().map(|p| p.action).collect();
        assert_eq!(actions_a, actions_r);
    }
}

#[test]
fn heuristic_is_consistent_and_admissible() {
    let boards: [[u8; 9]; 2] = [[1, 2, 3, 4, 0, 6, 7, 5, 8], [3, 1, 2, 6, 4, 5, 0, 7, 8]];
    for tiles in boards {
        let p: Puzzle<9> = Puzzle::from_u8_slice(&tiles);
        let h = p.heuristic();
        // Consistency: one slide changes the heuristic by at most one.
        for nb in p.on_neighbors() {
            let hn = nb.heuristic();
            assert!((h - hn).abs() <= 1);
        }
        // Admissibility: the heuristic never exceeds the optimal depth.
        let optimal = bfs_depth(&tiles).expect("instance is solvable");
        assert!((h as usize) <= optimal);
    }
}

#[test]
fn unreachable_configuration_returns_empty_path() {
    // On the 2x2 board, swapping two non-blank tiles of the goal gives a
    // configuration in the unreachable half of the state space.
    let tiles: Vec<u8> = vec![0, 2, 1, 3];
    assert!(bfs_depth(&tiles).is_none());
    let (pa, ca) = SolverArena::find_path::<4>(Puzzle::from_u8_slice(&tiles));
    let (pr, cr) = SolverRc::find_path::<4>(Puzzle::from_u8_slice(&tiles));
    let (ps, cs) = SolverSlow::find_path::<4>(Puzzle::from_u8_slice(&tiles));
    assert!(pa.is_empty());
    assert!(pr.is_empty());
    assert!(ps.is_empty());
    assert!(ca >= 1);
    assert_eq!(ca, cr);
    assert_eq!(cr, cs);
}

#[test]
fn fifteen_puzzle_solves_and_matches_bfs() {
    // Three slides away from the solved 4x4 board.
    let tiles: Vec<u8> = vec![1, 5, 2, 3, 4, 6, 0, 7, 8, 9, 10, 11, 12, 13, 14, 15];
    let optimal = bfs_depth(&tiles).expect("instance is solvable");
    let (pa, ca) = SolverArena::find_path::<16>(Puzzle::from_u8_slice(&tiles));
    let (pr, cr) = SolverRc::find_path::<16>(Puzzle::from_u8_slice(&tiles));
    assert_eq!(pa.len() - 1, optimal);
    assert_valid_path(&tiles, &pa);
    assert_eq!(pa, pr);
    assert_eq!(ca, cr);
}
