use npuzzle::batch::{run_batch, MemFlag};
use npuzzle::puzzle::Puzzle;
use npuzzle::solver::SolverArena;
use rayon::iter::{IntoParallelIterator, ParallelIterator};

fn sample_batch() -> Vec<Puzzle<9>> {
    vec![
        Puzzle::from_u8_slice(&[0, 1, 2, 3, 4, 5, 6, 7, 8]),
        Puzzle::from_u8_slice(&[1, 2, 3, 4, 0, 6, 7, 5, 8]),
        Puzzle::from_u8_slice(&[1, 2, 3, 4, 5, 0, 7, 8, 6]),
        Puzzle::from_u8_slice(&[3, 1, 2, 6, 4, 5, 0, 7, 8]),
    ]
}

#[test]
fn batch_results_follow_input_order() {
    let puzzles = sample_batch();
    let results = run_batch(&puzzles, MemFlag::Arena);
    assert_eq!(results.len(), puzzles.len());
    for (i, (path, count)) in results.iter().enumerate() {
        let (expected_path, expected_count) = SolverArena::find_path(puzzles[i].clone());
        assert_eq!(*path, expected_path);
        assert_eq!(*count, expected_count);
    }
}

#[test]
fn batch_strategies_agree() {
    let puzzles = sample_batch();
    let arena = run_batch(&puzzles, MemFlag::Arena);
    let rc = run_batch(&puzzles, MemFlag::Rc);
    assert_eq!(arena.len(), rc.len());
    for i in 0..arena.len() {
        assert_eq!(arena[i].0, rc[i].0);
        assert_eq!(arena[i].1, rc[i].1);
    }
}

#[test]
fn sequential_and_parallel_runs_agree() {
    // The parallel dispatch below stands in for the batch runner's parallel
    // mode: one independent search task per puzzle, results collected by
    // original index.  Paths and node counts must match the sequential run
    // exactly; only wall-clock time may differ.
    let puzzles = sample_batch();
    let sequential = run_batch(&puzzles, MemFlag::Arena);
    let parallel: Vec<(Vec<Puzzle<9>>, u64)> = puzzles
        .into_par_iter()
        .map(|p| SolverArena::find_path(p))
        .collect();
    assert_eq!(sequential.len(), parallel.len());
    for i in 0..sequential.len() {
        assert_eq!(sequential[i].0, parallel[i].0);
        assert_eq!(sequential[i].1, parallel[i].1);
    }
}
