use l10nregistry::solver::ProblemSolver;
use l10nregistry::solver::SyncTester;
use l10nregistry::solver::VecTester;
use l10nregistry::solver::parallel::ParallelProblemSolver;
use l10nregistry::solver::parallel::ProbeStep;

fn drain_sync(width: usize, depth: usize, grid: Vec<Vec<bool>>) -> (Vec<Vec<usize>>, ProblemSolver) {
    let tester = VecTester::new(grid);
    let mut solver = ProblemSolver::new(width, depth);
    let mut yields: Vec<Vec<usize>> = Vec::new();
    while let Some(solution) = solver.next(&tester) {
        yields.push(solution);
        assert!(yields.len() <= 64, "solver did not terminate in a small scenario");
    }
    (yields, solver)
}

/// Drives the asynchronous core, answering each probe from the truth grid,
/// and returns the yielded assignments, the issued probes, and the driver.
fn drain_async(
    width: usize,
    depth: usize,
    truth: &[Vec<bool>],
) -> (Vec<Vec<usize>>, Vec<Vec<(usize, usize)>>, ParallelProblemSolver) {
    let mut driver = ParallelProblemSolver::new(width, depth);
    let mut yields: Vec<Vec<usize>> = Vec::new();
    let mut probes: Vec<Vec<(usize, usize)>> = Vec::new();
    let mut pending: Option<Vec<(usize, usize)>> = None;
    let mut steps = 0;
    loop {
        let out = match pending.take() {
            Some(query) => {
                let answers: Vec<bool> = query.iter().map(|&(r, s)| truth[r][s]).collect();
                driver.resume(&answers)
            }
            None => driver.step(),
        };
        match out {
            ProbeStep::Yield(solution) => yields.push(solution),
            ProbeStep::Probe(query) => {
                probes.push(query.clone());
                pending = Some(query);
            }
            ProbeStep::Done => break,
        }
        steps += 1;
        assert!(steps <= 256, "driver did not terminate in a small scenario");
    }
    (yields, probes, driver)
}

#[test]
fn problem_solver() {
    let keys = vec!["key1.ftl", "key2.ftl"];
    let sources = vec!["source1", "source2"];
    let grid = vec![vec![true; sources.len()]; keys.len()];
    let (yields, _) = drain_sync(sources.len(), keys.len(), grid);
    assert_eq!(yields, vec![vec![1, 1], vec![1, 0], vec![0, 1], vec![0, 0]]);
}

#[test]
fn two_sources_one_resource_both_present() {
    let grid = vec![vec![true, true]];
    let (yields, _) = drain_sync(2, 1, grid);
    assert_eq!(yields, vec![vec![1], vec![0]]);
}

#[test]
fn overlapping_coverage() {
    // A (index 0) has r0 only; B (index 1) has both.
    let grid = vec![vec![true, true], vec![false, true]];
    let (yields, _) = drain_sync(2, 2, grid);
    assert_eq!(yields, vec![vec![1, 1], vec![0, 1]]);
}

#[test]
fn backtrack_on_probe() {
    // A (index 0) has r0 only; B (index 1) has r1 only.
    let truth = vec![vec![true, false], vec![false, true]];
    let (yields, probes, driver) = drain_async(2, 2, &truth);
    assert_eq!(yields, vec![vec![0, 1]]);
    // The first speculative candidate [1, 1] probes both of its cells.
    assert_eq!(probes[0], vec![(0, 1), (1, 1)]);
    // Both answers of the first probe were committed: the false as absent,
    // the true as present, so the second probe asks only about (0, 0).
    assert_eq!(probes[1], vec![(0, 0)]);
    assert_eq!(driver.solver.cache[0][1], Some(false));
    assert_eq!(driver.solver.cache[1][1], Some(true));
}

#[test]
fn empty_dimensions() {
    let (yields, _) = drain_sync(0, 3, vec![vec![]; 3]);
    assert_eq!(yields.len(), 0);
    let (yields, _) = drain_sync(3, 0, vec![]);
    assert_eq!(yields.len(), 0);
    let (yields, probes, _) = drain_async(0, 3, &[vec![], vec![], vec![]]);
    assert_eq!(yields.len(), 0);
    assert_eq!(probes.len(), 0);
    let (yields, probes, _) = drain_async(3, 0, &[]);
    assert_eq!(yields.len(), 0);
    assert_eq!(probes.len(), 0);
}

#[test]
fn monotone_cache_across_drivers() {
    let truth = vec![vec![true, false, true], vec![false, true, true], vec![true, true, false]];
    let (async_yields, _, driver) = drain_async(3, 3, &truth);
    let (sync_yields, solver) = drain_sync(3, 3, truth.clone());
    // The two drivers yield identical sequences on the same inputs.
    assert_eq!(async_yields, sync_yields);
    // Every cell the async run decided agrees with what the sync run
    // observed for the identical cell, wherever both decided it.
    for r in 0..3 {
        for s in 0..3 {
            if let (Some(a), Some(b)) = (driver.solver.cache[r][s], solver.cache[r][s]) {
                assert_eq!(a, b);
            }
            if let Some(a) = driver.solver.cache[r][s] {
                assert_eq!(a, truth[r][s]);
            }
        }
    }
}

#[test]
fn async_yields_match_sync_on_full_grid() {
    let truth = vec![vec![true, true], vec![true, true]];
    let (async_yields, probes, _) = drain_async(2, 2, &truth);
    let (sync_yields, _) = drain_sync(2, 2, truth.clone());
    assert_eq!(async_yields, sync_yields);
    assert_eq!(async_yields, vec![vec![1, 1], vec![1, 0], vec![0, 1], vec![0, 0]]);
    // The last candidate [0, 0] has both cells already present from the
    // earlier probes, so it was yielded without a probe of its own.
    assert_eq!(probes.len(), 3);
    assert_eq!(probes[0], vec![(0, 1), (1, 1)]);
    assert_eq!(probes[1], vec![(1, 0)]);
    assert_eq!(probes[2], vec![(0, 0)]);
}

#[test]
fn probes_name_only_unknown_cells() {
    let truth = vec![vec![true, true], vec![false, true]];
    let (_, probes, _) = drain_async(2, 2, &truth);
    let mut seen: Vec<(usize, usize)> = Vec::new();
    for probe in &probes {
        assert!(!probe.is_empty());
        for cell in probe {
            assert!(!seen.contains(cell), "a decided cell was probed again: {:?}", cell);
            seen.push(*cell);
        }
    }
}

#[test]
fn sync_solver_never_yields_absent_assignment() {
    let grid = vec![vec![false, true], vec![true, false]];
    let tester = VecTester::new(grid.clone());
    let (yields, _) = drain_sync(2, 2, grid);
    assert_eq!(yields, vec![vec![1, 0]]);
    for solution in &yields {
        for (r, &s) in solution.iter().enumerate() {
            assert!(tester.test_sync(r, s));
        }
    }
}

#[test]
fn exhausted_drivers_stay_exhausted() {
    let tester = VecTester::new(vec![vec![true, true]]);
    let mut solver = ProblemSolver::new(2, 1);
    assert_eq!(solver.next(&tester), Some(vec![1]));
    assert_eq!(solver.next(&tester), Some(vec![0]));
    assert_eq!(solver.next(&tester), None);
    // Polling past the end keeps answering that the run is over.
    assert_eq!(solver.next(&tester), None);
    let truth = vec![vec![true, true]];
    let (yields, _, mut driver) = drain_async(2, 1, &truth);
    assert_eq!(yields, vec![vec![1], vec![0]]);
    assert!(matches!(driver.step(), ProbeStep::Done));
}

#[test]
fn vec_tester_is_absent_out_of_range() {
    let tester = VecTester::new(vec![vec![true]]);
    assert!(tester.test_sync(0, 0));
    assert!(!tester.test_sync(0, 1));
    assert!(!tester.test_sync(1, 0));
}
