use l10nregistry::solver::{backtrack_index, ProblemSolver, SolverStep};

#[test]
fn fresh_solver_probes_top_candidates() {
    let s = ProblemSolver::new(2, 2);
    assert_eq!(s.next_step(), SolverStep::Probe(vec![(0, 0), (1, 0)]));
}

#[test]
fn solver_falls_back_and_finds() {
    let mut s = ProblemSolver::new(2, 2);
    s.record(0, 0, true);
    s.record(1, 0, false);
    assert_eq!(s.next_step(), SolverStep::Probe(vec![(1, 1)]));
    s.record(1, 1, true);
    assert_eq!(s.next_step(), SolverStep::Found(vec![0, 1]));
}

#[test]
fn solver_reports_first_missing() {
    let mut s = ProblemSolver::new(3, 1);
    s.record(1, 0, false);
    s.record(2, 0, false);
    assert_eq!(s.next_step(), SolverStep::Missing(1));
}

#[test]
fn recorded_cell_keeps_first_value() {
    let mut s = ProblemSolver::new(1, 1);
    s.record(0, 0, true);
    s.record(0, 0, false);
    assert_eq!(s.next_step(), SolverStep::Found(vec![0]));
    s.exclude(0, 0);
    assert_eq!(s.next_step(), SolverStep::Missing(0));
}

#[test]
fn no_resources_found_at_once() {
    let s = ProblemSolver::new(0, 3);
    assert_eq!(s.next_step(), SolverStep::Found(vec![]));
}

#[test]
fn no_candidates_is_missing() {
    let s = ProblemSolver::new(2, 0);
    assert_eq!(s.next_step(), SolverStep::Missing(0));
}

#[test]
fn backtrack_picks_lowest_priority_last() {
    assert_eq!(backtrack_index(&vec![0, 2, 1, 2]), 3);
    assert_eq!(backtrack_index(&vec![0, 0]), 1);
    assert_eq!(backtrack_index(&vec![3, 1]), 0);
}
