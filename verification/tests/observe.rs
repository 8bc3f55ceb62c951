use cronos_ctc::observe::{next_action, LoopAction};

#[test]
fn converged_solution_is_reported_at_once() {
    assert_eq!(next_action(false, 0, 2), (LoopAction::Report, 0));
    assert_eq!(next_action(false, 5, 2), (LoopAction::Report, 5));
}

#[test]
fn paradox_retries_then_reports_after_cleanup() {
    let (a, n) = next_action(true, 0, 2);
    assert_eq!((a, n), (LoopAction::CleanupAndRetry, 1));
    let (a, n) = next_action(true, n, 2);
    assert_eq!((a, n), (LoopAction::CleanupAndReport, 2));
}

#[test]
fn paradox_without_budget_is_reported_uncleaned() {
    assert_eq!(next_action(true, 0, 0), (LoopAction::Report, 1));
    assert_eq!(next_action(true, 3, 2), (LoopAction::Report, 4));
}

#[test]
fn paradox_loop_dispatches_at_most_max_times() {
    let max = 4;
    let mut attempts = 0;
    let mut dispatches = 0;
    loop {
        dispatches += 1;
        let (a, n) = next_action(true, attempts, max);
        attempts = n;
        if a != LoopAction::CleanupAndRetry {
            break;
        }
    }
    assert_eq!(dispatches, 4);
    assert_eq!(attempts, 4);
}
