use vstd::prelude::*;

verus! {

/// What the convergence-observation loop does after one dispatch has been
/// observed, pruned and collected.
#[derive(Clone, Copy, Debug, PartialEq, Eq, Structural)]
pub enum LoopAction {
    /// Hand the report back.
    Report,
    /// Clean the manifold for reconvergence, then hand the report back.
    CleanupAndReport,
    /// Clean the manifold for reconvergence and dispatch again.
    CleanupAndRetry,
}

/// The loop's decision: a solution that is no paradox is reported; a paradox
/// counts one reconvergence attempt, cleans up while the attempt is within
/// `max_reconverge`, and dispatches again only while attempts remain.
pub open spec fn reconverge_step(paradox: bool, attempts: nat, max_reconverge: nat) -> (LoopAction, nat) {
    if !paradox {
        (LoopAction::Report, attempts)
    } else if attempts + 1 > max_reconverge {
        (LoopAction::Report, attempts + 1)
    } else if attempts + 1 < max_reconverge {
        (LoopAction::CleanupAndRetry, attempts + 1)
    } else {
        (LoopAction::CleanupAndReport, attempts + 1)
    }
}

/// Decide the loop's next step from whether the dispatched solution is a
/// paradox and how many reconvergence attempts were made so far; returns the
/// action and the new attempt count.
pub fn next_action(paradox: bool, attempts: usize, max_reconverge: usize) -> (r: (LoopAction, usize))
    requires
        paradox ==> attempts < usize::MAX,
    ensures
        (r.0, r.1 as nat) == reconverge_step(paradox, attempts as nat, max_reconverge as nat),
{
    if !paradox {
        return (LoopAction::Report, attempts);
    }
    let n = attempts + 1;
    if n > max_reconverge {
        (LoopAction::Report, n)
    } else if n < max_reconverge {
        (LoopAction::CleanupAndRetry, n)
    } else {
        (LoopAction::CleanupAndReport, n)
    }
}

/// Number of dispatches the loop makes when every dispatch yields a paradox,
/// starting from `attempts` reconvergence attempts.
pub open spec fn dispatches_under_paradox(attempts: nat, max_reconverge: nat) -> nat
    decreases max_reconverge - attempts,
{
    let (action, next) = reconverge_step(true, attempts, max_reconverge);
    if action == LoopAction::CleanupAndRetry && next > attempts {
        1 + dispatches_under_paradox(next, max_reconverge)
    } else {
        1
    }
}

/// The loop always ends: even when every dispatch yields a paradox, a fresh
/// loop dispatches at most `max(max_reconverge, 1)` times.
pub proof fn lemma_loop_terminates(attempts: nat, max_reconverge: nat)
    requires
        attempts <= max_reconverge,
    ensures
        dispatches_under_paradox(attempts, max_reconverge) <= if max_reconverge > attempts {
            (max_reconverge - attempts) as nat
        } else {
            1
        },
    decreases max_reconverge - attempts,
{
    let (action, next) = reconverge_step(true, attempts, max_reconverge);
    if action == LoopAction::CleanupAndRetry && next > attempts {
        lemma_loop_terminates(next, max_reconverge);
    }
}

} // verus!
