//! Iteration schedules: a fixed-point loop that stops at the first step that
//! reports convergence or after a step budget (Sinkhorn scaling, barycenter
//! support updates), and a fixed-length unrolling that keeps the whole
//! trajectory (gradient flows).
use vstd::prelude::*;

verus! {

/// `trace` is a run of `step` from `init`: each state is the result of one step
/// from the one before it, every step but possibly the last reported "not
/// converged", and the last step reported `stopped`.
pub open spec fn is_run<S, F: Fn(&S) -> (S, bool)>(
    step: F,
    init: S,
    trace: Seq<S>,
    stopped: bool,
) -> bool {
    &&& trace.len() >= 1
    &&& trace[0] == init
    &&& forall|k: int|
        #![trigger trace[k]]
        0 <= k < trace.len() - 1 ==> call_ensures(
            step,
            (&trace[k],),
            (trace[k + 1], stopped && k == trace.len() - 2),
        )
}

/// Applies `step` to the state until a step reports convergence or `max_iter`
/// steps have been taken. Returns the last state, the number of steps taken and
/// whether the loop stopped on convergence.
pub fn iterate_until<S, F>(init: S, max_iter: usize, step: F) -> (res: (S, usize, bool)) where
    F: Fn(&S) -> (S, bool),

    requires
        forall|s: S| call_requires(step, (&s,)),
    ensures
        res.1 <= max_iter,
        res.2 ==> res.1 >= 1,
        !res.2 ==> res.1 == max_iter,
        exists|trace: Seq<S>|
            #![trigger is_run(step, init, trace, res.2)]
            is_run(step, init, trace, res.2) && trace.len() == res.1 + 1 && trace.last() == res.0,
{
    let mut state = init;
    let mut iterations: usize = 0;
    let mut converged = false;
    let ghost mut trace: Seq<S> = seq![state];
    while iterations < max_iter && !converged
        invariant
            iterations <= max_iter,
            forall|s: S| call_requires(step, (&s,)),
            converged ==> iterations >= 1,
            trace.len() == iterations + 1,
            trace.last() == state,
            is_run(step, init, trace, converged),
        decreases max_iter - iterations,
    {
        let (next, done) = step(&state);
        let ghost prev = trace;
        proof {
            trace = trace.push(next);
            assert forall|k: int|
                #![trigger trace[k]]
                0 <= k < trace.len() - 1 implies call_ensures(
                step,
                (&trace[k],),
                (trace[k + 1], done && k == trace.len() - 2),
            ) by {
                if k < trace.len() - 2 {
                    assert(trace[k] == prev[k]);
                    assert(trace[k + 1] == prev[k + 1]);
                }
            }
        }
        state = next;
        iterations = iterations + 1;
        converged = done;
    }
    let res = (state, iterations, converged);
    assert(is_run(step, init, trace, res.2) && trace.len() == res.1 + 1 && trace.last() == res.0);
    res
}

/// Every state leads to at most one (state, report) pair under `step`.
pub open spec fn is_deterministic<S, F: Fn(&S) -> (S, bool)>(step: F) -> bool {
    forall|s: S, r1: (S, bool), r2: (S, bool)|
        call_ensures(step, (&s,), r1) && call_ensures(step, (&s,), r2) ==> r1 == r2
}

/// Convergence is final: for a deterministic step, a run from `init` that stopped on
/// convergence is the same as every other run from `init` that either also stopped
/// on convergence or took at least as many steps. So calling `iterate_until` again
/// with any budget at least the number of steps the converged call took gives the
/// same state, the same count, and convergence again.
pub proof fn lemma_converged_run_is_final<S, F: Fn(&S) -> (S, bool)>(
    step: F,
    init: S,
    converged_run: Seq<S>,
    other_run: Seq<S>,
    other_stopped: bool,
)
    requires
        is_deterministic(step),
        is_run(step, init, converged_run, true),
        converged_run.len() >= 2,
        is_run(step, init, other_run, other_stopped),
        other_stopped ==> other_run.len() >= 2,
        other_stopped || other_run.len() >= converged_run.len(),
    ensures
        other_run == converged_run,
        other_stopped,
{
    let t1 = converged_run;
    let t2 = other_run;
    let len: int = if t1.len() <= t2.len() {
        t1.len() as int
    } else {
        t2.len() as int
    };
    lemma_runs_agree(step, init, t1, true, t2, other_stopped, len);
    if t2.len() > t1.len() {
        let k: int = t1.len() - 2;
        assert(call_ensures(step, (&t1[k],), (t1[k + 1], true)));
        assert(call_ensures(step, (&t2[k],), (t2[k + 1], false)));
    } else if t2.len() < t1.len() {
        let k: int = t2.len() - 2;
        assert(call_ensures(step, (&t2[k],), (t2[k + 1], true)));
        assert(call_ensures(step, (&t1[k],), (t1[k + 1], false)));
    } else {
        let k: int = t1.len() - 2;
        assert(call_ensures(step, (&t1[k],), (t1[k + 1], true)));
        assert(call_ensures(step, (&t2[k],), (t2[k + 1], other_stopped)));
        assert(t1 =~= t2);
    }
}

proof fn lemma_runs_agree<S, F: Fn(&S) -> (S, bool)>(
    step: F,
    init: S,
    t1: Seq<S>,
    b1: bool,
    t2: Seq<S>,
    b2: bool,
    len: int,
)
    requires
        is_deterministic(step),
        is_run(step, init, t1, b1),
        is_run(step, init, t2, b2),
        1 <= len <= t1.len(),
        len <= t2.len(),
    ensures
        forall|i: int| 0 <= i < len ==> #[trigger] t1[i] == t2[i],
    decreases len,
{
    if len > 1 {
        lemma_runs_agree(step, init, t1, b1, t2, b2, len - 1);
        let k: int = len - 2;
        assert(t1[k] == t2[k]);
        assert(call_ensures(step, (&t1[k],), (t1[k + 1], b1 && k == t1.len() - 2)));
        assert(call_ensures(step, (&t2[k],), (t2[k + 1], b2 && k == t2.len() - 2)));
    }
}

/// Applies `step` exactly `n_steps` times from `initial`, keeping every state
/// (the initial one first) and the side value of every step.
pub fn unroll<S, C, F>(initial: S, n_steps: usize, step: F) -> (res: (Vec<S>, Vec<C>)) where
    F: Fn(&S) -> (S, C),

    requires
        forall|s: S| call_requires(step, (&s,)),
    ensures
        res.0.len() == n_steps + 1,
        res.1.len() == n_steps,
        res.0@[0] == initial,
        forall|k: int|
            #![trigger res.1@[k]]
            0 <= k < n_steps ==> call_ensures(step, (&res.0@[k],), (res.0@[k + 1], res.1@[k])),
{
    let mut states: Vec<S> = Vec::new();
    let mut sides: Vec<C> = Vec::new();
    states.push(initial);
    let mut k: usize = 0;
    while k < n_steps
        invariant
            k <= n_steps,
            forall|s: S| call_requires(step, (&s,)),
            states.len() == k + 1,
            sides.len() == k,
            states@[0] == initial,
            forall|t: int|
                #![trigger sides@[t]]
                0 <= t < k ==> call_ensures(step, (&states@[t],), (states@[t + 1], sides@[t])),
        decreases n_steps - k,
    {
        let (next, side) = step(&states[k]);
        let ghost before = states@;
        let ghost sides_before = sides@;
        states.push(next);
        sides.push(side);
        proof {
            assert forall|t: int| 0 <= t < k + 1 implies #[trigger] call_ensures(
                step,
                (&states@[t],),
                (states@[t + 1], sides@[t]),
            ) by {
                if t < k {
                    assert(states@[t] == before[t]);
                    assert(states@[t + 1] == before[t + 1]);
                    assert(sides@[t] == sides_before[t]);
                }
            }
        }
        k = k + 1;
    }
    (states, sides)
}

} // verus!
