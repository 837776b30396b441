//! Runs of a step function: the sequence of states reached by applying one
//! step again and again, starting from a given state.
use vstd::prelude::*;

verus! {

/// Entry `i + 1` of `points` is a result that `step` may return on entry `i`.
pub open spec fn followed_by<T, F: Fn(&T) -> T>(step: F, points: Seq<T>, i: int) -> bool {
    call_ensures(step, (&points[i],), points[i + 1])
}

/// `points` is a run of `step` from `start` over `steps` steps: it holds
/// `steps + 1` states, the first is `start`, and each later state is a result
/// of `step` on the state before it.
pub open spec fn is_run<T, F: Fn(&T) -> T>(step: F, start: T, steps: nat, points: Seq<T>) -> bool {
    &&& points.len() == steps + 1
    &&& points[0] == start
    &&& forall|i: int| 0 <= i < steps ==> #[trigger] followed_by(step, points, i)
}

/// `step` gives one result for each state: two results on the same state agree.
pub open spec fn is_deterministic<T, F: Fn(&T) -> T>(step: F) -> bool {
    forall|x: T, y1: T, y2: T|
        #![trigger call_ensures(step, (&x,), y1), call_ensures(step, (&x,), y2)]
        call_ensures(step, (&x,), y1) && call_ensures(step, (&x,), y2) ==> y1 == y2
}

/// The state reached from `start` after `n` steps, taking at each step a
/// result of `step` on the state before it.  For a deterministic step this is
/// the one state every run reaches after `n` steps.
pub open spec fn state_after<T, F: Fn(&T) -> T>(step: F, start: T, n: nat) -> T
    decreases n,
{
    if n == 0 {
        start
    } else {
        let before = state_after(step, start, (n - 1) as nat);
        choose|next: T| call_ensures(step, (&before,), next)
    }
}

/// Records every state of a run: `start`, then the result of `step` on it, and
/// so on, `steps` times.  The result holds `steps + 1` states.
pub fn trajectory<T, F: Fn(&T) -> T>(start: T, steps: usize, step: F) -> (points: Vec<T>)
    requires
        forall|x: T| call_requires(step, (&x,)),
    ensures
        is_run(step, start, steps as nat, points@),
        is_deterministic(step) ==> forall|i: int|
            0 <= i <= steps ==> #[trigger] points@[i] == state_after(step, start, i as nat),
{
    let mut points: Vec<T> = Vec::new();
    points.push(start);
    let mut i: usize = 0;
    while i < steps
        invariant
            i <= steps,
            points@.len() == i + 1,
            points@[0] == start,
            forall|k: int| 0 <= k < i ==> #[trigger] followed_by(step, points@, k),
            forall|x: T| call_requires(step, (&x,)),
        decreases steps - i,
    {
        let next = step(&points[i]);
        let ghost before = points@;
        points.push(next);
        assert forall|k: int| 0 <= k < i + 1 implies #[trigger] followed_by(step, points@, k) by {
            assert(points@[k] == before.push(next)[k]);
            if k < i {
                assert(followed_by(step, before, k));
            }
        }
        i = i + 1;
    }
    proof {
        if is_deterministic(step) {
            assert forall|i: int| 0 <= i <= steps implies #[trigger] points@[i] == state_after(
                step,
                start,
                i as nat,
            ) by {
                lemma_run_states(step, start, steps as nat, points@, i);
            }
        }
    }
    points
}

/// The state a run ends in: `step` applied `steps` times to `start`.
pub fn iterate<T, F: Fn(&T) -> T>(start: T, steps: usize, step: F) -> (last: T)
    requires
        forall|x: T| call_requires(step, (&x,)),
    ensures
        exists|run: Seq<T>| is_run(step, start, steps as nat, run) && last == run[steps as int],
        steps == 0 ==> last == start,
        is_deterministic(step) ==> last == state_after(step, start, steps as nat),
{
    let ghost first = start;
    let mut current = start;
    let ghost mut run: Seq<T> = seq![first];
    let mut i: usize = 0;
    while i < steps
        invariant
            i <= steps,
            is_run(step, first, i as nat, run),
            current == run[i as int],
            forall|x: T| call_requires(step, (&x,)),
        decreases steps - i,
    {
        let next = step(&current);
        proof {
            let before = run;
            run = run.push(next);
            assert forall|k: int| 0 <= k < i + 1 implies #[trigger] followed_by(step, run, k) by {
                if k < i {
                    assert(followed_by(step, before, k));
                }
            }
        }
        current = next;
        i = i + 1;
    }
    assert(is_run(step, start, steps as nat, run) && current == run[steps as int]);
    proof {
        if is_deterministic(step) {
            lemma_run_states(step, start, steps as nat, run, steps as int);
        }
    }
    current
}

/// Runs of a deterministic step are determined by their start and length:
/// two runs of the same step from the same start over the same number of
/// steps are the same sequence of states.
pub proof fn lemma_runs_agree<T, F: Fn(&T) -> T>(
    step: F,
    start: T,
    steps: nat,
    a: Seq<T>,
    b: Seq<T>,
)
    requires
        is_deterministic(step),
        is_run(step, start, steps, a),
        is_run(step, start, steps, b),
    ensures
        a == b,
{
    assert forall|i: int| 0 <= i <= steps implies a[i] == b[i] by {
        lemma_run_states(step, start, steps, a, i);
        lemma_run_states(step, start, steps, b, i);
    }
    assert(a =~= b);
}

/// Each state of a run of a deterministic step is the state reached after
/// that many steps.
pub proof fn lemma_run_states<T, F: Fn(&T) -> T>(
    step: F,
    start: T,
    steps: nat,
    points: Seq<T>,
    i: int,
)
    requires
        is_deterministic(step),
        is_run(step, start, steps, points),
        0 <= i <= steps,
    ensures
        points[i] == state_after(step, start, i as nat),
    decreases i,
{
    if i > 0 {
        lemma_run_states(step, start, steps, points, i - 1);
        assert(followed_by(step, points, i - 1));
        let before = state_after(step, start, (i - 1) as nat);
        assert(call_ensures(step, (&before,), points[i]));
        let chosen = choose|next: T| call_ensures(step, (&before,), next);
        assert(call_ensures(step, (&before,), chosen));
    }
}

/// Resolving over no steps leaves the state as it was; resolving over
/// `n + 1` steps takes one step from where resolving over `n` steps ends,
/// whenever the step is deterministic and gives `next` on that state.
pub proof fn lemma_state_after_unfolds<T, F: Fn(&T) -> T>(step: F, start: T, n: nat, next: T)
    requires
        is_deterministic(step),
        call_ensures(step, (&state_after(step, start, n),), next),
    ensures
        state_after(step, start, 0) == start,
        state_after(step, start, n + 1) == next,
{
    let before = state_after(step, start, n);
    assert(state_after(step, start, (n + 1) as nat) == choose|y: T|
        call_ensures(step, (&before,), y));
    let chosen = choose|y: T| call_ensures(step, (&before,), y);
    assert(call_ensures(step, (&before,), chosen));
}

/// A shorter run of a deterministic step is a prefix of a longer run from the
/// same start: the trajectory over `n` steps is the first `n + 1` states of
/// the trajectory over `n + k` steps.
pub proof fn lemma_run_prefix<T, F: Fn(&T) -> T>(
    step: F,
    start: T,
    n: nat,
    k: nat,
    shorter: Seq<T>,
    longer: Seq<T>,
)
    requires
        is_deterministic(step),
        is_run(step, start, n, shorter),
        is_run(step, start, n + k, longer),
    ensures
        shorter == longer.take((n + 1) as int),
{
    assert forall|i: int| 0 <= i <= n implies shorter[i] == longer.take((n + 1) as int)[i] by {
        lemma_run_states(step, start, n, shorter, i);
        lemma_run_states(step, start, n + k, longer, i);
    }
    assert(shorter =~= longer.take((n + 1) as int));
}

/// A run over `m` steps followed by a run over `n` steps from where the first
/// one ended is a run over `m + n` steps: resolving in two stretches reaches
/// the same states as resolving in one.
pub proof fn lemma_run_concat<T, F: Fn(&T) -> T>(
    step: F,
    start: T,
    m: nat,
    n: nat,
    first: Seq<T>,
    second: Seq<T>,
)
    requires
        is_run(step, start, m, first),
        is_run(step, first[m as int], n, second),
    ensures
        is_run(step, start, m + n, first + second.skip(1)),
{
    let whole = first + second.skip(1);
    assert forall|i: int| 0 <= i < m + n implies #[trigger] followed_by(step, whole, i) by {
        if i < m {
            assert(followed_by(step, first, i));
            assert(whole[i] == first[i]);
            assert(whole[i + 1] == if i + 1 < m { first[i + 1] } else { second[0] });
        } else {
            assert(followed_by(step, second, i - m));
            assert(whole[i] == if i < m { first[i] } else { second[i - m] });
            assert(whole[i + 1] == second[i + 1 - m]);
        }
    }
}

/// For a deterministic step, the state `iterate` ends in is the last state
/// that `trajectory` records over the same number of steps.
pub proof fn lemma_iterate_is_trajectory_last<T, F: Fn(&T) -> T>(
    step: F,
    start: T,
    steps: nat,
    points: Seq<T>,
    last: T,
)
    requires
        is_deterministic(step),
        is_run(step, start, steps, points),
        exists|run: Seq<T>| is_run(step, start, steps, run) && last == run[steps as int],
    ensures
        last == points[steps as int],
{
    let run = choose|run: Seq<T>| is_run(step, start, steps, run) && last == run[steps as int];
    lemma_runs_agree(step, start, steps, run, points);
}

} // verus!
