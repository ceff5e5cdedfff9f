//! Automata engine components shared by the dense and the sparse engines.

pub mod generic;
pub mod life_like;

use vstd::prelude::*;

verus! {

/// A cell address: a pair of non-negative coordinates `(x, y)`.
pub type Pos = (usize, usize);

/// The progress signal returned by each step of an automaton.
#[derive(Debug, PartialEq, Eq, Structural)]
pub enum ExecutionState {
    /// The configured generation bound has been reached.
    Finished,
    /// `Remaining(k)`: `k` more generations will be reported before `Finished`.
    Remaining(u32),
    /// No generation bound was configured; stepping never finishes.
    Infinite,
}

/// How one completed step transforms the generations-remaining counter and
/// which signal it reports: no bound always yields `Infinite`; a bound of `0`
/// is kept and yields `Finished`; a positive bound `n` is decremented and
/// yields `Remaining(n - 1)`.
pub open spec fn spec_advance(gens: Option<u32>) -> (Option<u32>, ExecutionState) {
    match gens {
        None => (None, ExecutionState::Infinite),
        Some(n) => if n == 0 {
            (Some(0u32), ExecutionState::Finished)
        } else {
            (Some((n - 1) as u32), ExecutionState::Remaining((n - 1) as u32))
        },
    }
}

/// Applies the generation-countdown rule once, in place.
pub(crate) fn advance_generations(gens: &mut Option<u32>) -> (r: ExecutionState)
    ensures
        (*final(gens), r) == spec_advance(*old(gens)),
{
    match *gens {
        None => ExecutionState::Infinite,
        Some(n) => {
            if n == 0 {
                ExecutionState::Finished
            } else {
                *gens = Some(n - 1);
                ExecutionState::Remaining(n - 1)
            }
        },
    }
}

/// The value the generations-remaining counter holds after `i` completed
/// steps, starting from a bound of `n`: it counts down to zero and stays there.
pub open spec fn spec_gens_after(n: u32, i: int) -> Option<u32> {
    if i <= n {
        Some((n - i) as u32)
    } else {
        Some(0u32)
    }
}

proof fn lemma_bounded_counter_value(gens: Seq<Option<u32>>, states: Seq<ExecutionState>, n: u32, i: int)
    requires
        gens.len() == states.len() + 1,
        gens[0] == Some(n),
        forall|j: int|
            0 <= j < states.len() ==> (gens[j + 1], #[trigger] states[j]) == spec_advance(gens[j]),
        0 <= i < gens.len(),
    ensures
        gens[i] == spec_gens_after(n, i),
    decreases i,
{
    if i > 0 {
        lemma_bounded_counter_value(gens, states, n, i - 1);
        assert((gens[i - 1 + 1], states[i - 1]) == spec_advance(gens[i - 1]));
    }
}

/// Generation countdown: when an automaton starts with a bound `n` and the
/// counter and the reported signal follow `spec_advance` at every step, the
/// first `n` steps report `Remaining(n - 1), ..., Remaining(0)` and every
/// later step reports `Finished`. `gens[j]` is the counter before step `j`;
/// `states[j]` is the signal that step `j` reports.
pub proof fn lemma_generation_countdown(
    gens: Seq<Option<u32>>,
    states: Seq<ExecutionState>,
    n: u32,
)
    requires
        gens.len() == states.len() + 1,
        gens[0] == Some(n),
        forall|j: int|
            0 <= j < states.len() ==> (gens[j + 1], #[trigger] states[j]) == spec_advance(gens[j]),
    ensures
        forall|j: int|
            0 <= j < states.len() ==> #[trigger] states[j] == if j < n {
                ExecutionState::Remaining((n - 1 - j) as u32)
            } else {
                ExecutionState::Finished
            },
{
    assert forall|j: int| 0 <= j < states.len() implies #[trigger] states[j] == if j < n {
        ExecutionState::Remaining((n - 1 - j) as u32)
    } else {
        ExecutionState::Finished
    } by {
        lemma_bounded_counter_value(gens, states, n, j);
        assert((gens[j + 1], states[j]) == spec_advance(gens[j]));
    }
}

/// Unbounded invariant: when no bound is configured and the counter and the
/// reported signal follow `spec_advance` at every step, every step reports
/// `Infinite`, regardless of how many steps were taken.
pub proof fn lemma_unbounded_runs_forever(gens: Seq<Option<u32>>, states: Seq<ExecutionState>)
    requires
        gens.len() == states.len() + 1,
        gens[0] == None::<u32>,
        forall|j: int|
            0 <= j < states.len() ==> (gens[j + 1], #[trigger] states[j]) == spec_advance(gens[j]),
    ensures
        forall|j: int| 0 <= j < states.len() ==> #[trigger] states[j] == ExecutionState::Infinite,
{
    assert forall|j: int| 0 <= j < states.len() implies gens[j] == None::<u32>
        && #[trigger] states[j] == ExecutionState::Infinite by {
        lemma_unbounded_counter_value(gens, states, j);
        assert((gens[j + 1], states[j]) == spec_advance(gens[j]));
    }
}

proof fn lemma_unbounded_counter_value(gens: Seq<Option<u32>>, states: Seq<ExecutionState>, i: int)
    requires
        gens.len() == states.len() + 1,
        gens[0] == None::<u32>,
        forall|j: int|
            0 <= j < states.len() ==> (gens[j + 1], #[trigger] states[j]) == spec_advance(gens[j]),
        0 <= i < gens.len(),
    ensures
        gens[i] == None::<u32>,
    decreases i,
{
    if i > 0 {
        lemma_unbounded_counter_value(gens, states, i - 1);
        assert((gens[i - 1 + 1], states[i - 1]) == spec_advance(gens[i - 1]));
    }
}

/// The side length of the square neighbor window of the given radius.
pub open spec fn window(radius: int) -> int {
    2 * radius + 1
}

/// The offsets `(dx, dy)` with `max(|dx|, |dy|) <= radius`, enumerated with
/// `dx` as the outer coordinate and `dy` as the inner one, both ascending.
pub open spec fn spec_offsets(radius: int) -> Seq<(int, int)> {
    Seq::new(
        (window(radius) * window(radius)) as nat,
        |k: int| (k / window(radius) - radius, k % window(radius) - radius),
    )
}

/// Every offset of the window sequence has both coordinates within the
/// radius.
pub proof fn lemma_offsets_bounded(radius: int, k: int)
    requires
        radius >= 0,
        0 <= k < spec_offsets(radius).len(),
    ensures
        -radius <= spec_offsets(radius)[k].0 <= radius,
        -radius <= spec_offsets(radius)[k].1 <= radius,
{
    let w = window(radius);
    assert(0 <= k / w < w && 0 <= k % w < w) by (nonlinear_arith)
        requires
            w > 0,
            0 <= k < w * w,
    ;
}

/// Every offset with both coordinates within the radius occurs in the window
/// sequence.
pub proof fn lemma_offset_index(radius: int, o: (int, int))
    requires
        radius >= 0,
        -radius <= o.0 <= radius,
        -radius <= o.1 <= radius,
    ensures
        exists|k: int|
            0 <= k < spec_offsets(radius).len() && #[trigger] spec_offsets(radius)[k] == o,
{
    let w = window(radius);
    let k = (o.0 + radius) * w + (o.1 + radius);
    assert(0 <= k < w * w && k / w == o.0 + radius && k % w == o.1 + radius)
        by (nonlinear_arith)
        requires
            w > 0,
            0 <= o.0 + radius < w,
            0 <= o.1 + radius < w,
            k == (o.0 + radius) * w + (o.1 + radius),
    ;
    assert(spec_offsets(radius)[k] == o);
}

/// How many offsets of the sequence satisfy the given condition.
pub open spec fn count_true(offs: Seq<(int, int)>, cond: spec_fn((int, int)) -> bool) -> nat
    decreases offs.len(),
{
    if offs.len() == 0 {
        0
    } else {
        count_true(offs.drop_last(), cond) + if cond(offs.last()) {
            1nat
        } else {
            0nat
        }
    }
}

/// Looking at one more offset adds one to the count exactly when the
/// condition holds of that offset.
pub proof fn lemma_count_true_take_step(
    offs: Seq<(int, int)>,
    cond: spec_fn((int, int)) -> bool,
    k: int,
)
    requires
        0 <= k < offs.len(),
    ensures
        count_true(offs.take(k + 1), cond) == count_true(offs.take(k), cond) + if cond(offs[k]) {
            1nat
        } else {
            0nat
        },
{
    assert(offs.take(k + 1).drop_last() =~= offs.take(k));
    assert(offs.take(k + 1).last() == offs[k]);
}

/// Two conditions that agree on every offset of the sequence give the same
/// count.
pub proof fn lemma_count_true_congruent(
    offs: Seq<(int, int)>,
    c1: spec_fn((int, int)) -> bool,
    c2: spec_fn((int, int)) -> bool,
)
    requires
        forall|o: (int, int)| #[trigger] offs.contains(o) ==> (c1(o) <==> c2(o)),
    ensures
        count_true(offs, c1) == count_true(offs, c2),
    decreases offs.len(),
{
    if offs.len() > 0 {
        assert forall|o: (int, int)| #[trigger] offs.drop_last().contains(o) implies (c1(o)
            <==> c2(o)) by {
            let i = choose|i: int| 0 <= i < offs.drop_last().len() && offs.drop_last()[i] == o;
            assert(offs[i] == o);
            assert(offs.contains(o));
        }
        lemma_count_true_congruent(offs.drop_last(), c1, c2);
        assert(offs[offs.len() - 1] == offs.last());
        assert(offs.contains(offs.last()));
    }
}

} // verus!
