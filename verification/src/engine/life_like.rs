//! The sparse (Game of) Life-like automaton engine.
//!
//! It only stores the cells that are currently alive and, on each step, also
//! considers the unoccupied positions around them in a fixed radius.

use vstd::prelude::*;

use crate::engine::{
    advance_generations, count_true, lemma_count_true_congruent, lemma_count_true_take_step,
    lemma_offset_index, lemma_offsets_bounded, spec_advance, spec_offsets, window, ExecutionState,
    Pos,
};
use core::marker::PhantomData;
use itertools::Itertools;

verus! {

/// Relies on itertools' `Itertools::cartesian_product`: pairing two copies of
/// the range `-radius ..= radius` yields every offset of the square window
/// once, the first coordinate outermost, both coordinates ascending.
#[verifier::external_body]
fn square_offsets(radius: u8) -> (r: Vec<(isize, isize)>)
    ensures
        r@.len() == spec_offsets(radius as int).len(),
        forall|k: int|
            #![trigger r@[k]]
            0 <= k < r@.len() ==> r@[k].0 as int == spec_offsets(radius as int)[k].0 && r@[k].1
                as int == spec_offsets(radius as int)[k].1,
{
    let radius = radius as isize;
    (-radius..=radius).cartesian_product(-radius..=radius).collect()
}

/// The keys of the entries are pairwise distinct.
pub open spec fn nodup_keys<S>(s: Seq<(Pos, S)>) -> bool {
    forall|i: int, j: int| 0 <= i < j < s.len() ==> (#[trigger] s[i]).0 != (#[trigger] s[j]).0
}

/// The mapping a sequence of key-value entries with pairwise distinct keys
/// stands for.
pub open spec fn entries_map<S>(s: Seq<(Pos, S)>) -> Map<Pos, S> {
    Map::new(
        |p: Pos| exists|i: int| 0 <= i < s.len() && (#[trigger] s[i]).0 == p,
        |p: Pos| (s[choose|i: int| 0 <= i < s.len() && (#[trigger] s[i]).0 == p]).1,
    )
}

proof fn lemma_entry_in_map<S>(s: Seq<(Pos, S)>, i: int)
    requires
        nodup_keys(s),
        0 <= i < s.len(),
    ensures
        entries_map(s).dom().contains(s[i].0),
        entries_map(s)[s[i].0] == s[i].1,
{
    let p = s[i].0;
    assert((#[trigger] s[i]).0 == p);
    assert(exists|j: int| 0 <= j < s.len() && (#[trigger] s[j]).0 == p);
    let j = choose|j: int| 0 <= j < s.len() && (#[trigger] s[j]).0 == p;
    assert(j == i);
}

/// A sparse grid: a mapping that stores exactly the occupied cells, keyed by
/// position. Its view is that mapping.
pub struct Grid<S> {
    entries: Vec<(Pos, S)>,
}

impl<S> View for Grid<S> {
    type V = Map<Pos, S>;

    closed spec fn view(&self) -> Map<Pos, S> {
        entries_map(self.entries@)
    }
}

impl<S> Grid<S> {
    /// The stored entries, oldest first.
    pub(crate) closed spec fn spec_entries(self) -> Seq<(Pos, S)> {
        self.entries@
    }

    #[verifier::type_invariant]
    spec fn wf(self) -> bool {
        nodup_keys(self.entries@)
    }

    /// Creates an empty grid: no cell is occupied.
    pub fn new() -> (r: Self)
        ensures
            r@ == Map::<Pos, S>::empty(),
    {
        let r = Grid { entries: Vec::new() };
        proof {
            assert(r@ =~= Map::<Pos, S>::empty());
        }
        r
    }

    /// How many cells are occupied.
    pub fn len(&self) -> (r: usize)
        ensures
            r == self@.dom().len(),
            self@.dom().finite(),
    {
        proof {
            use_type_invariant(self);
            self.lemma_dom_len();
        }
        self.entries.len()
    }

    /// Whether no cell is occupied.
    pub fn is_empty(&self) -> (r: bool)
        ensures
            r <==> (self@ =~= Map::<Pos, S>::empty()),
    {
        proof {
            use_type_invariant(self);
            if self.entries@.len() > 0 {
                lemma_entry_in_map(self.entries@, 0);
            }
        }
        self.entries.is_empty()
    }

    /// The domain of the view is finite and as large as the entry list.
    proof fn lemma_dom_len(self)
        requires
            self.wf(),
        ensures
            self@.dom().finite(),
            self@.dom().len() == self.entries@.len(),
    {
        let keys = self.entries@.map_values(|e: (Pos, S)| e.0);
        assert(keys.no_duplicates());
        keys.unique_seq_to_set();
        assert forall|p: Pos| self@.dom().contains(p) implies keys.to_set().contains(p) by {
            let i = choose|i: int|
                0 <= i < self.entries@.len() && (#[trigger] self.entries@[i]).0 == p;
            assert(keys[i] == p);
        }
        assert forall|p: Pos| keys.to_set().contains(p) implies self@.dom().contains(p) by {
            let i = choose|i: int| 0 <= i < keys.len() && keys[i] == p;
            assert(self.entries@[i].0 == p);
        }
        assert(self@.dom() =~= keys.to_set());
    }

    /// Whether the cell at the given position is occupied.
    #[verifier::loop_isolation(false)]
    pub fn contains_key(&self, pos: Pos) -> (r: bool)
        ensures
            r == self@.dom().contains(pos),
    {
        proof {
            use_type_invariant(self);
        }
        let n = self.entries.len();
        let mut i: usize = 0;
        while i < n
            invariant
                n == self.entries@.len(),
                i <= n,
                forall|j: int| 0 <= j < i ==> (#[trigger] self.entries@[j]).0 != pos,
            decreases n - i,
        {
            let e = &self.entries[i];
            if e.0.0 == pos.0 && e.0.1 == pos.1 {
                proof {
                    lemma_entry_in_map(self.entries@, i as int);
                }
                return true;
            }
            i += 1;
        }
        proof {
            if self@.dom().contains(pos) {
                let j = choose|j: int|
                    0 <= j < self.entries@.len() && (#[trigger] self.entries@[j]).0 == pos;
                assert(false);
            }
        }
        false
    }

    /// The state of the cell at the given position, if it is occupied.
    #[verifier::loop_isolation(false)]
    pub fn get(&self, pos: Pos) -> (r: Option<&S>)
        ensures
            match r {
                Some(s) => self@.dom().contains(pos) && *s == self@[pos],
                None => !self@.dom().contains(pos),
            },
    {
        proof {
            use_type_invariant(self);
        }
        let n = self.entries.len();
        let mut i: usize = 0;
        while i < n
            invariant
                n == self.entries@.len(),
                i <= n,
                forall|j: int| 0 <= j < i ==> (#[trigger] self.entries@[j]).0 != pos,
            decreases n - i,
        {
            let e = &self.entries[i];
            if e.0.0 == pos.0 && e.0.1 == pos.1 {
                proof {
                    lemma_entry_in_map(self.entries@, i as int);
                }
                return Some(&self.entries[i].1);
            }
            i += 1;
        }
        proof {
            if self@.dom().contains(pos) {
                let j = choose|j: int|
                    0 <= j < self.entries@.len() && (#[trigger] self.entries@[j]).0 == pos;
                assert(false);
            }
        }
        None
    }

    /// Occupies the cell at the given position with the given state,
    /// replacing any state stored there before.
    #[verifier::loop_isolation(false)]
    pub fn insert(&mut self, pos: Pos, state: S)
        ensures
            final(self)@ == old(self)@.insert(pos, state),
    {
        proof {
            use_type_invariant(&*self);
        }
        let ghost s0: Seq<(Pos, S)> = self.entries@;
        let mut es: Vec<(Pos, S)> = Vec::new();
        core::mem::swap(&mut self.entries, &mut es);
        let n = es.len();
        let mut i: usize = 0;
        let mut found: Option<usize> = None;
        while i < n
            invariant
                n == es@.len(),
                i <= n,
                match found {
                    Some(f) => f < i && es@[f as int].0 == pos,
                    None => forall|j: int| 0 <= j < i ==> (#[trigger] es@[j]).0 != pos,
                },
            decreases n - i,
        {
            if found.is_none() {
                let e = &es[i];
                if e.0.0 == pos.0 && e.0.1 == pos.1 {
                    found = Some(i);
                }
            }
            i += 1;
        }
        match found {
            Some(f) => {
                es.remove(f);
            },
            None => {},
        }
        es.push((pos, state));
        proof {
            let s1 = es@;
            assert(s1.last() == (pos, state));
            assert(nodup_keys(s1)) by {
                match found {
                    Some(f) => {
                        assert forall|i2: int, j2: int| 0 <= i2 < j2 < s1.len() implies (
                        #[trigger] s1[i2]).0 != (#[trigger] s1[j2]).0 by {
                            if j2 < s1.len() - 1 {
                                let oi = if i2 < f { i2 } else { i2 + 1 };
                                let oj = if j2 < f { j2 } else { j2 + 1 };
                                assert(s0[oi] == s1[i2] && s0[oj] == s1[j2]);
                            } else {
                                let oi = if i2 < f { i2 } else { i2 + 1 };
                                assert(s0[oi] == s1[i2]);
                                assert(s0[oi].0 != s0[f as int].0);
                            }
                        }
                    },
                    None => {
                        assert forall|i2: int, j2: int| 0 <= i2 < j2 < s1.len() implies (
                        #[trigger] s1[i2]).0 != (#[trigger] s1[j2]).0 by {
                            if j2 < s1.len() - 1 {
                                assert(s0[i2] == s1[i2] && s0[j2] == s1[j2]);
                            } else {
                                assert(s0[i2] == s1[i2]);
                            }
                        }
                    },
                }
            }
            assert(entries_map(s1) =~= entries_map(s0).insert(pos, state)) by {
                assert forall|q: Pos| #[trigger]
                    entries_map(s1).dom().contains(q) == entries_map(s0).insert(
                    pos,
                    state,
                ).dom().contains(q) && (entries_map(s1).dom().contains(q) ==> entries_map(s1)[q]
                    == entries_map(s0).insert(pos, state)[q]) by {
                    lemma_map_effect(s0, s1, found, pos, state, q);
                }
            }
        }
        core::mem::swap(&mut self.entries, &mut es);
    }
}

/// Relates membership and values of the entry mapping before and after one
/// insertion into the entry list.
proof fn lemma_map_effect<S>(
    s0: Seq<(Pos, S)>,
    s1: Seq<(Pos, S)>,
    found: Option<usize>,
    pos: Pos,
    state: S,
    q: Pos,
)
    requires
        nodup_keys(s0),
        nodup_keys(s1),
        match found {
            Some(f) => f < s0.len() && s0[f as int].0 == pos && s1 == s0.remove(f as int).push(
                (pos, state),
            ),
            None => (forall|j: int| 0 <= j < s0.len() ==> (#[trigger] s0[j]).0 != pos) && s1
                == s0.push((pos, state)),
        },
    ensures
        entries_map(s1).dom().contains(q) == entries_map(s0).insert(pos, state).dom().contains(q),
        entries_map(s1).dom().contains(q) ==> entries_map(s1)[q] == entries_map(s0).insert(
            pos,
            state,
        )[q],
{
    let m0 = entries_map(s0);
    let m1 = entries_map(s1);
    if q == pos {
        lemma_entry_in_map(s1, s1.len() - 1);
        assert(m1.dom().contains(q) && m1[q] == state);
    } else {
        if m1.dom().contains(q) {
            let i = choose|i: int| 0 <= i < s1.len() && (#[trigger] s1[i]).0 == q;
            lemma_entry_in_map(s1, i);
            assert(i < s1.len() - 1);
            let oi = match found {
                Some(f) => if i < f { i } else { i + 1 },
                None => i,
            };
            assert(s0[oi] == s1[i]);
            lemma_entry_in_map(s0, oi);
            assert(m0.dom().contains(q) && m0[q] == s1[i].1 && m1[q] == s1[i].1);
        }
        if m0.dom().contains(q) {
            let i = choose|i: int| 0 <= i < s0.len() && (#[trigger] s0[i]).0 == q;
            lemma_entry_in_map(s0, i);
            let ni = match found {
                Some(f) => if i < f { i } else { i - 1 },
                None => i,
            };
            assert(s1[ni] == s0[i]);
            lemma_entry_in_map(s1, ni);
            assert(m1.dom().contains(q));
        }
    }
}

impl<S> Default for Grid<S> {
    /// An empty grid: no cell is occupied.
    fn default() -> (r: Self)
        ensures
            r@ == Map::<Pos, S>::empty(),
    {
        Grid::new()
    }
}

/// Whether `p` lies within the square window of the given radius around `q`.
pub open spec fn chebyshev_within(p: Pos, q: Pos, radius: int) -> bool {
    &&& -radius <= p.0 - q.0 <= radius
    &&& -radius <= p.1 - q.1 <= radius
}

/// Whether shifting `q` by the offset `o` stays in the representable,
/// non-negative coordinate range.
pub open spec fn shift_valid(q: Pos, o: (int, int)) -> bool {
    &&& 0 <= q.0 + o.0 <= usize::MAX
    &&& 0 <= q.1 + o.1 <= usize::MAX
}

/// The position `q` shifted by the offset `o`.
pub open spec fn shift(q: Pos, o: (int, int)) -> Pos {
    (((q.0 + o.0) as usize, (q.1 + o.1) as usize))
}

/// The synthetic candidates of one step: the representable unoccupied
/// positions that lie within the radius of some occupied cell. Candidate
/// coordinates that would leave the non-negative range are dropped, which
/// this set expresses by containing positions only.
pub open spec fn synthetic_candidates<S>(m: Map<Pos, S>, radius: int) -> Set<Pos> {
    Set::new(
        |p: Pos|
            !m.dom().contains(p) && exists|q: Pos|
                #[trigger] m.dom().contains(q) && chebyshev_within(p, q, radius),
    )
}

/// Whether the vector holds the given position.
#[verifier::loop_isolation(false)]
fn pos_vec_contains(v: &Vec<Pos>, p: Pos) -> (r: bool)
    ensures
        r == v@.contains(p),
{
    let mut i: usize = 0;
    while i < v.len()
        invariant
            i <= v@.len(),
            forall|j: int| 0 <= j < i ==> v@[j] != p,
        decreases v@.len() - i,
    {
        let q = v[i];
        if q.0 == p.0 && q.1 == p.1 {
            proof {
                assert(v@[i as int] == p);
            }
            return true;
        }
        i += 1;
    }
    false
}

/// A (Game of) Life-like automaton.
///
/// It only considers the cells that are currently alive and the positions
/// around them in a fixed radius. The name might feel a bit misleading
/// because the automaton allows for much more than the Game of Life has
/// (position-based logic, multiple states instead of only two, etc.).
pub struct Automaton<S, D, DF, SF> {
    cells: Grid<S>,
    radius: u8,
    generations_left: Option<u32>,
    step_fn: SF,
    data_fn: DF,
    observation: PhantomData<D>,
}

impl<S, D, DF, SF> Automaton<S, D, DF, SF> where
    DF: Fn(Pos, Option<&S>, &Grid<S>) -> D,
    SF: Fn(Pos, Option<S>, D) -> Option<S>,
 {
    /// The grid of occupied cells, as the value the observation function
    /// receives.
    pub closed spec fn spec_grid(self) -> Grid<S> {
        self.cells
    }

    /// The occupied cells.
    pub open spec fn spec_cells(self) -> Map<Pos, S> {
        self.spec_grid()@
    }

    /// The neighbor radius.
    pub closed spec fn spec_radius(self) -> u8 {
        self.radius
    }

    /// The generations-remaining counter; `None` means unbounded.
    pub closed spec fn spec_generations_left(self) -> Option<u32> {
        self.generations_left
    }

    /// The observation function.
    pub closed spec fn spec_data_fn(self) -> DF {
        self.data_fn
    }

    /// The step function.
    pub closed spec fn spec_step_fn(self) -> SF {
        self.step_fn
    }

    /// Both rule functions accept every argument they can be handed.
    pub open spec fn rules_total(self) -> bool {
        &&& forall|pos: Pos, s: S, g: Grid<S>|
            #[trigger] call_requires(self.spec_data_fn(), (pos, Some(&s), &g))
        &&& forall|pos: Pos, g: Grid<S>|
            #[trigger] call_requires(self.spec_data_fn(), (pos, None::<&S>, &g))
        &&& forall|pos: Pos, s: Option<S>, d: D|
            #[trigger] call_requires(self.spec_step_fn(), (pos, s, d))
    }

    /// The step function, applied to the occupied cell `p` of `pre` and an
    /// observation computed for it against the grid of `pre`, decided the
    /// presence and the state of `p` in `post`.
    pub open spec fn occupied_stepped(pre: Self, post: Self, p: Pos) -> bool {
        exists|d: D|
            {
                &&& #[trigger] call_ensures(
                    pre.spec_data_fn(),
                    (p, Some(&pre.spec_cells()[p]), &pre.spec_grid()),
                    d,
                )
                &&& call_ensures(
                    pre.spec_step_fn(),
                    (p, Some(pre.spec_cells()[p]), d),
                    if post.spec_cells().dom().contains(p) {
                        Some(post.spec_cells()[p])
                    } else {
                        None::<S>
                    },
                )
            }
    }

    /// The step function, applied to the synthetic cell `p` (no state) and an
    /// observation computed for it against the grid of `pre`, decided whether
    /// `p` was born into `post` and with which state.
    pub open spec fn synthetic_stepped(pre: Self, post: Self, p: Pos) -> bool {
        exists|d: D|
            {
                &&& #[trigger] call_ensures(
                    pre.spec_data_fn(),
                    (p, None::<&S>, &pre.spec_grid()),
                    d,
                )
                &&& call_ensures(
                    pre.spec_step_fn(),
                    (p, None::<S>, d),
                    if post.spec_cells().dom().contains(p) {
                        Some(post.spec_cells()[p])
                    } else {
                        None::<S>
                    },
                )
            }
    }

    /// How one step transforms the occupied mapping: every occupied cell and
    /// every synthetic candidate went through the two-phase rule against the
    /// pre-step mapping, and nothing else became occupied.
    pub open spec fn step_rel(pre: Self, post: Self) -> bool {
        &&& forall|p: Pos|
            #[trigger] pre.spec_cells().dom().contains(p) ==> Self::occupied_stepped(pre, post, p)
        &&& forall|p: Pos|
            #[trigger] synthetic_candidates(pre.spec_cells(), pre.spec_radius() as int).contains(p)
                ==> Self::synthetic_stepped(pre, post, p)
        &&& forall|p: Pos|
            #[trigger] post.spec_cells().dom().contains(p) ==> pre.spec_cells().dom().contains(p)
                || synthetic_candidates(pre.spec_cells(), pre.spec_radius() as int).contains(p)
    }

    /// Assembles an automaton from its parts. [`AutomatonBuilder`] offers an
    /// easier creation process.
    pub fn new(
        cells: Grid<S>,
        radius: u8,
        generations_left: Option<u32>,
        step_fn: SF,
        data_fn: DF,
    ) -> (r: Self)
        ensures
            r.spec_grid() == cells,
            r.spec_radius() == radius,
            r.spec_generations_left() == generations_left,
            r.spec_step_fn() == step_fn,
            r.spec_data_fn() == data_fn,
    {
        Self { cells, radius, generations_left, step_fn, data_fn, observation: PhantomData }
    }

    /// Computes the next generation and reports the execution state.
    ///
    /// One step discovers the synthetic candidates around the occupied
    /// cells, computes one observation per occupied cell and per candidate —
    /// all against the pre-step mapping — and only then rebuilds the occupied
    /// mapping from what the step function returns, consuming each
    /// observation exactly once.
    #[verifier::loop_isolation(false)]
    #[verifier::rlimit(50)]
    pub fn step(&mut self) -> (r: ExecutionState)
        requires
            old(self).rules_total(),
        ensures
            Self::step_rel(*old(self), *final(self)),
            final(self).spec_radius() == old(self).spec_radius(),
            final(self).spec_data_fn() == old(self).spec_data_fn(),
            final(self).spec_step_fn() == old(self).spec_step_fn(),
            (final(self).spec_generations_left(), r) == spec_advance(
                old(self).spec_generations_left(),
            ),
    {
        proof {
            use_type_invariant(&self.cells);
        }
        let ghost m0: Map<Pos, S> = self.cells@;
        let ghost e0: Seq<(Pos, S)> = self.cells.spec_entries();
        let ghost rad: int = self.radius as int;
        let ghost cand: Set<Pos> = synthetic_candidates(m0, rad);

        let radius = self.radius;
        let offs = square_offsets(radius);
        let noffs = offs.len();
        let n_cells = self.cells.entries.len();

        // Synthetic discovery: collect, without duplicates, the unoccupied
        // representable positions within the radius of an occupied cell.
        let mut synth: Vec<Pos> = Vec::new();
        let mut i: usize = 0;
        while i < n_cells
            invariant
                *self == *old(self),
                i <= n_cells,
                forall|t: int| 0 <= t < synth@.len() ==> cand.contains(#[trigger] synth@[t]),
                synth@.no_duplicates(),
                forall|j: int, kk: int|
                    #![trigger e0[j], spec_offsets(rad)[kk]]
                    0 <= j < i && 0 <= kk < noffs ==> {
                        let o = spec_offsets(rad)[kk];
                        (shift_valid(e0[j].0, o) && !m0.dom().contains(shift(e0[j].0, o)))
                            ==> synth@.contains(shift(e0[j].0, o))
                    },
            decreases n_cells - i,
        {
            let c: Pos = self.cells.entries[i].0;
            proof {
                lemma_entry_in_map(e0, i as int);
            }
            let mut k: usize = 0;
            while k < noffs
                invariant
                    *self == *old(self),
                    i < n_cells,
                    k <= noffs,
                    c == e0[i as int].0,
                    forall|t: int| 0 <= t < synth@.len() ==> cand.contains(#[trigger] synth@[t]),
                    synth@.no_duplicates(),
                    forall|j: int, kk: int|
                        #![trigger e0[j], spec_offsets(rad)[kk]]
                        0 <= j < i && 0 <= kk < noffs ==> {
                            let o = spec_offsets(rad)[kk];
                            (shift_valid(e0[j].0, o) && !m0.dom().contains(shift(e0[j].0, o)))
                                ==> synth@.contains(shift(e0[j].0, o))
                        },
                    forall|kk: int|
                        #![trigger spec_offsets(rad)[kk]]
                        0 <= kk < k ==> {
                            let o = spec_offsets(rad)[kk];
                            (shift_valid(c, o) && !m0.dom().contains(shift(c, o)))
                                ==> synth@.contains(shift(c, o))
                        },
                decreases noffs - k,
            {
                let (dx, dy) = offs[k];
                let ghost o: (int, int) = spec_offsets(rad)[k as int];
                proof {
                    assert(o == (dx as int, dy as int));
                }
                match (c.0.checked_add_signed(dx), c.1.checked_add_signed(dy)) {
                    (Some(x), Some(y)) => {
                        let p = (x, y);
                        proof {
                            assert(shift_valid(c, o) && shift(c, o) == p);
                        }
                        if !self.cells.contains_key(p) {
                            proof {
                                lemma_offsets_bounded(rad, k as int);
                                assert(chebyshev_within(p, c, rad));
                                assert(m0.dom().contains(c));
                                assert(cand.contains(p));
                            }
                            if !pos_vec_contains(&synth, p) {
                                let ghost synth_pre: Seq<Pos> = synth@;
                                synth.push(p);
                                proof {
                                    assert forall|t: int|
                                        0 <= t < synth@.len() implies cand.contains(
                                        #[trigger] synth@[t],
                                    ) by {
                                        if t < synth@.len() - 1 {
                                            assert(synth@[t] == synth_pre[t]);
                                        }
                                    }
                                    assert(synth@.no_duplicates()) by {
                                        assert forall|t1: int, t2: int|
                                            0 <= t1 < t2 < synth@.len() implies synth@[t1]
                                            != synth@[t2] by {
                                            if t2 < synth@.len() - 1 {
                                                assert(synth@[t1] == synth_pre[t1]);
                                                assert(synth@[t2] == synth_pre[t2]);
                                            } else {
                                                assert(synth@[t1] == synth_pre[t1]);
                                                assert(!synth_pre.contains(p));
                                            }
                                        }
                                    }
                                    assert forall|t: Pos|
                                        synth_pre.contains(t) implies synth@.contains(t) by {
                                        let ti = choose|ti: int|
                                            0 <= ti < synth_pre.len() && synth_pre[ti] == t;
                                        assert(synth@[ti] == t);
                                    }
                                    assert(synth@[synth@.len() - 1] == p);
                                    assert(synth@.contains(p));
                                }
                            }
                        }
                    },
                    _ => {
                        proof {
                            assert(!shift_valid(c, o));
                        }
                    },
                }
                k += 1;
            }
            i += 1;
        }
        let ghost synth0: Seq<Pos> = synth@;
        proof {
            // Completeness: every synthetic candidate was collected.
            assert forall|p: Pos| cand.contains(p) implies synth0.contains(p) by {
                let q = choose|q: Pos|
                    #[trigger] m0.dom().contains(q) && chebyshev_within(p, q, rad);
                let j = choose|j: int| 0 <= j < e0.len() && (#[trigger] e0[j]).0 == q;
                let o = (p.0 - q.0, p.1 - q.1);
                lemma_offset_index(rad, o);
                let kk = choose|kk: int|
                    0 <= kk < spec_offsets(rad).len() && #[trigger] spec_offsets(rad)[kk] == o;
                assert(shift_valid(q, o) && shift(q, o) == p);
                assert(e0[j].0 == q && spec_offsets(rad)[kk] == o);
            }
        }

        // Observation phase: one observation per occupied cell and per
        // synthetic candidate, all against the pre-step mapping.
        let mut obs_occ: Vec<D> = Vec::new();
        let mut i: usize = 0;
        while i < n_cells
            invariant
                *self == *old(self),
                i == obs_occ@.len(),
                i <= n_cells,
                forall|j: int|
                    0 <= j < i ==> call_ensures(
                        old(self).spec_data_fn(),
                        (e0[j].0, Some(&e0[j].1), &old(self).spec_grid()),
                        #[trigger] obs_occ@[j],
                    ),
            decreases n_cells - i,
        {
            let e = &self.cells.entries[i];
            proof {
                assert(call_requires(
                    old(self).spec_data_fn(),
                    (e0[i as int].0, Some(&e0[i as int].1), &old(self).spec_grid()),
                ));
            }
            let d = (self.data_fn)(e.0, Some(&e.1), &self.cells);
            obs_occ.push(d);
            i += 1;
        }
        let mut obs_syn: Vec<D> = Vec::new();
        let n_synth = synth.len();
        let mut i: usize = 0;
        while i < n_synth
            invariant
                *self == *old(self),
                i == obs_syn@.len(),
                i <= n_synth,
                n_synth == synth0.len(),
                synth@ == synth0,
                forall|t: int|
                    0 <= t < i ==> call_ensures(
                        old(self).spec_data_fn(),
                        (synth0[t], None::<&S>, &old(self).spec_grid()),
                        #[trigger] obs_syn@[t],
                    ),
            decreases n_synth - i,
        {
            let p = synth[i];
            proof {
                assert(call_requires(
                    old(self).spec_data_fn(),
                    (synth0[i as int], None::<&S>, &old(self).spec_grid()),
                ));
            }
            let d = (self.data_fn)(p, None, &self.cells);
            obs_syn.push(d);
            i += 1;
        }
        let ghost dvals_occ: Seq<D> = obs_occ@;
        let ghost dvals_syn: Seq<D> = obs_syn@;

        // Transition phase: drain the occupied mapping, pairing each old
        // state with its own observation; survivors are re-inserted.
        let mut es: Vec<(Pos, S)> = Vec::new();
        core::mem::swap(&mut self.cells.entries, &mut es);
        proof {
            assert(self.cells@ =~= Map::<Pos, S>::empty());
            assert(es@ == e0.take(es@.len() as int)) by {
                assert(e0.take(e0.len() as int) =~= e0);
            }
            assert(dvals_occ.take(es@.len() as int) =~= dvals_occ);
        }
        while es.len() > 0
            invariant
                self.spec_radius() == old(self).spec_radius(),
                self.spec_data_fn() == old(self).spec_data_fn(),
                self.spec_step_fn() == old(self).spec_step_fn(),
                self.spec_generations_left() == old(self).spec_generations_left(),
                es@.len() <= e0.len(),
                dvals_occ.len() == e0.len(),
                es@ == e0.take(es@.len() as int),
                obs_occ@.len() == es@.len(),
                obs_occ@ == dvals_occ.take(es@.len() as int),
                forall|j: int|
                    #![trigger e0[j]]
                    es@.len() <= j < e0.len() ==> call_ensures(
                        old(self).spec_step_fn(),
                        (e0[j].0, Some(e0[j].1), dvals_occ[j]),
                        if self.cells@.dom().contains(e0[j].0) {
                            Some(self.cells@[e0[j].0])
                        } else {
                            None::<S>
                        },
                    ),
                forall|p: Pos|
                    #[trigger] self.cells@.dom().contains(p) ==> exists|j: int|
                        es@.len() <= j < e0.len() && (#[trigger] e0[j]).0 == p,
            decreases es@.len(),
        {
            let ghost m_pre: Map<Pos, S> = self.cells@;
            let pr = es.pop().unwrap();
            let d = obs_occ.pop().unwrap();
            let ghost j: int = es@.len() as int;
            proof {
                assert(e0.take(j + 1).last() == e0[j]);
                assert(pr == e0[j]);
                assert(d == dvals_occ[j]);
                assert(es@ =~= e0.take(j));
                assert(obs_occ@ =~= dvals_occ.take(j));
                assert(call_requires(old(self).spec_step_fn(), (pr.0, Some(pr.1), d)));
            }
            let (p, s) = pr;
            let ns = (self.step_fn)(p, Some(s), d);
            let ghost ns_g: Option<S> = ns;
            match ns {
                Some(v) => {
                    self.cells.insert(p, v);
                },
                None => {},
            }
            proof {
                assert forall|j2: int|
                    #![trigger e0[j2]]
                    es@.len() <= j2 < e0.len() implies call_ensures(
                    old(self).spec_step_fn(),
                    (e0[j2].0, Some(e0[j2].1), dvals_occ[j2]),
                    if self.cells@.dom().contains(e0[j2].0) {
                        Some(self.cells@[e0[j2].0])
                    } else {
                        None::<S>
                    },
                ) by {
                    if j2 == j {
                        match ns_g {
                            Some(v) => {
                                assert(self.cells@ == m_pre.insert(p, v));
                            },
                            None => {
                                if self.cells@.dom().contains(p) {
                                    let jw = choose|jw: int|
                                        j + 1 <= jw < e0.len() && (#[trigger] e0[jw]).0 == p;
                                    assert(false);
                                }
                            },
                        }
                    } else {
                        assert(e0[j2].0 != p);
                        if m_pre.dom().contains(e0[j2].0) {
                            assert(self.cells@.dom().contains(e0[j2].0) && self.cells@[e0[j2].0]
                                == m_pre[e0[j2].0]);
                        } else {
                            assert(!self.cells@.dom().contains(e0[j2].0));
                        }
                    }
                }
                assert forall|q: Pos| #[trigger] self.cells@.dom().contains(q) implies exists|
                    j2: int,
                |
                    es@.len() <= j2 < e0.len() && (#[trigger] e0[j2]).0 == q by {
                    if q == p {
                        assert(es@.len() <= j < e0.len() && e0[j].0 == q);
                    } else {
                        assert(m_pre.dom().contains(q));
                    }
                }
            }
        }
        let ghost m_mid: Map<Pos, S> = self.cells@;
        proof {
            assert(synth0.take(synth0.len() as int) =~= synth0);
            assert(dvals_syn.take(synth0.len() as int) =~= dvals_syn);
        }

        // Birth phase: each synthetic candidate may become occupied.
        while synth.len() > 0
            invariant
                self.spec_radius() == old(self).spec_radius(),
                self.spec_data_fn() == old(self).spec_data_fn(),
                self.spec_step_fn() == old(self).spec_step_fn(),
                self.spec_generations_left() == old(self).spec_generations_left(),
                synth@.len() <= synth0.len(),
                dvals_syn.len() == synth0.len(),
                synth@ == synth0.take(synth@.len() as int),
                obs_syn@.len() == synth@.len(),
                obs_syn@ == dvals_syn.take(synth@.len() as int),
                forall|j: int|
                    #![trigger e0[j]]
                    0 <= j < e0.len() ==> call_ensures(
                        old(self).spec_step_fn(),
                        (e0[j].0, Some(e0[j].1), dvals_occ[j]),
                        if self.cells@.dom().contains(e0[j].0) {
                            Some(self.cells@[e0[j].0])
                        } else {
                            None::<S>
                        },
                    ),
                forall|t: int|
                    #![trigger synth0[t]]
                    synth@.len() <= t < synth0.len() ==> call_ensures(
                        old(self).spec_step_fn(),
                        (synth0[t], None::<S>, dvals_syn[t]),
                        if self.cells@.dom().contains(synth0[t]) {
                            Some(self.cells@[synth0[t]])
                        } else {
                            None::<S>
                        },
                    ),
                forall|p: Pos|
                    #[trigger] self.cells@.dom().contains(p) ==> m_mid.dom().contains(p) || (
                    exists|t: int|
                        synth@.len() <= t < synth0.len() && #[trigger] synth0[t] == p),
            decreases synth@.len(),
        {
            let ghost m_pre: Map<Pos, S> = self.cells@;
            let p = synth.pop().unwrap();
            let d = obs_syn.pop().unwrap();
            let ghost t: int = synth@.len() as int;
            proof {
                assert(synth0.take(t + 1).last() == synth0[t]);
                assert(p == synth0[t]);
                assert(d == dvals_syn[t]);
                assert(synth@ =~= synth0.take(t));
                assert(obs_syn@ =~= dvals_syn.take(t));
                assert(cand.contains(p) && !m0.dom().contains(p));
                assert(call_requires(old(self).spec_step_fn(), (p, None::<S>, d)));
            }
            let ns = (self.step_fn)(p, None, d);
            let ghost ns_g: Option<S> = ns;
            match ns {
                Some(v) => {
                    self.cells.insert(p, v);
                },
                None => {},
            }
            proof {
                assert forall|j: int|
                    #![trigger e0[j]]
                    0 <= j < e0.len() implies call_ensures(
                    old(self).spec_step_fn(),
                    (e0[j].0, Some(e0[j].1), dvals_occ[j]),
                    if self.cells@.dom().contains(e0[j].0) {
                        Some(self.cells@[e0[j].0])
                    } else {
                        None::<S>
                    },
                ) by {
                    lemma_entry_in_map(e0, j);
                    assert(m0.dom().contains(e0[j].0));
                    assert(e0[j].0 != p);
                }
                assert forall|t2: int|
                    #![trigger synth0[t2]]
                    synth@.len() <= t2 < synth0.len() implies call_ensures(
                    old(self).spec_step_fn(),
                    (synth0[t2], None::<S>, dvals_syn[t2]),
                    if self.cells@.dom().contains(synth0[t2]) {
                        Some(self.cells@[synth0[t2]])
                    } else {
                        None::<S>
                    },
                ) by {
                    if t2 == t {
                        match ns_g {
                            Some(v) => {
                                assert(self.cells@ == m_pre.insert(p, v));
                            },
                            None => {
                                if self.cells@.dom().contains(p) {
                                    if m_mid.dom().contains(p) {
                                        let jw = choose|jw: int|
                                            0 <= jw < e0.len() && (#[trigger] e0[jw]).0 == p;
                                        assert(m0.dom().contains(p));
                                        assert(false);
                                    } else {
                                        let tw = choose|tw: int|
                                            t + 1 <= tw < synth0.len() && #[trigger] synth0[tw]
                                                == p;
                                        assert(false);
                                    }
                                }
                            },
                        }
                    } else {
                        assert(synth0[t2] != p);
                    }
                }
                assert forall|q: Pos| #[trigger] self.cells@.dom().contains(q) implies
                    m_mid.dom().contains(q) || (exists|t2: int|
                    synth@.len() <= t2 < synth0.len() && #[trigger] synth0[t2] == q) by {
                    if q == p {
                        assert(synth@.len() <= t < synth0.len() && synth0[t] == q);
                    } else {
                        assert(m_pre.dom().contains(q));
                    }
                }
            }
        }

        let r = advance_generations(&mut self.generations_left);

        proof {
            // Every occupied cell of the old mapping went through the rule.
            assert forall|p: Pos| #[trigger] m0.dom().contains(p) implies Self::occupied_stepped(
                *old(self),
                *self,
                p,
            ) by {
                let j = choose|j: int| 0 <= j < e0.len() && (#[trigger] e0[j]).0 == p;
                lemma_entry_in_map(e0, j);
                let d = dvals_occ[j];
                assert(call_ensures(
                    old(self).spec_data_fn(),
                    (p, Some(&old(self).spec_cells()[p]), &old(self).spec_grid()),
                    d,
                ));
                assert(call_ensures(
                    old(self).spec_step_fn(),
                    (p, Some(old(self).spec_cells()[p]), d),
                    if self.spec_cells().dom().contains(p) {
                        Some(self.spec_cells()[p])
                    } else {
                        None::<S>
                    },
                ));
            }
            // Every synthetic candidate went through the rule.
            assert forall|p: Pos| #[trigger] cand.contains(p) implies Self::synthetic_stepped(
                *old(self),
                *self,
                p,
            ) by {
                assert(synth0.contains(p));
                let t = choose|t: int| 0 <= t < synth0.len() && synth0[t] == p;
                let d = dvals_syn[t];
                assert(call_ensures(
                    old(self).spec_data_fn(),
                    (p, None::<&S>, &old(self).spec_grid()),
                    d,
                ));
                assert(call_ensures(
                    old(self).spec_step_fn(),
                    (p, None::<S>, d),
                    if self.spec_cells().dom().contains(p) {
                        Some(self.spec_cells()[p])
                    } else {
                        None::<S>
                    },
                ));
            }
            // Nothing else became occupied.
            assert forall|p: Pos| #[trigger] self.spec_cells().dom().contains(p) implies
                m0.dom().contains(p) || cand.contains(p) by {
                if m_mid.dom().contains(p) {
                    let j = choose|j: int| 0 <= j < e0.len() && (#[trigger] e0[j]).0 == p;
                    lemma_entry_in_map(e0, j);
                } else {
                    let t = choose|t: int| 0 <= t < synth0.len() && #[trigger] synth0[t] == p;
                    assert(cand.contains(synth0[t]));
                }
            }
        }
        r
    }

    /// Returns an immutable reference to the grid of occupied cells.
    pub fn cells(&self) -> (r: &Grid<S>)
        ensures
            r == self.spec_grid(),
    {
        &self.cells
    }

    /// Whether the generation bound exists and has reached zero.
    pub fn is_finished(&self) -> (r: bool)
        ensures
            r == (self.spec_generations_left() == Some(0u32)),
    {
        match self.generations_left {
            Some(n) => n == 0,
            None => false,
        }
    }
}

/// A helper struct for building a life-like [`Automaton`]: the radius stage.
pub struct AutomatonBuilder {
    radius: u8,
}

impl AutomatonBuilder {
    /// The neighbor radius the built automaton will use.
    pub closed spec fn spec_radius(self) -> u8 {
        self.radius
    }

    /// Creates a builder with the given neighbor radius.
    pub fn new(radius: u8) -> (r: Self)
        ensures
            r.spec_radius() == radius,
    {
        Self { radius }
    }

    /// Initializes the occupied mapping with the grid the given producer
    /// returns.
    ///
    /// Returns an [`InitBuilder<S>`].
    pub fn init<S, F: FnOnce() -> Grid<S>>(self, init_fn: F) -> (r: InitBuilder<S>)
        requires
            call_requires(init_fn, ()),
        ensures
            r.spec_radius() == self.spec_radius(),
            r.spec_generations_limit() == None::<u32>,
            call_ensures(init_fn, (), r.spec_grid()),
    {
        InitBuilder { radius: self.radius, cells: init_fn(), generations_limit: None }
    }
}

/// An initialized life-like automaton builder.
pub struct InitBuilder<S> {
    radius: u8,
    cells: Grid<S>,
    generations_limit: Option<u32>,
}

impl<S> InitBuilder<S> {
    /// The neighbor radius the built automaton will use.
    pub closed spec fn spec_radius(self) -> u8 {
        self.radius
    }

    /// The grid of occupied cells the built automaton will start from.
    pub closed spec fn spec_grid(self) -> Grid<S> {
        self.cells
    }

    /// The configured generation limit, if any.
    pub closed spec fn spec_generations_limit(self) -> Option<u32> {
        self.generations_limit
    }

    /// Returns a [`MappedBuilder<S, D>`] with the given observation function
    /// returning a value of type `D`.
    pub fn map<D, DF: Fn(Pos, Option<&S>, &Grid<S>) -> D>(self, data_fn: DF) -> (r: MappedBuilder<
        S,
        D,
        DF,
    >)
        ensures
            r.spec_radius() == self.spec_radius(),
            r.spec_grid() == self.spec_grid(),
            r.spec_data_fn() == data_fn,
            r.spec_generations_limit() == self.spec_generations_limit(),
    {
        MappedBuilder {
            radius: self.radius,
            cells: self.cells,
            data_fn,
            generations_limit: self.generations_limit,
            observation: PhantomData,
        }
    }

    /// Sets a limit on the number of generations that the automaton will
    /// produce.
    pub fn generations(self, generations_limit: u32) -> (r: Self)
        ensures
            r.spec_radius() == self.spec_radius(),
            r.spec_grid() == self.spec_grid(),
            r.spec_generations_limit() == Some(generations_limit),
    {
        Self {
            radius: self.radius,
            cells: self.cells,
            generations_limit: Some(generations_limit),
        }
    }
}

/// A life-like builder with a grid and an observation function attached.
///
/// This is the final stage of automaton creation.
pub struct MappedBuilder<S, D, DF> {
    radius: u8,
    cells: Grid<S>,
    data_fn: DF,
    generations_limit: Option<u32>,
    observation: PhantomData<D>,
}

impl<S, D, DF: Fn(Pos, Option<&S>, &Grid<S>) -> D> MappedBuilder<S, D, DF> {
    /// The neighbor radius the built automaton will use.
    pub closed spec fn spec_radius(self) -> u8 {
        self.radius
    }

    /// The grid of occupied cells the built automaton will start from.
    pub closed spec fn spec_grid(self) -> Grid<S> {
        self.cells
    }

    /// The observation function the built automaton will use.
    pub closed spec fn spec_data_fn(self) -> DF {
        self.data_fn
    }

    /// The configured generation limit, if any.
    pub closed spec fn spec_generations_limit(self) -> Option<u32> {
        self.generations_limit
    }

    /// Returns an [`Automaton<S, D>`] using the information contained in
    /// `self` and the given step function.
    pub fn run<SF: Fn(Pos, Option<S>, D) -> Option<S>>(self, step_fn: SF) -> (r: Automaton<
        S,
        D,
        DF,
        SF,
    >)
        ensures
            r.spec_grid() == self.spec_grid(),
            r.spec_radius() == self.spec_radius(),
            r.spec_data_fn() == self.spec_data_fn(),
            r.spec_step_fn() == step_fn,
            r.spec_generations_left() == self.spec_generations_limit(),
    {
        Automaton {
            radius: self.radius,
            cells: self.cells,
            generations_left: self.generations_limit,
            data_fn: self.data_fn,
            step_fn,
            observation: PhantomData,
        }
    }

    /// Sets a limit on the number of generations that the automaton will
    /// produce.
    pub fn generations(self, generations_limit: u32) -> (r: Self)
        ensures
            r.spec_radius() == self.spec_radius(),
            r.spec_grid() == self.spec_grid(),
            r.spec_data_fn() == self.spec_data_fn(),
            r.spec_generations_limit() == Some(generations_limit),
    {
        Self {
            radius: self.radius,
            cells: self.cells,
            data_fn: self.data_fn,
            generations_limit: Some(generations_limit),
            observation: PhantomData,
        }
    }
}

/// Whether the offset `o` leads, from the center `pos`, to a representable
/// position other than the center itself that is occupied in the mapping.
/// Offsets that would leave the non-negative coordinate range never hit.
pub open spec fn sparse_occupied_cond<S>(m: Map<Pos, S>, pos: Pos) -> spec_fn((int, int)) -> bool {
    |o: (int, int)|
        {
            let x = pos.0 + o.0;
            let y = pos.1 + o.1;
            &&& o != (0int, 0int)
            &&& 0 <= x <= usize::MAX
            &&& 0 <= y <= usize::MAX
            &&& m.dom().contains(((x as usize, y as usize)))
        }
}

/// How many positions of the square window of the given radius around `pos`,
/// center excluded, are occupied in the mapping.
pub open spec fn spec_count_neighbors<S>(m: Map<Pos, S>, pos: Pos, radius: int) -> nat {
    count_true(spec_offsets(radius), sparse_occupied_cond(m, pos))
}

/// Counts all neighbors of `pos` within the given radius using a sparse grid
/// containing only the occupied cells.
#[verifier::loop_isolation(false)]
pub fn count_neighbors<S>(pos: Pos, radius: u8, grid: &Grid<S>) -> (r: u32)
    ensures
        r == spec_count_neighbors(grid@, pos, radius as int),
{
    let ghost rad: int = radius as int;
    let ghost cond = sparse_occupied_cond(grid@, pos);
    let offs = square_offsets(radius);
    let total = offs.len();
    proof {
        assert(window(rad) * window(rad) <= 511 * 511) by (nonlinear_arith)
            requires
                0 < window(rad) <= 511,
        ;
    }
    let mut count: u32 = 0;
    let mut k: usize = 0;
    while k < total
        invariant
            count <= k <= total,
            count == count_true(spec_offsets(rad).take(k as int), cond),
        decreases total - k,
    {
        let (dx, dy) = offs[k];
        let ghost o: (int, int) = spec_offsets(rad)[k as int];
        proof {
            assert(o == (dx as int, dy as int));
        }
        let c: bool = match (pos.0.checked_add_signed(dx), pos.1.checked_add_signed(dy)) {
            (Some(x), Some(y)) => {
                if x == pos.0 && y == pos.1 {
                    false
                } else {
                    grid.contains_key((x, y))
                }
            },
            _ => false,
        };
        proof {
            assert(c == cond(o));
            lemma_count_true_take_step(spec_offsets(rad), cond, k as int);
        }
        if c {
            count += 1;
        }
        k += 1;
    }
    proof {
        assert(spec_offsets(rad).take(spec_offsets(rad).len() as int) =~= spec_offsets(rad));
    }
    count
}

/// Neighbor-count agreement: when the occupied positions of a sparse mapping
/// are exactly the cells of a dense grid whose state satisfies `p`, and the
/// whole window around `pos` lies on the dense grid, the dense and the sparse
/// neighbor counts are the same.
pub proof fn lemma_count_agreement<S, T>(
    g: Seq<Vec<S>>,
    m: Map<Pos, T>,
    pos: Pos,
    radius: int,
    p: spec_fn(S) -> bool,
)
    requires
        0 <= radius <= u8::MAX,
        radius <= pos.0,
        radius <= pos.1,
        pos.0 + radius <= usize::MAX,
        pos.1 + radius <= usize::MAX,
        pos.1 + radius < g.len(),
        forall|y: int| 0 <= y < g.len() ==> pos.0 + radius < (#[trigger] g[y])@.len(),
        forall|q: Pos|
            #[trigger] m.dom().contains(q) <==> (q.1 < g.len() && q.0 < g[q.1 as int]@.len() && p(
                g[q.1 as int]@[q.0 as int],
            )),
    ensures
        crate::engine::generic::spec_count_neighbors(g, pos, radius, p) == spec_count_neighbors(
            m,
            pos,
            radius,
        ),
{
    let offs = spec_offsets(radius);
    let dense = crate::engine::generic::dense_alive_cond(g, pos, p);
    let sparse = sparse_occupied_cond(m, pos);
    assert forall|o: (int, int)| #[trigger] offs.contains(o) implies (dense(o) <==> sparse(o)) by {
        let k = choose|k: int| 0 <= k < offs.len() && offs[k] == o;
        lemma_offsets_bounded(radius, k);
        let x = pos.0 + o.0;
        let y = pos.1 + o.1;
        assert(0 <= x <= usize::MAX && 0 <= y <= usize::MAX);
        assert(0 <= y < g.len() && 0 <= x < g[y]@.len());
        let q: Pos = ((x as usize, y as usize));
        assert(m.dom().contains(q) <==> (q.1 < g.len() && q.0 < g[q.1 as int]@.len() && p(
            g[q.1 as int]@[q.0 as int],
        )));
        assert(q.0 == x && q.1 == y);
    }
    lemma_count_true_congruent(offs, dense, sparse);
}

} // verus!
