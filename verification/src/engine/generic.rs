//! The dense automaton engine: every cell of a fixed rectangle holds a state.

use vstd::prelude::*;

use crate::engine::{
    advance_generations, count_true, spec_advance, spec_offsets, window, ExecutionState, Pos,
};
use core::marker::PhantomData;

verus! {

/// A dense grid: an ordered sequence of rows, each an ordered sequence of
/// cell states. Row `y` holds the states of the cells `(x, y)`.
pub type Grid<T> = Vec<Vec<T>>;

/// The dimensions `(width, height)` of a dense grid, where the width is the
/// length of the first row, or `(0, 0)` for a grid with no rows.
pub open spec fn spec_grid_size<S>(g: Seq<Vec<S>>) -> (int, int) {
    if g.len() == 0 {
        (0int, 0int)
    } else {
        (g[0]@.len() as int, g.len() as int)
    }
}

/// `f` computes the pointwise predicate `p`: whenever `f` returns `b` on a
/// state, `b` agrees with `p` on that state.
pub open spec fn decides<S, F: Fn(&S) -> bool>(f: F, p: spec_fn(S) -> bool) -> bool {
    forall|s: S, b: bool| #[trigger] call_ensures(f, (&s,), b) ==> b == p(s)
}

/// Whether the offset `o` hits, from the center `pos`, a cell of the grid
/// that is not the center itself and whose state satisfies `p`. Coordinates
/// out of the non-negative range, or beyond the row holding them, never hit.
pub open spec fn dense_alive_cond<S>(g: Seq<Vec<S>>, pos: Pos, p: spec_fn(S) -> bool) -> spec_fn(
    (int, int),
) -> bool {
    |o: (int, int)|
        {
            let x = pos.0 + o.0;
            let y = pos.1 + o.1;
            &&& o != (0int, 0int)
            &&& 0 <= y < g.len()
            &&& 0 <= x < g[y]@.len()
            &&& p(g[y]@[x])
        }
}

/// How many cells of the square window of the given radius around `pos`,
/// center excluded, lie on the grid and satisfy `p`.
pub open spec fn spec_count_neighbors<S>(
    g: Seq<Vec<S>>,
    pos: Pos,
    radius: int,
    p: spec_fn(S) -> bool,
) -> nat {
    count_true(spec_offsets(radius), dense_alive_cond(g, pos, p))
}

/// The main struct that contains the state of a dense automaton.
///
/// Use [`AutomatonBuilder`] for an easier creation process.
pub struct Automaton<S, D, DF, SF> {
    cells: Grid<S>,
    generations_left: Option<u32>,
    step_fn: SF,
    data_fn: DF,
    observation: PhantomData<D>,
}

impl<S, D, DF, SF> Automaton<S, D, DF, SF> where
    DF: Fn(Pos, &S, &Grid<S>) -> D,
    SF: Fn(Pos, S, D) -> S,
 {
    /// The cell grid, as the value the observation function receives.
    pub closed spec fn spec_grid(self) -> Grid<S> {
        self.cells
    }

    /// The rows of the cell grid.
    pub open spec fn spec_cells(self) -> Seq<Vec<S>> {
        self.spec_grid()@
    }

    /// The state of the cell `(x, y)`.
    pub open spec fn cell(self, x: int, y: int) -> S {
        self.spec_cells()[y]@[x]
    }

    /// The generations-remaining counter; `None` means unbounded.
    pub closed spec fn spec_generations_left(self) -> Option<u32> {
        self.generations_left
    }

    /// The observation function.
    pub closed spec fn spec_data_fn(self) -> DF {
        self.data_fn
    }

    /// The step function.
    pub closed spec fn spec_step_fn(self) -> SF {
        self.step_fn
    }

    /// Returns a builder to help construct an automaton.
    pub fn build(grid_size: Pos) -> (r: AutomatonBuilder)
        ensures
            r.spec_grid_size() == grid_size,
    {
        AutomatonBuilder::new(grid_size)
    }

    /// Both rule functions accept every argument they can be handed.
    pub open spec fn rules_total(self) -> bool {
        &&& forall|pos: Pos, s: S, g: Grid<S>|
            #[trigger] call_requires(self.spec_data_fn(), (pos, &s, &g))
        &&& forall|pos: Pos, s: S, d: D| #[trigger] call_requires(self.spec_step_fn(), (pos, s, d))
    }

    /// The cell `(x, y)` of `post` is a result of the step function applied
    /// to the same cell of `pre` and an observation that the observation
    /// function computed for it against the whole grid of `pre`.
    pub open spec fn cell_stepped(pre: Self, post: Self, x: int, y: int) -> bool {
        exists|d: D|
            {
                &&& #[trigger] call_ensures(
                    pre.spec_data_fn(),
                    ((x as usize, y as usize), &pre.cell(x, y), &pre.spec_grid()),
                    d,
                )
                &&& call_ensures(
                    pre.spec_step_fn(),
                    ((x as usize, y as usize), pre.cell(x, y), d),
                    post.cell(x, y),
                )
            }
    }

    /// How one step transforms the grid: the shape is kept, and every cell is
    /// replaced by a result of the two-phase observe-then-transition rule
    /// evaluated against the pre-step grid.
    pub open spec fn step_rel(pre: Self, post: Self) -> bool {
        &&& post.spec_cells().len() == pre.spec_cells().len()
        &&& forall|y: int|
            0 <= y < pre.spec_cells().len() ==> #[trigger] post.spec_cells()[y]@.len()
                == pre.spec_cells()[y]@.len()
        &&& forall|y: int, x: int|
            0 <= y < pre.spec_cells().len() && 0 <= x < pre.spec_cells()[y]@.len()
                ==> #[trigger] Self::cell_stepped(pre, post, x, y)
    }

    /// Computes the next generation and reports the execution state.
    ///
    /// All observations for the generation are computed against the pre-step
    /// grid before any cell is replaced, and each observation is consumed
    /// exactly once, by the step function of its own cell.
    #[verifier::loop_isolation(false)]
    pub fn step(&mut self) -> (r: ExecutionState)
        requires
            old(self).rules_total(),
        ensures
            Self::step_rel(*old(self), *final(self)),
            final(self).spec_data_fn() == old(self).spec_data_fn(),
            final(self).spec_step_fn() == old(self).spec_step_fn(),
            (final(self).spec_generations_left(), r) == spec_advance(
                old(self).spec_generations_left(),
            ),
    {
        let ghost g0: Seq<Vec<S>> = self.cells@;

        // Observation phase: one observation per cell, all against the
        // current grid.
        let mut data: Vec<Vec<D>> = Vec::new();
        let mut y: usize = 0;
        while y < self.cells.len()
            invariant
                *self == *old(self),
                y == data@.len(),
                y <= g0.len(),
                forall|yy: int| 0 <= yy < y ==> #[trigger] data@[yy]@.len() == g0[yy]@.len(),
                forall|yy: int, xx: int|
                    0 <= yy < y && 0 <= xx < g0[yy]@.len() ==> call_ensures(
                        old(self).spec_data_fn(),
                        ((xx as usize, yy as usize), &g0[yy]@[xx], &old(self).spec_grid()),
                        #[trigger] data@[yy]@[xx],
                    ),
            decreases g0.len() - y,
        {
            let mut row_data: Vec<D> = Vec::new();
            let mut x: usize = 0;
            while x < self.cells[y].len()
                invariant
                    *self == *old(self),
                    y < g0.len(),
                    x == row_data@.len(),
                    x <= g0[y as int]@.len(),
                    forall|xx: int|
                        0 <= xx < x ==> call_ensures(
                            old(self).spec_data_fn(),
                            ((xx as usize, y as usize), &g0[y as int]@[xx], &old(self).spec_grid()),
                            #[trigger] row_data@[xx],
                        ),
                decreases g0[y as int]@.len() - x,
            {
                proof {
                    assert(call_requires(
                        old(self).spec_data_fn(),
                        ((x, y), &g0[y as int]@[x as int], &old(self).spec_grid()),
                    ));
                }
                let d = (self.data_fn)((x, y), &self.cells[y][x], &self.cells);
                row_data.push(d);
                x += 1;
            }
            data.push(row_data);
            y += 1;
        }
        let ghost d0: Seq<Vec<D>> = data@;

        // Transition phase: consume each old state together with its own
        // observation, in row-major order.
        let mut old_cells: Grid<S> = Vec::new();
        core::mem::swap(&mut old_cells, &mut self.cells);
        let mut new_cells: Grid<S> = Vec::new();
        while old_cells.len() > 0
            invariant
                self.spec_step_fn() == old(self).spec_step_fn(),
                new_cells@.len() + old_cells@.len() == g0.len(),
                old_cells@ =~= g0.subrange(new_cells@.len() as int, g0.len() as int),
                data@ =~= d0.subrange(new_cells@.len() as int, g0.len() as int),
                forall|yy: int|
                    0 <= yy < new_cells@.len() ==> #[trigger] new_cells@[yy]@.len()
                        == g0[yy]@.len(),
                forall|yy: int, xx: int|
                    0 <= yy < new_cells@.len() && 0 <= xx < g0[yy]@.len() ==> call_ensures(
                        old(self).spec_step_fn(),
                        ((xx as usize, yy as usize), g0[yy]@[xx], d0[yy]@[xx]),
                        #[trigger] new_cells@[yy]@[xx],
                    ),
            decreases old_cells@.len(),
        {
            let ghost yg: int = new_cells@.len() as int;
            let mut row = old_cells.remove(0);
            let mut drow = data.remove(0);
            proof {
                assert(row@ == g0[yg]@);
                assert(drow@ == d0[yg]@);
                assert(old_cells@ =~= g0.subrange(yg + 1, g0.len() as int));
                assert(data@ =~= d0.subrange(yg + 1, g0.len() as int));
            }
            let mut new_row: Vec<S> = Vec::new();
            let y = new_cells.len();
            while row.len() > 0
                invariant
                    self.spec_step_fn() == old(self).spec_step_fn(),
                    y == new_cells@.len(),
                    yg == y as int,
                    new_row@.len() + row@.len() == g0[yg]@.len(),
                    row@ =~= g0[yg]@.subrange(new_row@.len() as int, g0[yg]@.len() as int),
                    drow@ =~= d0[yg]@.subrange(new_row@.len() as int, g0[yg]@.len() as int),
                    forall|xx: int|
                        0 <= xx < new_row@.len() ==> call_ensures(
                            old(self).spec_step_fn(),
                            ((xx as usize, y as usize), g0[yg]@[xx], d0[yg]@[xx]),
                            #[trigger] new_row@[xx],
                        ),
                decreases row@.len(),
            {
                let ghost xg: int = new_row@.len() as int;
                let x = new_row.len();
                let s = row.remove(0);
                let d = drow.remove(0);
                proof {
                    assert(s == g0[yg]@[xg]);
                    assert(d == d0[yg]@[xg]);
                    assert(row@ =~= g0[yg]@.subrange(xg + 1, g0[yg]@.len() as int));
                    assert(drow@ =~= d0[yg]@.subrange(xg + 1, g0[yg]@.len() as int));
                }
                proof {
                    assert(call_requires(old(self).spec_step_fn(), ((x, y), s, d)));
                }
                let ns = (self.step_fn)((x, y), s, d);
                new_row.push(ns);
            }
            new_cells.push(new_row);
        }
        let ghost nc: Seq<Vec<S>> = new_cells@;
        proof {
            assert(nc.len() == g0.len());
            assert forall|yy: int| 0 <= yy < g0.len() implies #[trigger] nc[yy]@.len()
                == g0[yy]@.len() by {
                assert(nc[yy] == new_cells@[yy]);
            }
            assert forall|yy: int, xx: int|
                0 <= yy < g0.len() && 0 <= xx < g0[yy]@.len() implies call_ensures(
                old(self).spec_step_fn(),
                ((xx as usize, yy as usize), g0[yy]@[xx], #[trigger] d0[yy]@[xx]),
                nc[yy]@[xx],
            ) by {
                assert(nc[yy]@[xx] == new_cells@[yy]@[xx]);
            }
        }
        self.cells = new_cells;

        let r = advance_generations(&mut self.generations_left);
        proof {
            assert(self.spec_cells() == nc);
            assert forall|yy: int, xx: int|
                0 <= yy < g0.len() && 0 <= xx < g0[yy]@.len() implies #[trigger] Self::cell_stepped(
                *old(self),
                *self,
                xx,
                yy,
            ) by {
                let d = d0[yy]@[xx];
                assert(call_ensures(
                    old(self).spec_data_fn(),
                    ((xx as usize, yy as usize), &g0[yy]@[xx], &old(self).spec_grid()),
                    d,
                ));
                assert(old(self).cell(xx, yy) == g0[yy]@[xx]);
                assert(self.cell(xx, yy) == nc[yy]@[xx]);
            }
            assert forall|yy: int|
                0 <= yy < g0.len() implies #[trigger] self.spec_cells()[yy]@.len()
                == g0[yy]@.len() by {
                assert(self.spec_cells()[yy] == nc[yy]);
            }
        }
        r
    }

    /// Returns an immutable reference to the cell grid.
    pub fn cells(&self) -> (r: &Grid<S>)
        ensures
            r == self.spec_grid(),
    {
        &self.cells
    }

    /// Returns the cell grid dimensions as `(width, height)`, where the
    /// width is the first row's length; a grid with no rows is `(0, 0)`.
    pub fn grid_size(&self) -> (r: (usize, usize))
        ensures
            (r.0 as int, r.1 as int) == spec_grid_size(self.spec_cells()),
    {
        if self.cells.len() == 0 {
            (0, 0)
        } else {
            (self.cells[0].len(), self.cells.len())
        }
    }

    /// Like [`grid_size()`](Self::grid_size), but without the bounds check:
    /// the grid must have at least one row.
    pub fn grid_size_unchecked(&self) -> (r: (usize, usize))
        requires
            self.spec_cells().len() > 0,
        ensures
            (r.0 as int, r.1 as int) == spec_grid_size(self.spec_cells()),
    {
        (self.cells[0].len(), self.cells.len())
    }
}

/// A helper struct for building an [`Automaton`]: the sizing stage.
pub struct AutomatonBuilder {
    grid_size: Pos,
}

impl AutomatonBuilder {
    /// The `(width, height)` the built grid will have: `grid_size.1` rows,
    /// each holding `grid_size.0` cells.
    pub closed spec fn spec_grid_size(self) -> Pos {
        self.grid_size
    }

    /// Creates a builder with the given grid size.
    pub fn new(grid_size: Pos) -> (r: Self)
        ensures
            r.spec_grid_size() == grid_size,
    {
        Self { grid_size }
    }

    /// Initializes all cells in the grid using the given function that
    /// returns a value of type `S`: the cell `(x, y)` starts as `f((x, y))`.
    /// A size of `(w, h)` gives `h` rows of `w` cells each, so the finished
    /// automaton reports the same `(w, h)` as its grid size.
    ///
    /// Returns an [`InitBuilder<S>`].
    #[verifier::loop_isolation(false)]
    pub fn init<S, F: Fn(Pos) -> S>(self, f: F) -> (r: InitBuilder<S>)
        requires
            forall|p: Pos| #[trigger] call_requires(f, (p,)),
        ensures
            r.spec_grid()@.len() == self.spec_grid_size().1,
            forall|y: int|
                0 <= y < r.spec_grid()@.len() ==> #[trigger] r.spec_grid()@[y]@.len()
                    == self.spec_grid_size().0,
            forall|y: int, x: int|
                0 <= y < r.spec_grid()@.len() && 0 <= x < self.spec_grid_size().0 ==> call_ensures(
                    f,
                    ((x as usize, y as usize),),
                    #[trigger] r.spec_grid()@[y]@[x],
                ),
    {
        let mut grid: Grid<S> = Vec::new();
        let mut y: usize = 0;
        while y < self.grid_size.1
            invariant
                y == grid@.len(),
                y <= self.grid_size.1,
                forall|yy: int| 0 <= yy < y ==> #[trigger] grid@[yy]@.len() == self.grid_size.0,
                forall|yy: int, xx: int|
                    0 <= yy < y && 0 <= xx < self.grid_size.0 ==> call_ensures(
                        f,
                        ((xx as usize, yy as usize),),
                        #[trigger] grid@[yy]@[xx],
                    ),
            decreases self.grid_size.1 - y,
        {
            let mut row: Vec<S> = Vec::new();
            let mut x: usize = 0;
            while x < self.grid_size.0
                invariant
                    y < self.grid_size.1,
                    x == row@.len(),
                    x <= self.grid_size.0,
                    forall|xx: int|
                        0 <= xx < x ==> call_ensures(
                            f,
                            ((xx as usize, y as usize),),
                            #[trigger] row@[xx],
                        ),
                decreases self.grid_size.0 - x,
            {
                proof {
                    assert(call_requires(f, ((x, y),)));
                }
                row.push(f((x, y)));
                x += 1;
            }
            grid.push(row);
            y += 1;
        }
        InitBuilder { grid }
    }
}

/// An initialized automaton builder.
pub struct InitBuilder<S> {
    grid: Grid<S>,
}

impl<S> InitBuilder<S> {
    /// The grid the built automaton will start from.
    pub closed spec fn spec_grid(self) -> Grid<S> {
        self.grid
    }

    /// Returns a [`MappedBuilder<S, D>`] with the given observation function
    /// returning a value of type `D`.
    pub fn map<D, DF: Fn(Pos, &S, &Grid<S>) -> D>(self, f: DF) -> (r: MappedBuilder<S, D, DF>)
        ensures
            r.spec_grid() == self.spec_grid(),
            r.spec_data_fn() == f,
            r.spec_generations_limit() == None::<u32>,
    {
        MappedBuilder {
            grid: self.grid,
            data_fn: f,
            generations_limit: None,
            observation: PhantomData,
        }
    }
}

/// A builder with a grid and an observation function attached.
///
/// This is the final stage of automaton creation, so it also carries the
/// optional generation limit.
pub struct MappedBuilder<S, D, DF> {
    grid: Grid<S>,
    data_fn: DF,
    generations_limit: Option<u32>,
    observation: PhantomData<D>,
}

impl<S, D, DF: Fn(Pos, &S, &Grid<S>) -> D> MappedBuilder<S, D, DF> {
    /// The grid the built automaton will start from.
    pub closed spec fn spec_grid(self) -> Grid<S> {
        self.grid
    }

    /// The observation function the built automaton will use.
    pub closed spec fn spec_data_fn(self) -> DF {
        self.data_fn
    }

    /// The configured generation limit, if any.
    pub closed spec fn spec_generations_limit(self) -> Option<u32> {
        self.generations_limit
    }

    /// Returns an [`Automaton<S, D>`] using the information contained in
    /// `self` and the given step function.
    pub fn run<SF: Fn(Pos, S, D) -> S>(self, f: SF) -> (r: Automaton<S, D, DF, SF>)
        ensures
            r.spec_grid() == self.spec_grid(),
            r.spec_data_fn() == self.spec_data_fn(),
            r.spec_step_fn() == f,
            r.spec_generations_left() == self.spec_generations_limit(),
    {
        Automaton {
            cells: self.grid,
            generations_left: self.generations_limit,
            data_fn: self.data_fn,
            step_fn: f,
            observation: PhantomData,
        }
    }

    /// Sets a limit on the number of generations that the automaton will
    /// produce.
    pub fn generations(self, generations_limit: u32) -> (r: Self)
        ensures
            r.spec_grid() == self.spec_grid(),
            r.spec_data_fn() == self.spec_data_fn(),
            r.spec_generations_limit() == Some(generations_limit),
    {
        Self {
            grid: self.grid,
            data_fn: self.data_fn,
            generations_limit: Some(generations_limit),
            observation: PhantomData,
        }
    }
}

/// Maps a function over every cell of a grid, producing a same-shaped grid
/// of the results: the cells are consumed in row-major order, and the cell
/// `(x, y)` of the result is the function's answer for the cell `(x, y)` of
/// the input.
#[verifier::loop_isolation(false)]
pub fn grid_map<T, U, F: Fn(Pos, T) -> U>(grid: Grid<T>, f: F) -> (r: Grid<U>)
    requires
        forall|p: Pos, t: T| #[trigger] call_requires(f, (p, t)),
    ensures
        r@.len() == grid@.len(),
        forall|y: int| 0 <= y < grid@.len() ==> #[trigger] r@[y]@.len() == grid@[y]@.len(),
        forall|y: int, x: int|
            0 <= y < grid@.len() && 0 <= x < grid@[y]@.len() ==> call_ensures(
                f,
                ((x as usize, y as usize), grid@[y]@[x]),
                #[trigger] r@[y]@[x],
            ),
{
    let ghost g0: Seq<Vec<T>> = grid@;
    let mut grid = grid;
    let mut r: Grid<U> = Vec::new();
    while grid.len() > 0
        invariant
            r@.len() + grid@.len() == g0.len(),
            grid@ == g0.subrange(r@.len() as int, g0.len() as int),
            forall|y: int| 0 <= y < r@.len() ==> #[trigger] r@[y]@.len() == g0[y]@.len(),
            forall|y: int, x: int|
                0 <= y < r@.len() && 0 <= x < g0[y]@.len() ==> call_ensures(
                    f,
                    ((x as usize, y as usize), g0[y]@[x]),
                    #[trigger] r@[y]@[x],
                ),
        decreases grid@.len(),
    {
        let ghost yg: int = r@.len() as int;
        let mut row = grid.remove(0);
        proof {
            assert(row@ == g0[yg]@);
            assert(grid@ =~= g0.subrange(yg + 1, g0.len() as int));
        }
        let y = r.len();
        let mut new_row: Vec<U> = Vec::new();
        while row.len() > 0
            invariant
                yg == y as int,
                y == r@.len(),
                new_row@.len() + row@.len() == g0[yg]@.len(),
                row@ =~= g0[yg]@.subrange(new_row@.len() as int, g0[yg]@.len() as int),
                forall|x: int|
                    0 <= x < new_row@.len() ==> call_ensures(
                        f,
                        ((x as usize, y as usize), g0[yg]@[x]),
                        #[trigger] new_row@[x],
                    ),
            decreases row@.len(),
        {
            let ghost xg: int = new_row@.len() as int;
            let x = new_row.len();
            let t = row.remove(0);
            proof {
                assert(t == g0[yg]@[xg]);
                assert(row@ =~= g0[yg]@.subrange(xg + 1, g0[yg]@.len() as int));
                assert(call_requires(f, ((x, y), t)));
            }
            new_row.push(f((x, y), t));
        }
        r.push(new_row);
    }
    r
}

/// The cells of a grid in row-major order, each preceded by its coordinates:
/// the row `y` contributes its cells as `(x, y, state)`, `x` ascending.
pub open spec fn spec_iter_grid<T>(g: Seq<Vec<T>>) -> Seq<(usize, usize, T)>
    decreases g.len(),
{
    if g.len() == 0 {
        Seq::empty()
    } else {
        spec_iter_grid(g.drop_last()) + spec_row_entries((g.len() - 1) as usize, g.last()@)
    }
}

/// The cells of the row `y`, each preceded by its coordinates.
pub open spec fn spec_row_entries<T>(y: usize, row: Seq<T>) -> Seq<(usize, usize, T)> {
    Seq::new(row.len(), |x: int| (x as usize, y, row[x]))
}

/// Lists every cell of the grid in row-major order as `(x, y, state)`.
#[verifier::loop_isolation(false)]
pub fn iter_grid<T>(grid: &Vec<Vec<T>>) -> (r: Vec<(usize, usize, &T)>)
    ensures
        r@.len() == spec_iter_grid(grid@).len(),
        forall|k: int|
            #![trigger r@[k]]
            0 <= k < r@.len() ==> {
                let e = spec_iter_grid(grid@)[k];
                r@[k].0 == e.0 && r@[k].1 == e.1 && *r@[k].2 == e.2
            },
{
    let mut r: Vec<(usize, usize, &T)> = Vec::new();
    let mut y: usize = 0;
    while y < grid.len()
        invariant
            y <= grid@.len(),
            r@.len() == spec_iter_grid(grid@.take(y as int)).len(),
            forall|k: int|
                #![trigger r@[k]]
                0 <= k < r@.len() ==> {
                    let e = spec_iter_grid(grid@.take(y as int))[k];
                    r@[k].0 == e.0 && r@[k].1 == e.1 && *r@[k].2 == e.2
                },
        decreases grid@.len() - y,
    {
        let ghost prefix: Seq<(usize, usize, T)> = spec_iter_grid(grid@.take(y as int));
        let mut x: usize = 0;
        while x < grid[y].len()
            invariant
                y < grid@.len(),
                x <= grid@[y as int]@.len(),
                r@.len() == prefix.len() + x,
                forall|k: int|
                    #![trigger r@[k]]
                    0 <= k < prefix.len() ==> r@[k].0 == prefix[k].0 && r@[k].1 == prefix[k].1
                        && *r@[k].2 == prefix[k].2,
                forall|k: int|
                    #![trigger r@[k]]
                    prefix.len() <= k < r@.len() ==> r@[k].0 == k - prefix.len() && r@[k].1 == y
                        && *r@[k].2 == grid@[y as int]@[k - prefix.len()],
            decreases grid@[y as int]@.len() - x,
        {
            r.push((x, y, &grid[y][x]));
            x += 1;
        }
        y += 1;
        proof {
            assert(grid@.take(y as int).drop_last() =~= grid@.take(y as int - 1));
            assert(grid@.take(y as int).last() == grid@[y as int - 1]);
            assert(spec_iter_grid(grid@.take(y as int)) == prefix + spec_row_entries(
                (y - 1) as usize,
                grid@[y as int - 1]@,
            ));
        }
    }
    proof {
        assert(grid@.take(grid@.len() as int) =~= grid@);
    }
    r
}

/// Counts the number of neighbors a cell has on a dense grid.
///
/// A position of the square window of the given radius around `pos`, center
/// excluded, counts when it lies on the grid and `is_alive` returns true of
/// the state stored there; positions beyond the grid's extent are treated as
/// not alive, never as an error.
#[verifier::loop_isolation(false)]
pub fn count_neighbors<S, F: Fn(&S) -> bool>(
    grid: &Grid<S>,
    pos: Pos,
    radius: u8,
    is_alive: F,
) -> (r: usize)
    requires
        forall|s: S| #[trigger] call_requires(is_alive, (&s,)),
    ensures
        forall|p: spec_fn(S) -> bool|
            #[trigger] decides(is_alive, p) ==> r == spec_count_neighbors(
                grid@,
                pos,
                radius as int,
                p,
            ),
{
    let n: usize = 2 * (radius as usize) + 1;
    proof {
        assert(n * n <= 511 * 511) by (nonlinear_arith)
            requires
                n <= 511,
        ;
    }
    let total: usize = n * n;
    let height: usize = grid.len();
    let ghost rad: int = radius as int;
    let ghost offs: Seq<(int, int)> = spec_offsets(rad);
    proof {
        assert(n == window(rad));
        assert(offs.len() == total);
    }
    let mut count: usize = 0;
    let mut k: usize = 0;
    while k < total
        invariant
            count <= k <= total,
            forall|p: spec_fn(S) -> bool|
                #[trigger] decides(is_alive, p) ==> count == count_true(
                    offs.take(k as int),
                    dense_alive_cond(grid@, pos, p),
                ),
        decreases total - k,
    {
        let a: usize = k / n;
        let b: usize = k % n;
        let ghost o: (int, int) = offs[k as int];
        proof {
            assert(o == (a as int - rad, b as int - rad));
        }
        let ghost xi: int = pos.0 + o.0;
        let ghost yi: int = pos.1 + o.1;
        let rad_us: usize = radius as usize;
        let xo: Option<usize> = if a >= rad_us {
            pos.0.checked_add(a - rad_us)
        } else {
            pos.0.checked_sub(rad_us - a)
        };
        let yo: Option<usize> = if b >= rad_us {
            pos.1.checked_add(b - rad_us)
        } else {
            pos.1.checked_sub(rad_us - b)
        };
        let counted: bool;
        match yo {
            None => {
                counted = false;
                proof {
                    assert forall|p: spec_fn(S) -> bool|
                        #[trigger] decides(is_alive, p) implies !dense_alive_cond(grid@, pos, p)(
                        o,
                    ) by {}
                }
            },
            Some(y) => {
                if y >= height {
                    counted = false;
                    proof {
                        assert forall|p: spec_fn(S) -> bool|
                            #[trigger] decides(is_alive, p) implies !dense_alive_cond(
                            grid@,
                            pos,
                            p,
                        )(o) by {}
                    }
                } else {
                    let row = &grid[y];
                    let rl: usize = row.len();
                    match xo {
                        None => {
                            counted = false;
                            proof {
                                assert forall|p: spec_fn(S) -> bool|
                                    #[trigger] decides(is_alive, p) implies !dense_alive_cond(
                                    grid@,
                                    pos,
                                    p,
                                )(o) by {}
                            }
                        },
                        Some(x) => {
                            if x >= rl {
                                counted = false;
                                proof {
                                    assert forall|p: spec_fn(S) -> bool|
                                        #[trigger] decides(is_alive, p) implies !dense_alive_cond(
                                        grid@,
                                        pos,
                                        p,
                                    )(o) by {}
                                }
                            } else if x == pos.0 && y == pos.1 {
                                counted = false;
                                proof {
                                    assert(o == (0int, 0int));
                                    assert forall|p: spec_fn(S) -> bool|
                                        #[trigger] decides(is_alive, p) implies !dense_alive_cond(
                                        grid@,
                                        pos,
                                        p,
                                    )(o) by {}
                                }
                            } else {
                                counted = is_alive(&row[x]);
                                proof {
                                    assert forall|p: spec_fn(S) -> bool|
                                        #[trigger] decides(is_alive, p) implies dense_alive_cond(
                                        grid@,
                                        pos,
                                        p,
                                    )(o) == counted by {
                                        assert(call_ensures(is_alive, (&grid@[yi]@[xi],), counted));
                                    }
                                }
                            }
                        },
                    }
                }
            },
        }
        proof {
            assert forall|p: spec_fn(S) -> bool| #[trigger] decides(is_alive, p) implies count + (
            if counted {
                1int
            } else {
                0int
            }) == count_true(offs.take(k as int + 1), dense_alive_cond(grid@, pos, p)) by {
                crate::engine::lemma_count_true_take_step(
                    offs,
                    dense_alive_cond(grid@, pos, p),
                    k as int,
                );
            }
        }
        if counted {
            count += 1;
        }
        k += 1;
    }
    proof {
        assert(offs.take(offs.len() as int) =~= offs);
    }
    count
}

/// Dimension invariant: one step never resizes the grid; in particular the
/// reported `(width, height)` before and after the step are the same.
pub proof fn lemma_step_preserves_grid_size<S, D, DF, SF>(
    pre: Automaton<S, D, DF, SF>,
    post: Automaton<S, D, DF, SF>,
) where DF: Fn(Pos, &S, &Grid<S>) -> D, SF: Fn(Pos, S, D) -> S
    requires
        Automaton::step_rel(pre, post),
    ensures
        spec_grid_size(post.spec_cells()) == spec_grid_size(pre.spec_cells()),
{
}

/// Observation isolation: under a step function that returns the old state
/// unchanged, whatever the observation, a step leaves every cell of the grid
/// unchanged — observing cannot alter the observed generation.
pub proof fn lemma_identity_rule_keeps_cells<S, D, DF, SF>(
    pre: Automaton<S, D, DF, SF>,
    post: Automaton<S, D, DF, SF>,
) where DF: Fn(Pos, &S, &Grid<S>) -> D, SF: Fn(Pos, S, D) -> S
    requires
        Automaton::step_rel(pre, post),
        forall|args: (Pos, S, D), ret: S|
            #[trigger] call_ensures(pre.spec_step_fn(), args, ret) ==> ret == args.1,
    ensures
        post.spec_cells().len() == pre.spec_cells().len(),
        forall|y: int|
            0 <= y < pre.spec_cells().len() ==> #[trigger] post.spec_cells()[y]@.len()
                == pre.spec_cells()[y]@.len(),
        forall|y: int, x: int|
            0 <= y < pre.spec_cells().len() && 0 <= x < pre.spec_cells()[y]@.len()
                ==> post.cell(x, y) == pre.cell(x, y),
{
    assert forall|y: int, x: int|
        0 <= y < pre.spec_cells().len() && 0 <= x < pre.spec_cells()[y]@.len() implies post.cell(
        x,
        y,
    ) == pre.cell(x, y) by {
        assert(Automaton::cell_stepped(pre, post, x, y));
    }
}

} // verus!
