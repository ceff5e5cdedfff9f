//! Frontend specification and helper traits and functions.

use vstd::prelude::*;

verus! {

/// The capability to render one cell state to a display value.
pub trait RenderCell<T> {
    /// The display value this cell stands for.
    spec fn spec_render(&self) -> T;

    /// Renders this cell to its display value.
    fn render_cell(&self) -> (r: T)
        ensures
            r == self.spec_render(),
    ;
}

impl RenderCell<char> for bool {
    /// An alive cell renders to a full glyph, a dead one to a dot.
    open spec fn spec_render(&self) -> char {
        if *self {
            '#'
        } else {
            '.'
        }
    }

    fn render_cell(&self) -> (r: char) {
        if *self {
            '#'
        } else {
            '.'
        }
    }
}

/// The characters the cells of one row render to, in order.
pub open spec fn spec_render_row<T: RenderCell<char>>(row: Seq<T>) -> Seq<char> {
    Seq::new(row.len(), |x: int| row[x].spec_render())
}

/// The text block a dense grid renders to: each row contributes its cells'
/// rendered characters, in order, followed by a newline.
pub open spec fn spec_render_grid<T: RenderCell<char>>(g: Seq<Vec<T>>) -> Seq<char>
    decreases g.len(),
{
    if g.len() == 0 {
        Seq::empty()
    } else {
        spec_render_grid(g.drop_last()) + spec_render_row(g.last()@) + seq!['\n']
    }
}

/// Relies on `String::push`: appends the given character to the end of the
/// string.
#[verifier::external_body]
fn push_char(s: &mut String, c: char)
    ensures
        final(s)@ == old(s)@.push(c),
{
    s.push(c);
}

/// A simple helper function to quickly display a dense grid: one text line
/// per row of the grid.
#[verifier::loop_isolation(false)]
pub fn render_grid_str<T: RenderCell<char>>(cells: &Vec<Vec<T>>) -> (r: String)
    ensures
        r@ == spec_render_grid(cells@),
{
    let mut out = String::new();
    let mut y: usize = 0;
    while y < cells.len()
        invariant
            y <= cells@.len(),
            out@ == spec_render_grid(cells@.take(y as int)),
        decreases cells@.len() - y,
    {
        let row = &cells[y];
        let mut x: usize = 0;
        while x < row.len()
            invariant
                y < cells@.len(),
                row == &cells@[y as int],
                x <= row@.len(),
                out@ == spec_render_grid(cells@.take(y as int)) + spec_render_row(
                    row@.take(x as int),
                ),
            decreases row@.len() - x,
        {
            push_char(&mut out, row[x].render_cell());
            proof {
                assert(spec_render_row(row@.take(x as int + 1)) =~= spec_render_row(
                    row@.take(x as int),
                ).push(row@[x as int].spec_render()));
                assert(out@ =~= spec_render_grid(cells@.take(y as int)) + spec_render_row(
                    row@.take(x as int + 1),
                ));
            }
            x += 1;
        }
        push_char(&mut out, '\n');
        proof {
            assert(row@.take(row@.len() as int) =~= row@);
            assert(cells@.take(y as int + 1).drop_last() =~= cells@.take(y as int));
            assert(cells@.take(y as int + 1).last() == cells@[y as int]);
            assert(out@ =~= spec_render_grid(cells@.take(y as int + 1)));
        }
        y += 1;
    }
    proof {
        assert(cells@.take(cells@.len() as int) =~= cells@);
    }
    out
}

} // verus!
