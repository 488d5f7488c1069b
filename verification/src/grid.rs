//! Row-major grids and the one rule by which they change size.
//!
//! A grid of `w` columns and `h` rows is a sequence of `w * h` cells; the cell
//! in column `x` of row `y` stands at index `y * w + x`. Layers use the rule
//! with tiles as cells. Sublayers use it twice with bytes as cells: once for
//! a change of dimensions, where a row is as wide as its cells' bytes
//! together, and once for a change of the cell width, where each cell is a
//! row of its own.

use vstd::prelude::*;
use vstd::arithmetic::div_mod::lemma_fundamental_div_mod_converse;

verus! {

/// The value that a new cell in column `x` receives: the pattern repeats
/// along the row.
pub open spec fn fill_at<T>(pattern: Seq<T>, x: int) -> T {
    pattern[x % (pattern.len() as int)]
}

/// The cell in column `x` of row `y` after a resize of `old`, a grid of
/// `old_w` columns and `old_h` rows: the old cell where there was one, the
/// fill elsewhere.
pub open spec fn resized_cell<T>(
    old: Seq<T>,
    old_w: int,
    old_h: int,
    pattern: Seq<T>,
    x: int,
    y: int,
) -> T {
    if x < old_w && y < old_h {
        old[y * old_w + x]
    } else {
        fill_at(pattern, x)
    }
}

/// The grid of `w` columns and `h` rows that a resize of `old` gives.
pub open spec fn resized<T>(
    old: Seq<T>,
    old_w: int,
    old_h: int,
    w: int,
    h: int,
    pattern: Seq<T>,
) -> Seq<T> {
    Seq::new((w * h) as nat, |i: int| resized_cell(old, old_w, old_h, pattern, i % w, i / w))
}

/// Column and row of the index `y * w + x`.
pub proof fn lemma_cell_index(w: int, x: int, y: int)
    requires
        0 <= x < w,
        0 <= y,
    ensures
        0 <= y * w + x,
        (y * w + x) % w == x,
        (y * w + x) / w == y,
{
    assert(0 <= y * w) by (nonlinear_arith)
        requires
            0 <= y,
            0 < w,
    ;
    lemma_fundamental_div_mod_converse(y * w + x, w, y, x);
}

/// An index inside a grid lies in one of its rows.
pub proof fn lemma_index_cell(w: int, h: int, i: int)
    requires
        0 < w,
        0 <= i < w * h,
    ensures
        0 <= i % w < w,
        0 <= i / w < h,
        i == (i / w) * w + i % w,
{
    assert(0 <= i % w < w && 0 <= i / w < h && i == (i / w) * w + i % w) by (nonlinear_arith)
        requires
            0 < w,
            0 <= i < w * h,
    ;
}

/// The index of a cell of a grid lies inside the grid.
pub proof fn lemma_cell_in_grid(w: int, h: int, x: int, y: int)
    requires
        0 <= x < w,
        0 <= y < h,
    ensures
        0 <= y * w + x < w * h,
{
    assert(0 <= y * w + x < w * h) by (nonlinear_arith)
        requires
            0 <= x < w,
            0 <= y < h,
    ;
}

/// What a resize leaves in each cell.
pub proof fn lemma_resized_cell<T>(
    old: Seq<T>,
    old_w: int,
    old_h: int,
    w: int,
    h: int,
    pattern: Seq<T>,
    x: int,
    y: int,
)
    requires
        0 <= x < w,
        0 <= y < h,
    ensures
        resized(old, old_w, old_h, w, h, pattern).len() == w * h,
        0 <= y * w + x < w * h,
        resized(old, old_w, old_h, w, h, pattern)[y * w + x] == resized_cell(
            old,
            old_w,
            old_h,
            pattern,
            x,
            y,
        ),
{
    lemma_cell_in_grid(w, h, x, y);
    lemma_cell_index(w, x, y);
}

/// A resize to the size that a grid has changes nothing.
pub proof fn lemma_resized_same_size<T>(old: Seq<T>, w: int, h: int, pattern: Seq<T>)
    requires
        0 <= w,
        0 <= h,
        old.len() == w * h,
    ensures
        resized(old, w, h, w, h, pattern) == old,
{
    let new = resized(old, w, h, w, h, pattern);
    assert forall|i: int| 0 <= i < new.len() implies new[i] == old[i] by {
        if w > 0 {
            lemma_index_cell(w, h, i);
        }
    }
    assert(new =~= old);
}

/// Two resizes in a row keep a cell only where both sizes hold it: what the
/// first one cut off, the second does not bring back.
pub proof fn lemma_resized_twice<T>(
    old: Seq<T>,
    w0: int,
    h0: int,
    w1: int,
    h1: int,
    w2: int,
    h2: int,
    pattern: Seq<T>,
    x: int,
    y: int,
)
    requires
        0 <= x < w2,
        0 <= y < h2,
        0 <= w1,
        0 <= h1,
    ensures
        0 <= y * w2 + x < w2 * h2,
        resized(resized(old, w0, h0, w1, h1, pattern), w1, h1, w2, h2, pattern)[y * w2 + x] == (
        if x < w0 && x < w1 && y < h0 && y < h1 {
            old[y * w0 + x]
        } else {
            fill_at(pattern, x)
        }),
{
    let first = resized(old, w0, h0, w1, h1, pattern);
    lemma_resized_cell(first, w1, h1, w2, h2, pattern, x, y);
    if x < w1 && y < h1 {
        lemma_resized_cell(old, w0, h0, w1, h1, pattern, x, y);
    }
}

/// Resizes a grid: a new buffer of `w` columns and `h` rows that keeps every
/// cell of `old` that lies inside the new size and fills the others.
pub fn rebuild<T: Copy>(
    old: &Vec<T>,
    old_w: usize,
    old_h: usize,
    w: usize,
    h: usize,
    pattern: &[T],
) -> (grid: Vec<T>)
    requires
        old@.len() == old_w * old_h,
        w * h <= usize::MAX,
        pattern@.len() > 0,
    ensures
        grid@ == resized(old@, old_w as int, old_h as int, w as int, h as int, pattern@),
{
    let ghost goal = resized(old@, old_w as int, old_h as int, w as int, h as int, pattern@);
    let mut grid: Vec<T> = Vec::new();
    let mut y: usize = 0;
    assert(old@.len() == old.len());
    while y < h
        invariant
            y <= h,
            old@.len() == old_w * old_h,
            old_w * old_h <= usize::MAX,
            w * h <= usize::MAX,
            pattern@.len() > 0,
            goal == resized(old@, old_w as int, old_h as int, w as int, h as int, pattern@),
            grid@.len() == y * w,
            forall|i: int| 0 <= i < grid@.len() ==> grid@[i] == goal[i],
        decreases h - y,
    {
        let mut x: usize = 0;
        while x < w
            invariant
                y < h,
                x <= w,
                old@.len() == old_w * old_h,
                old_w * old_h <= usize::MAX,
                w * h <= usize::MAX,
                pattern@.len() > 0,
                goal == resized(old@, old_w as int, old_h as int, w as int, h as int, pattern@),
                grid@.len() == y * w + x,
                forall|i: int| 0 <= i < grid@.len() ==> grid@[i] == goal[i],
            decreases w - x,
        {
            proof {
                lemma_resized_cell(
                    old@,
                    old_w as int,
                    old_h as int,
                    w as int,
                    h as int,
                    pattern@,
                    x as int,
                    y as int,
                );
            }
            let cell = if x < old_w && y < old_h {
                proof {
                    lemma_cell_in_grid(old_w as int, old_h as int, x as int, y as int);
                }
                old[y * old_w + x]
            } else {
                pattern[x % pattern.len()]
            };
            grid.push(cell);
            x = x + 1;
        }
        proof {
            assert((y + 1) * w == y * w + w) by (nonlinear_arith);
        }
        y = y + 1;
    }
    proof {
        assert(h * w == w * h) by (nonlinear_arith);
        assert(grid@ =~= goal);
    }
    grid
}

/// Resizes a grid in place where that is possible: a change of height alone
/// cuts rows off the end or appends filled rows, and only a change of width
/// moves the cells into a new buffer.
pub fn resize_rows<T: Copy>(
    data: &mut Vec<T>,
    old_w: usize,
    old_h: usize,
    w: usize,
    h: usize,
    pattern: &[T],
)
    requires
        old(data)@.len() == old_w * old_h,
        w * h <= usize::MAX,
        pattern@.len() > 0,
    ensures
        final(data)@ == resized(
            old(data)@,
            old_w as int,
            old_h as int,
            w as int,
            h as int,
            pattern@,
        ),
{
    let ghost goal = resized(old(data)@, old_w as int, old_h as int, w as int, h as int, pattern@);
    if w != old_w {
        let grid = rebuild(data, old_w, old_h, w, h, pattern);
        *data = grid;
    } else if h <= old_h {
        proof {
            assert(w * h <= w * old_h) by (nonlinear_arith)
                requires
                    h <= old_h,
                    0 <= w,
            ;
            assert forall|i: int| 0 <= i < w * h implies old(data)@[i] == goal[i] by {
                if w > 0 {
                    lemma_index_cell(w as int, h as int, i);
                }
            }
        }
        data.truncate(w * h);
        proof {
            assert(data@ =~= goal);
        }
    } else {
        proof {
            assert(old_h * w == w * old_h) by (nonlinear_arith);
            assert forall|i: int| 0 <= i < w * old_h implies old(data)@[i] == goal[i] by {
                lemma_index_cell(w as int, old_h as int, i);
                assert(w * old_h <= w * h) by (nonlinear_arith)
                    requires
                        old_h <= h,
                        0 <= w,
                ;
            }
        }
        let mut y: usize = old_h;
        while y < h
            invariant
                old_h <= y <= h,
                w == old_w,
                w * h <= usize::MAX,
                pattern@.len() > 0,
                goal == resized(
                    old(data)@,
                    old_w as int,
                    old_h as int,
                    w as int,
                    h as int,
                    pattern@,
                ),
                data@.len() == y * w,
                forall|i: int| 0 <= i < data@.len() ==> data@[i] == goal[i],
            decreases h - y,
        {
            let mut x: usize = 0;
            while x < w
                invariant
                    old_h <= y < h,
                    x <= w,
                    w == old_w,
                    w * h <= usize::MAX,
                    pattern@.len() > 0,
                    goal == resized(
                        old(data)@,
                        old_w as int,
                        old_h as int,
                        w as int,
                        h as int,
                        pattern@,
                    ),
                    data@.len() == y * w + x,
                    forall|i: int| 0 <= i < data@.len() ==> data@[i] == goal[i],
                decreases w - x,
            {
                proof {
                    lemma_resized_cell(
                        old(data)@,
                        old_w as int,
                        old_h as int,
                        w as int,
                        h as int,
                        pattern@,
                        x as int,
                        y as int,
                    );
                }
                data.push(pattern[x % pattern.len()]);
                x = x + 1;
            }
            proof {
                assert((y + 1) * w == y * w + w) by (nonlinear_arith);
            }
            y = y + 1;
        }
        proof {
            assert(h * w == w * h) by (nonlinear_arith);
            assert(data@ =~= goal);
        }
    }
}

} // verus!
