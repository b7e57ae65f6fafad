//! The mathematical model of the engine: the flat index mapping with its
//! deliberate asymmetric wraparound, the neighbor geometry of the torus, the
//! birth/survival rule, and the buffer produced by one full generation pass.

use vstd::prelude::*;
use vstd::arithmetic::div_mod::lemma_fundamental_div_mod;
use vstd::arithmetic::div_mod::lemma_fundamental_div_mod_converse;
use vstd::arithmetic::div_mod::lemma_mod_decreases;
use vstd::arithmetic::div_mod::lemma_mod_division_less_than_divisor;
use crate::cell::Cell;
use crate::cell::occupancy;

verus! {

/// Flat position of (row, column) in the row-major buffer. The row wraps by
/// the width and the column by the height; the asymmetry is deliberate and
/// coincides with the conventional row-major mapping exactly on square grids.
pub open spec fn flat_index(w: int, h: int, row: int, col: int) -> int {
    (row % w) * w + (col % h)
}

/// The row just above, wrapping past the top edge.
pub open spec fn row_above(h: int, row: int) -> int {
    if row == 0 {
        h - 1
    } else {
        row - 1
    }
}

/// The row just below, wrapping past the bottom edge.
pub open spec fn row_below(h: int, row: int) -> int {
    if row == h - 1 {
        0
    } else {
        row + 1
    }
}

/// The column just left, wrapping past the left edge.
pub open spec fn col_left(w: int, col: int) -> int {
    if col == 0 {
        w - 1
    } else {
        col - 1
    }
}

/// The column just right, wrapping past the right edge.
pub open spec fn col_right(w: int, col: int) -> int {
    if col == w - 1 {
        0
    } else {
        col + 1
    }
}

/// The cell a coordinate pair resolves to through the flat index mapping.
pub open spec fn cell_at(g: Seq<Cell>, w: int, h: int, row: int, col: int) -> Cell {
    g[flat_index(w, h, row, col)]
}

/// Number of alive cells among the eight wrap-adjusted neighbors of
/// (row, col): the three above, the two beside, and the three below.
pub open spec fn live_neighbors(g: Seq<Cell>, w: int, h: int, row: int, col: int) -> int {
    let up = row_above(h, row);
    let down = row_below(h, row);
    let left = col_left(w, col);
    let right = col_right(w, col);
    occupancy(cell_at(g, w, h, up, left)) + occupancy(cell_at(g, w, h, up, col))
        + occupancy(cell_at(g, w, h, up, right)) + occupancy(cell_at(g, w, h, row, left))
        + occupancy(cell_at(g, w, h, row, right)) + occupancy(cell_at(g, w, h, down, left))
        + occupancy(cell_at(g, w, h, down, col)) + occupancy(cell_at(g, w, h, down, right))
}

/// The birth/survival rule applied to one cell: an alive cell survives with
/// two or three live neighbors and otherwise dies; a dead cell is born with
/// exactly three live neighbors and otherwise stays dead.
pub open spec fn transition(c: Cell, live: int) -> Cell {
    match c {
        Cell::Alive => if 2 <= live && live <= 3 {
            Cell::Alive
        } else {
            Cell::Dead
        },
        Cell::Dead => if live == 3 {
            Cell::Alive
        } else {
            Cell::Dead
        },
    }
}

/// The glyph one cell renders as: a hollow square for a dead cell, a filled
/// square for an alive one.
pub open spec fn glyph(c: Cell) -> char {
    match c {
        Cell::Dead => '\u{25fb}',
        Cell::Alive => '\u{25fc}',
    }
}

/// The textual rendering of a w-by-h grid buffer: h lines, each of w glyphs
/// and one terminating newline, reading the buffer in row-major order.
pub open spec fn rendered(w: int, h: int, g: Seq<Cell>) -> Seq<char> {
    Seq::new(
        (h * (w + 1)) as nat,
        |k: int|
            if k % (w + 1) == w {
                '\n'
            } else {
                glyph(g[(k / (w + 1)) * w + k % (w + 1)])
            },
    )
}

/// Every cell of the buffer is dead.
pub open spec fn all_dead(g: Seq<Cell>) -> bool {
    forall|i: int| 0 <= i < g.len() ==> g[i] is Dead
}

/// A wrapped coordinate pair's row-major position lies inside the buffer.
proof fn lemma_row_major_bound(w: int, h: int, a: int, b: int)
    requires
        0 < w,
        0 < h,
        0 <= a < w,
        0 <= b < h,
        h <= w ==> a < h,
        w < h ==> b < w,
    ensures
        0 <= a * w + b < w * h,
{
    if h <= w {
        assert(a * w + b < w * h) by (nonlinear_arith)
            requires
                0 < w,
                0 < h,
                h <= w,
                0 <= a,
                a < h,
                0 <= b < h,
        ;
    } else {
        assert(a * w + b < w * h) by (nonlinear_arith)
            requires
                0 < w,
                w < h,
                0 <= a < w,
                0 <= b,
                b < w,
        ;
    }
    assert(0 <= a * w) by (nonlinear_arith)
        requires
            0 <= a,
            0 < w,
    ;
}

/// Wrapping never enlarges a nonnegative coordinate, and lands below the
/// modulus.
proof fn lemma_wrap_bounds(x: int, m: int)
    requires
        0 < m,
        0 <= x,
    ensures
        0 <= x % m < m,
        x % m <= x,
{
    lemma_mod_division_less_than_divisor(x, m);
    lemma_mod_decreases(x as nat, m as nat);
}

/// For canonical coordinates (a row below the height, a column below the
/// width) the flat index lands inside the buffer, whatever the dimensions.
pub proof fn lemma_flat_index_in_bounds(w: int, h: int, row: int, col: int)
    requires
        0 < w,
        0 < h,
        0 <= row < h,
        0 <= col < w,
    ensures
        0 <= flat_index(w, h, row, col) < w * h,
{
    lemma_wrap_bounds(row, w);
    lemma_wrap_bounds(col, h);
    lemma_row_major_bound(w, h, row % w, col % h);
}

/// The largest value below `bound` congruent to `r` modulo `m`.
pub open spec fn last_congruent(m: int, bound: int, r: int) -> int {
    r + m * ((bound - 1 - r) / m)
}

/// `last_congruent` is what its name says: it lies in `[r, bound)` and is
/// congruent to `r` modulo `m`.
pub proof fn lemma_last_congruent(m: int, bound: int, r: int)
    requires
        0 < m,
        0 <= r < m,
        r < bound,
    ensures
        r <= last_congruent(m, bound, r) < bound,
        last_congruent(m, bound, r) % m == r,
{
    let q = (bound - 1 - r) / m;
    lemma_fundamental_div_mod(bound - 1 - r, m);
    assert(0 <= q) by (nonlinear_arith)
        requires
            0 < m,
            0 <= bound - 1 - r,
            m * q + (bound - 1 - r) % m == bound - 1 - r,
            0 <= (bound - 1 - r) % m < m,
    ;
    assert(m * q <= bound - 1 - r);
    assert(0 <= m * q) by (nonlinear_arith)
        requires
            0 < m,
            0 <= q,
    ;
    lemma_fundamental_div_mod_converse(r + m * q, m, q, r);
}

/// Extending the search range by one position keeps `last_congruent`
/// unchanged unless the new position itself is congruent to `r`, in which
/// case it becomes that position.
pub proof fn lemma_last_congruent_step(m: int, b: int, r: int)
    requires
        0 < m,
        0 <= r < m,
        r <= b,
    ensures
        last_congruent(m, b + 1, r) == if b % m == r {
            b
        } else {
            last_congruent(m, b, r)
        },
{
    lemma_fundamental_div_mod(b, m);
    let qb = b / m;
    let rb = b % m;
    if rb == r {
        // b itself is congruent: (b - r) is an exact multiple of m.
        assert(b - r == qb * m);
        lemma_fundamental_div_mod_converse(b - r, m, qb, 0);
        assert((b - r) / m == qb);
        assert(last_congruent(m, b + 1, r) == r + m * qb);
        assert(r + m * qb == b) by (nonlinear_arith)
            requires
                b == qb * m + r,
        ;
    } else {
        // b is not congruent: dropping position b moves nothing, since
        // (b - r) % m != 0 makes (b - r) / m == (b - 1 - r) / m.
        let x = b - r;
        lemma_fundamental_div_mod(x, m);
        let q = x / m;
        let s = x % m;
        assert(s != 0) by {
            if s == 0 {
                assert(b == q * m + r);
                lemma_fundamental_div_mod_converse(b, m, q, r);
            }
        }
        assert(x - 1 == q * m + (s - 1)) by (nonlinear_arith)
            requires
                x == q * m + s,
        ;
        lemma_fundamental_div_mod_converse(x - 1, m, q, s - 1);
        assert((b - 1 - r) / m == (b - r) / m);
    }
}

/// For a write of the generation pass (a canonical coordinate pair), the two
/// parts of the flat index are the wrapped row and the wrapped column.
pub proof fn lemma_flat_index_parts(w: int, h: int, row: int, col: int)
    requires
        0 < w,
        0 < h,
        0 <= row,
        0 <= col < w,
    ensures
        flat_index(w, h, row, col) / w == row % w,
        flat_index(w, h, row, col) % w == col % h,
{
    let a = row % w;
    let b = col % h;
    lemma_wrap_bounds(row, w);
    lemma_wrap_bounds(col, h);
    lemma_fundamental_div_mod_converse(a * w + b, w, a, b);
}

/// One write of the generation pass: iteration (row, col) stores the next
/// state of the cell it indexes into the scratch buffer.
pub open spec fn pass_write(
    g: Seq<Cell>,
    w: int,
    h: int,
    buf: Seq<Cell>,
    row: int,
    col: int,
) -> Seq<Cell> {
    let i = flat_index(w, h, row, col);
    buf.update(i, transition(g[i], live_neighbors(g, w, h, row, col)))
}

/// The scratch buffer after the first `ncols` writes of row `row`.
pub open spec fn pass_row(
    g: Seq<Cell>,
    w: int,
    h: int,
    buf: Seq<Cell>,
    row: int,
    ncols: nat,
) -> Seq<Cell>
    decreases ncols,
{
    if ncols == 0 {
        buf
    } else {
        pass_write(g, w, h, pass_row(g, w, h, buf, row, (ncols - 1) as nat), row, ncols - 1)
    }
}

/// The scratch buffer after the first `nrows` full rows of the pass.
pub open spec fn pass_rows(g: Seq<Cell>, w: int, h: int, buf: Seq<Cell>, nrows: nat) -> Seq<Cell>
    decreases nrows,
{
    if nrows == 0 {
        buf
    } else {
        pass_row(g, w, h, pass_rows(g, w, h, buf, (nrows - 1) as nat), nrows - 1, w as nat)
    }
}

/// Whether the generation pass writes flat position i at all. Rows of the
/// pass run over [0, height) and wrap by the width, columns over [0, width)
/// and wrap by the height, so a position is reached exactly when its row
/// part lies below the width and its column part below the height. On a
/// square grid that is every position.
pub open spec fn pass_writes(w: int, h: int, i: int) -> bool {
    i / w < w && i % w < h
}

/// The row of the last pass iteration that writes flat position i.
pub open spec fn last_writer_row(w: int, h: int, i: int) -> int {
    last_congruent(w, h, i / w)
}

/// The column of the last pass iteration that writes flat position i.
pub open spec fn last_writer_col(w: int, h: int, i: int) -> int {
    last_congruent(h, w, i % w)
}

/// The primary buffer after one generation step over grid `g` with scratch
/// buffer `sc`: every position the pass reaches holds the transition
/// computed by the last iteration that writes it (on a square grid, the
/// position's own row and column), and every other position keeps its
/// scratch value.
pub open spec fn next_buffer(w: int, h: int, g: Seq<Cell>, sc: Seq<Cell>) -> Seq<Cell> {
    Seq::new(
        (w * h) as nat,
        |i: int|
            if pass_writes(w, h, i) {
                transition(
                    g[i],
                    live_neighbors(g, w, h, last_writer_row(w, h, i), last_writer_col(w, h, i)),
                )
            } else {
                sc[i]
            },
    )
}

/// On a square grid the generation step is the conventional Game of Life
/// step: every position is written exactly once, by its own row and column,
/// so it holds the transition of its own cell under its own neighbor count.
pub proof fn lemma_next_buffer_on_square(w: int, h: int, g: Seq<Cell>, sc: Seq<Cell>, i: int)
    requires
        0 < w,
        w == h,
        0 <= i < w * h,
    ensures
        next_buffer(w, h, g, sc).len() == w * h,
        next_buffer(w, h, g, sc)[i] == transition(g[i], live_neighbors(g, w, h, i / w, i % w)),
{
    assert(0 <= i / w && i / w < h && 0 <= i % w < w) by (nonlinear_arith)
        requires
            0 < w,
            0 < h,
            0 <= i < w * h,
    ;
    vstd::arithmetic::div_mod::lemma_basic_div(h - 1 - i / w, w);
    vstd::arithmetic::div_mod::lemma_basic_div(w - 1 - i % w, h);
    assert(last_writer_row(w, h, i) == i / w);
    assert(last_writer_col(w, h, i) == i % w);
}

/// The pair (primary, scratch) after `n` generation steps: each step turns
/// the primary buffer into the next one and keeps the old primary as the
/// new scratch.
pub open spec fn evolved(w: int, h: int, g: Seq<Cell>, sc: Seq<Cell>, n: nat) -> (Seq<Cell>, Seq<
    Cell,
>)
    decreases n,
{
    if n == 0 {
        (g, sc)
    } else {
        let prev = evolved(w, h, g, sc, (n - 1) as nat);
        (next_buffer(w, h, prev.0, prev.1), prev.0)
    }
}

/// What one partial row of the pass leaves at position i: the positions the
/// first `ncols` iterations of row `row` index hold the transition of the
/// last iteration so far to index them, all others are untouched.
pub proof fn lemma_pass_row_at(
    g: Seq<Cell>,
    w: int,
    h: int,
    buf: Seq<Cell>,
    row: int,
    ncols: nat,
    i: int,
)
    requires
        0 < w,
        0 < h,
        0 <= row < h,
        ncols <= w,
        buf.len() == w * h,
        0 <= i < w * h,
    ensures
        pass_row(g, w, h, buf, row, ncols).len() == buf.len(),
        pass_row(g, w, h, buf, row, ncols)[i] == if i / w == row % w && i % w < h && i % w
            < ncols {
            transition(g[i], live_neighbors(g, w, h, row, last_congruent(h, ncols as int, i % w)))
        } else {
            buf[i]
        },
    decreases ncols,
{
    assert(0 <= i / w && 0 <= i % w < w && i == (i / w) * w + (i % w)) by (nonlinear_arith)
        requires
            0 < w,
            0 <= i,
    ;
    if ncols > 0 {
        let c = ncols - 1;
        let prev = pass_row(g, w, h, buf, row, (ncols - 1) as nat);
        lemma_pass_row_at(g, w, h, buf, row, (ncols - 1) as nat, i);
        let idx = flat_index(w, h, row, c);
        lemma_flat_index_in_bounds(w, h, row, c);
        lemma_flat_index_parts(w, h, row, c);
        assert(c % h <= c && 0 <= c % h < h) by (nonlinear_arith)
            requires
                0 < h,
                0 <= c,
        ;
        assert(pass_row(g, w, h, buf, row, ncols) == pass_write(g, w, h, prev, row, c));
        if i == idx {
            lemma_last_congruent_step(h, c, c % h);
            assert(last_congruent(h, ncols as int, i % w) == c);
        } else {
            if i / w == row % w && i % w < h {
                // i and idx share the row part, so their column parts differ
                assert(i % w != c % h);
                if i % w == c {
                    assert(c % h == c) by (nonlinear_arith)
                        requires
                            0 <= c < h,
                    ;
                    assert(false);
                }
                if i % w < c {
                    lemma_last_congruent_step(h, c, i % w);
                }
            }
        }
    }
}

/// What the first `nrows` full rows of the pass leave at position i: the
/// positions they index hold the transition of the last row and column so
/// far to index them, all others are untouched.
pub proof fn lemma_pass_rows_at(g: Seq<Cell>, w: int, h: int, buf: Seq<Cell>, nrows: nat, i: int)
    requires
        0 < w,
        0 < h,
        nrows <= h,
        buf.len() == w * h,
        0 <= i < w * h,
    ensures
        pass_rows(g, w, h, buf, nrows).len() == buf.len(),
        pass_rows(g, w, h, buf, nrows)[i] == if i / w < w && i / w < nrows && i % w < h {
            transition(
                g[i],
                live_neighbors(
                    g,
                    w,
                    h,
                    last_congruent(w, nrows as int, i / w),
                    last_congruent(h, w, i % w),
                ),
            )
        } else {
            buf[i]
        },
    decreases nrows,
{
    assert(0 <= i / w && i / w < h && 0 <= i % w < w) by (nonlinear_arith)
        requires
            0 < w,
            0 < h,
            0 <= i < w * h,
    ;
    if nrows > 0 {
        let r = nrows - 1;
        let prev = pass_rows(g, w, h, buf, (nrows - 1) as nat);
        lemma_pass_rows_at(g, w, h, buf, (nrows - 1) as nat, i);
        lemma_pass_row_at(g, w, h, prev, r, w as nat, i);
        assert(r % w <= r && 0 <= r % w < w) by (nonlinear_arith)
            requires
                0 < w,
                0 <= r,
        ;
        assert(pass_rows(g, w, h, buf, nrows) == pass_row(g, w, h, prev, r, w as nat));
        if i / w == r % w && i % w < h {
            lemma_last_congruent_step(w, r, i / w);
            assert(last_congruent(w, nrows as int, i / w) == r);
        } else {
            if i / w < w && i % w < h {
                if i / w == r {
                    assert(r % w == r) by (nonlinear_arith)
                        requires
                            0 <= r < w,
                    ;
                    assert(false);
                }
                if i / w < r {
                    lemma_last_congruent_step(w, r, i / w);
                }
            }
        }
    }
}

/// A full generation pass (all `h` rows) over grid `g` into scratch buffer
/// `sc` produces exactly `next_buffer`.
pub proof fn lemma_pass_is_next_buffer(g: Seq<Cell>, w: int, h: int, sc: Seq<Cell>)
    requires
        0 < w,
        0 < h,
        sc.len() == w * h,
    ensures
        pass_rows(g, w, h, sc, h as nat) == next_buffer(w, h, g, sc),
{
    let a = pass_rows(g, w, h, sc, h as nat);
    let b = next_buffer(w, h, g, sc);
    assert(0 < w * h) by (nonlinear_arith)
        requires
            0 < w,
            0 < h,
    ;
    lemma_pass_rows_at(g, w, h, sc, h as nat, 0);
    assert forall|i: int| 0 <= i < w * h implies a[i] == b[i] by {
        lemma_pass_rows_at(g, w, h, sc, h as nat, i);
        assert(i / w < h) by (nonlinear_arith)
            requires
                0 < w,
                0 < h,
                0 <= i < w * h,
        ;
    };
    assert(a =~= b);
}

/// On a grid with no live cell, every neighbor count is zero.
pub proof fn lemma_live_neighbors_all_dead(g: Seq<Cell>, w: int, h: int, row: int, col: int)
    requires
        0 < w,
        0 < h,
        g.len() == w * h,
        all_dead(g),
        0 <= row < h,
        0 <= col < w,
    ensures
        live_neighbors(g, w, h, row, col) == 0,
{
    let up = row_above(h, row);
    let down = row_below(h, row);
    let left = col_left(w, col);
    let right = col_right(w, col);
    lemma_flat_index_in_bounds(w, h, up, left);
    lemma_flat_index_in_bounds(w, h, up, col);
    lemma_flat_index_in_bounds(w, h, up, right);
    lemma_flat_index_in_bounds(w, h, row, left);
    lemma_flat_index_in_bounds(w, h, row, right);
    lemma_flat_index_in_bounds(w, h, down, left);
    lemma_flat_index_in_bounds(w, h, down, col);
    lemma_flat_index_in_bounds(w, h, down, right);
}

/// One generation step of an entirely dead pair of buffers leaves every
/// cell dead: no position has three live neighbors, so none is born.
pub proof fn lemma_dead_step(w: int, h: int, g: Seq<Cell>, sc: Seq<Cell>)
    requires
        0 < w,
        0 < h,
        g.len() == w * h,
        sc.len() == w * h,
        all_dead(g),
        all_dead(sc),
    ensures
        next_buffer(w, h, g, sc).len() == w * h,
        all_dead(next_buffer(w, h, g, sc)),
{
    let nb = next_buffer(w, h, g, sc);
    assert forall|i: int| 0 <= i < nb.len() implies nb[i] is Dead by {
        assert(0 <= i / w && i / w < h && 0 <= i % w < w) by (nonlinear_arith)
            requires
                0 < w,
                0 < h,
                0 <= i < w * h,
        ;
        if pass_writes(w, h, i) {
            lemma_last_congruent(w, h, i / w);
            lemma_last_congruent(h, w, i % w);
            lemma_live_neighbors_all_dead(
                g,
                w,
                h,
                last_writer_row(w, h, i),
                last_writer_col(w, h, i),
            );
        }
    };
}

/// Stability: a grid with every cell dead in both buffers stays entirely
/// dead over any number of generation steps.
pub proof fn lemma_dead_grid_stays_dead(w: int, h: int, g: Seq<Cell>, sc: Seq<Cell>, n: nat)
    requires
        0 < w,
        0 < h,
        g.len() == w * h,
        sc.len() == w * h,
        all_dead(g),
        all_dead(sc),
    ensures
        evolved(w, h, g, sc, n).0.len() == w * h,
        evolved(w, h, g, sc, n).1.len() == w * h,
        all_dead(evolved(w, h, g, sc, n).0),
        all_dead(evolved(w, h, g, sc, n).1),
    decreases n,
{
    if n > 0 {
        lemma_dead_grid_stays_dead(w, h, g, sc, (n - 1) as nat);
        let prev = evolved(w, h, g, sc, (n - 1) as nat);
        lemma_dead_step(w, h, prev.0, prev.1);
    }
}

/// On a square grid the index mapping stays inside the buffer and is
/// injective over the canonical coordinate ranges row in [0, width),
/// column in [0, height). Neither half survives on a non-square grid:
/// with width 3 and height 2 the canonical pair (2, 1) maps to 7, past the
/// buffer of 6 cells, and with width 2 and height 3 the distinct canonical
/// pairs (1, 0) and (0, 2) both map to 2.
pub proof fn lemma_index_bijective_on_square(w: int, h: int, r1: int, c1: int, r2: int, c2: int)
    requires
        0 < w,
        w == h,
        0 <= r1 < w,
        0 <= c1 < h,
        0 <= r2 < w,
        0 <= c2 < h,
    ensures
        0 <= flat_index(w, h, r1, c1) < w * h,
        flat_index(w, h, r1, c1) == flat_index(w, h, r2, c2) ==> r1 == r2 && c1 == c2,
{
    lemma_flat_index_in_bounds(w, h, r1, c1);
    assert(r1 % w == r1 && c1 % h == c1 && r2 % w == r2 && c2 % h == c2) by (nonlinear_arith)
        requires
            0 < w,
            0 < h,
            0 <= r1 < w,
            0 <= c1 < h,
            0 <= r2 < w,
            0 <= c2 < h,
    ;
    if flat_index(w, h, r1, c1) == flat_index(w, h, r2, c2) {
        lemma_fundamental_div_mod_converse(r1 * w + c1, w, r1, c1);
        lemma_fundamental_div_mod_converse(r2 * w + c2, w, r2, c2);
    }
}

} // verus!
