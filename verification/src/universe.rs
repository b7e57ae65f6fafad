//! The grid engine: a width, a height, the primary cell buffer and a scratch
//! buffer of the same size, with operations to construct, seed, mutate,
//! query, and advance the grid one generation.

use vstd::prelude::*;
use vstd::string::StringExecFns;
use crate::rules;
use crate::rules::all_dead;
use crate::rules::flat_index;
use crate::rules::live_neighbors;

pub use crate::cell::Cell;

verus! {

/// A buffer of `n` dead cells.
fn dead_cells(n: usize) -> (v: Vec<Cell>)
    ensures
        v@.len() == n,
        all_dead(v@),
{
    let mut v: Vec<Cell> = Vec::new();
    let mut k: usize = 0;
    while k < n
        invariant
            v@.len() == k,
            k <= n,
            all_dead(v@),
        decreases n - k,
    {
        v.push(Cell::Dead);
        k += 1;
    }
    v
}

/// A toroidal grid of cells together with the scratch buffer that one
/// generation step writes into before the two buffers are swapped.
pub struct Universe {
    width: u32,
    height: u32,
    cells: Vec<Cell>,
    cache: Vec<Cell>,
}

impl Universe {
    /// The grid's width.
    pub closed spec fn spec_width(self) -> u32 {
        self.width
    }

    /// The grid's height.
    pub closed spec fn spec_height(self) -> u32 {
        self.height
    }

    /// The primary buffer, row-major.
    pub closed spec fn grid(self) -> Seq<Cell> {
        self.cells@
    }

    /// The scratch buffer a generation step writes into.
    pub closed spec fn scratch(self) -> Seq<Cell> {
        self.cache@
    }

    /// Well-formedness: the dimensions are nonzero, their product fits the
    /// index arithmetic, and both buffers have exactly one cell per position.
    pub closed spec fn wf(self) -> bool {
        &&& 0 < self.width
        &&& 0 < self.height
        &&& self.width * self.height <= u32::MAX
        &&& self.cells@.len() == self.width * self.height
        &&& self.cache@.len() == self.width * self.height
    }

    /// The flat buffer position a coordinate pair resolves to.
    pub open spec fn index_of(self, row: u32, column: u32) -> int {
        flat_index(self.spec_width() as int, self.spec_height() as int, row as int, column as int)
    }

    /// Whether the position (row, column) resolves to lies within the
    /// buffer. Canonical coordinates always do, and on a square grid every
    /// coordinate pair does; on a non-square grid a far out-of-range row or
    /// column can wrap past the end of the buffer.
    pub open spec fn in_buffer(self, row: u32, column: u32) -> bool {
        self.index_of(row, column) < self.spec_width() * self.spec_height()
    }

    /// A well-formed grid holds one cell per position in both buffers.
    pub proof fn lemma_wf_buffer_len(self)
        requires
            self.wf(),
        ensures
            self.grid().len() == self.spec_width() * self.spec_height(),
            self.scratch().len() == self.spec_width() * self.spec_height(),
            0 < self.spec_width(),
            0 < self.spec_height(),
            self.spec_width() * self.spec_height() <= u32::MAX,
    {
    }

    /// Canonical coordinates (row below the height, column below the width)
    /// always resolve into the buffer.
    pub proof fn lemma_canonical_in_buffer(self, row: u32, column: u32)
        requires
            self.wf(),
            row < self.spec_height(),
            column < self.spec_width(),
        ensures
            self.in_buffer(row, column),
    {
        rules::lemma_flat_index_in_bounds(
            self.spec_width() as int,
            self.spec_height() as int,
            row as int,
            column as int,
        );
    }

    /// On a square grid every coordinate pair, however far out of range,
    /// wraps to a position inside the buffer.
    pub proof fn lemma_square_always_in_buffer(self, row: u32, column: u32)
        requires
            self.wf(),
            self.spec_width() == self.spec_height(),
        ensures
            self.in_buffer(row, column),
    {
        let w = self.spec_width() as int;
        assert((row as int % w) * w + (column as int % w) < w * w) by (nonlinear_arith)
            requires
                0 < w,
                0 <= row as int,
                0 <= column as int,
        ;
    }

    /// The grid's width.
    pub fn width(&self) -> (w: u32)
        ensures
            w == self.spec_width(),
    {
        self.width
    }

    /// The grid's height.
    pub fn height(&self) -> (h: u32)
        ensures
            h == self.spec_height(),
    {
        self.height
    }

    /// Read-only access to the primary buffer in row-major order. The
    /// reference is stale after any later mutating call: a generation step
    /// swaps the buffers underneath it.
    pub fn get_cells(&self) -> (cells: &Vec<Cell>)
        ensures
            cells@ == self.grid(),
    {
        &self.cells
    }

    /// A fresh 128 by 128 grid with every cell dead.
    pub fn new() -> (u: Universe)
        ensures
            u.wf(),
            u.spec_width() == 128,
            u.spec_height() == 128,
            u.grid().len() == 128 * 128,
            all_dead(u.grid()),
            all_dead(u.scratch()),
    {
        Universe::default()
    }

    /// Seeds a fresh 128 by 128 grid from one independent draw per cell, in
    /// row-major order: a cell is set alive exactly where its draw asked for
    /// it. The draws stand for uniform values in [0, 1) from the host's
    /// random source, each already compared against one half.
    pub fn random(draws: &Vec<bool>) -> (u: Universe)
        requires
            draws@.len() == 128 * 128,
        ensures
            u.wf(),
            u.spec_width() == 128,
            u.spec_height() == 128,
            u.grid().len() == draws@.len(),
            forall|i: int| 0 <= i < draws@.len() ==> (u.grid()[i] is Alive <==> draws@[i]),
            all_dead(u.scratch()),
    {
        let mut u = Universe::new();
        let mut k: usize = 0;
        while k < draws.len()
            invariant
                u.wf(),
                u.spec_width() == 128,
                u.spec_height() == 128,
                all_dead(u.scratch()),
                u.grid().len() == 128 * 128,
                draws@.len() == 128 * 128,
                k <= draws@.len(),
                forall|i: int| 0 <= i < k ==> (u.grid()[i] is Alive <==> draws@[i]),
                forall|i: int| k <= i < u.grid().len() ==> u.grid()[i] is Dead,
            decreases draws@.len() - k,
        {
            if draws[k] {
                let mut c = u.cells[k];
                c.toggle();
                u.cells[k] = c;
            }
            k += 1;
        }
        u
    }

    /// A fresh 128 by 128 grid seeded with the glider pattern at
    /// {(1,2), (2,3), (3,1), (3,2), (3,3)}: a 5-cell spaceship that
    /// translates one row down and one column right every 4 generations.
    pub fn new_spaceship() -> (u: Universe)
        ensures
            u.wf(),
            u.spec_width() == 128,
            u.spec_height() == 128,
            u.grid().len() == 128 * 128,
            all_dead(u.scratch()),
            forall|i: int|
                0 <= i < u.grid().len() ==> (u.grid()[i] is Alive <==> (i == 130 || i == 259 || i
                    == 385 || i == 386 || i == 387)),
    {
        let mut u = Universe::new();
        let mut ship: Vec<(u32, u32)> = Vec::new();
        ship.push((1, 2));
        ship.push((2, 3));
        ship.push((3, 1));
        ship.push((3, 2));
        ship.push((3, 3));
        proof {
            assert(ship@ =~= seq![(1u32, 2u32), (2u32, 3u32), (3u32, 1u32), (3u32, 2u32), (3u32, 3u32)]);
            assert forall|k: int| 0 <= k < ship@.len() implies u.in_buffer(
                ship@[k].0,
                ship@[k].1,
            ) by {
                assert(k == 0 || k == 1 || k == 2 || k == 3 || k == 4);
            };
        }
        let ghost u0: Universe = u;
        u.set_cells(ship.as_slice());
        proof {
            let s = ship@;
            let g = u.grid();
            assert(u0.index_of(s[0].0, s[0].1) == 130);
            assert(u0.index_of(s[1].0, s[1].1) == 259);
            assert(u0.index_of(s[2].0, s[2].1) == 385);
            assert(u0.index_of(s[3].0, s[3].1) == 386);
            assert(u0.index_of(s[4].0, s[4].1) == 387);
            assert forall|i: int|
                0 <= i < g.len() implies (g[i] is Alive <==> (i == 130 || i == 259 || i == 385 || i
                == 386 || i == 387)) by {
                if exists|k: int| 0 <= k < s.len() && u0.index_of(s[k].0, s[k].1) == i {
                    let k = choose|k: int| 0 <= k < s.len() && u0.index_of(s[k].0, s[k].1) == i;
                    assert(k == 0 || k == 1 || k == 2 || k == 3 || k == 4);
                } else {
                    if i == 130 {
                        assert(0 <= 0 < s.len() && u0.index_of(s[0].0, s[0].1) == i);
                    }
                    if i == 259 {
                        assert(0 <= 1 < s.len() && u0.index_of(s[1].0, s[1].1) == i);
                    }
                    if i == 385 {
                        assert(0 <= 2 < s.len() && u0.index_of(s[2].0, s[2].1) == i);
                    }
                    if i == 386 {
                        assert(0 <= 3 < s.len() && u0.index_of(s[3].0, s[3].1) == i);
                    }
                    if i == 387 {
                        assert(0 <= 4 < s.len() && u0.index_of(s[4].0, s[4].1) == i);
                    }
                }
            };
        }
        u
    }

    /// The flat buffer position of (row, column): the row wrapped by the
    /// width, the column wrapped by the height.
    fn get_index(&self, row: u32, column: u32) -> (idx: usize)
        requires
            self.wf(),
            self.in_buffer(row, column),
        ensures
            idx == self.index_of(row, column),
            idx < self.grid().len(),
            idx < self.scratch().len(),
    {
        let r: u32 = row % self.width;
        let c: u32 = column % self.height;
        (r * self.width + c) as usize
    }

    /// Counts the alive cells among the eight wrap-adjusted neighbors of
    /// (row, column): never more than eight.
    #[verifier::rlimit(50)]
    pub fn live_neighbor_count(&self, row: u32, column: u32) -> (count: u8)
        requires
            self.wf(),
            row < self.spec_height(),
            column < self.spec_width(),
        ensures
            count as int == live_neighbors(
                self.grid(),
                self.spec_width() as int,
                self.spec_height() as int,
                row as int,
                column as int,
            ),
            count <= 8,
    {
        let w: u32 = self.width;
        let h: u32 = self.height;
        let up: u32 = if row == 0 {
            h - 1
        } else {
            row - 1
        };
        let down: u32 = if row == h - 1 {
            0
        } else {
            row + 1
        };
        let left: u32 = if column == 0 {
            w - 1
        } else {
            column - 1
        };
        let right: u32 = if column == w - 1 {
            0
        } else {
            column + 1
        };
        proof {
            rules::lemma_flat_index_in_bounds(w as int, h as int, up as int, left as int);
            rules::lemma_flat_index_in_bounds(w as int, h as int, up as int, column as int);
            rules::lemma_flat_index_in_bounds(w as int, h as int, up as int, right as int);
            rules::lemma_flat_index_in_bounds(w as int, h as int, row as int, left as int);
            rules::lemma_flat_index_in_bounds(w as int, h as int, row as int, right as int);
            rules::lemma_flat_index_in_bounds(w as int, h as int, down as int, left as int);
            rules::lemma_flat_index_in_bounds(w as int, h as int, down as int, column as int);
            rules::lemma_flat_index_in_bounds(w as int, h as int, down as int, right as int);
        }
        let mut count: u8 = 0;
        let i0 = self.get_index(up, left);
        count += self.cells[i0].as_u8();
        let i1 = self.get_index(up, column);
        count += self.cells[i1].as_u8();
        let i2 = self.get_index(up, right);
        count += self.cells[i2].as_u8();
        let i3 = self.get_index(row, left);
        count += self.cells[i3].as_u8();
        let i4 = self.get_index(row, right);
        count += self.cells[i4].as_u8();
        let i5 = self.get_index(down, left);
        count += self.cells[i5].as_u8();
        let i6 = self.get_index(down, column);
        count += self.cells[i6].as_u8();
        let i7 = self.get_index(down, right);
        count += self.cells[i7].as_u8();
        count
    }

    /// Advances the grid one generation: the next state of every cell is
    /// computed from the current buffer and written into the scratch buffer,
    /// then the two buffers are swapped in place, so the step never
    /// allocates.
    pub fn tick(&mut self)
        requires
            old(self).wf(),
        ensures
            final(self).wf(),
            final(self).spec_width() == old(self).spec_width(),
            final(self).spec_height() == old(self).spec_height(),
            final(self).grid() == rules::next_buffer(
                old(self).spec_width() as int,
                old(self).spec_height() as int,
                old(self).grid(),
                old(self).scratch(),
            ),
            final(self).scratch() == old(self).grid(),
    {
        let w: u32 = self.width;
        let h: u32 = self.height;
        let ghost g: Seq<Cell> = self.cells@;
        let ghost sc: Seq<Cell> = self.cache@;
        let mut row: u32 = 0;
        while row < h
            invariant
                self.wf(),
                self.width == w,
                self.height == h,
                self.cells@ == g,
                row <= h,
                sc.len() == w * h,
                self.cache@ == rules::pass_rows(g, w as int, h as int, sc, row as nat),
            decreases h - row,
        {
            let mut col: u32 = 0;
            while col < w
                invariant
                    self.wf(),
                    self.width == w,
                    self.height == h,
                    self.cells@ == g,
                    row < h,
                    col <= w,
                    sc.len() == w * h,
                    self.cache@ == rules::pass_row(
                        g,
                        w as int,
                        h as int,
                        rules::pass_rows(g, w as int, h as int, sc, row as nat),
                        row as int,
                        col as nat,
                    ),
                decreases w - col,
            {
                proof {
                    self.lemma_canonical_in_buffer(row, col);
                }
                let idx = self.get_index(row, col);
                let cell = self.cells[idx];
                let live = self.live_neighbor_count(row, col);
                let next = match cell {
                    // a live cell survives with two or three live neighbors
                    // and dies of under- or overpopulation otherwise
                    Cell::Alive => if live < 2 {
                        Cell::Dead
                    } else if live <= 3 {
                        Cell::Alive
                    } else {
                        Cell::Dead
                    },
                    // a dead cell is born with exactly three live neighbors
                    Cell::Dead => if live == 3 {
                        Cell::Alive
                    } else {
                        Cell::Dead
                    },
                };
                self.cache[idx] = next;
                proof {
                    let base = rules::pass_rows(g, w as int, h as int, sc, row as nat);
                    assert(self.cache@ == rules::pass_row(
                        g,
                        w as int,
                        h as int,
                        base,
                        row as int,
                        (col + 1) as nat,
                    ));
                }
                col += 1;
            }
            proof {
                assert(rules::pass_rows(g, w as int, h as int, sc, (row + 1) as nat)
                    == rules::pass_row(
                    g,
                    w as int,
                    h as int,
                    rules::pass_rows(g, w as int, h as int, sc, row as nat),
                    row as int,
                    w as nat,
                ));
            }
            row += 1;
        }
        proof {
            rules::lemma_pass_is_next_buffer(g, w as int, h as int, sc);
        }
        core::mem::swap(&mut self.cells, &mut self.cache);
    }

    /// Resizes to the given width: a destructive reset that discards all
    /// cell state and leaves a fresh, entirely dead grid at the new
    /// dimensions.
    pub fn set_width(&mut self, width: u32)
        requires
            old(self).wf(),
            0 < width,
            width * old(self).spec_height() <= u32::MAX,
        ensures
            final(self).wf(),
            final(self).spec_width() == width,
            final(self).spec_height() == old(self).spec_height(),
            final(self).grid().len() == width * old(self).spec_height(),
            all_dead(final(self).grid()),
            all_dead(final(self).scratch()),
    {
        self.width = width;
        let n: u32 = width * self.height;
        self.cells = dead_cells(n as usize);
        self.cache = dead_cells(n as usize);
    }

    /// Resizes to the given height: a destructive reset that discards all
    /// cell state and leaves a fresh, entirely dead grid at the new
    /// dimensions.
    pub fn set_height(&mut self, height: u32)
        requires
            old(self).wf(),
            0 < height,
            old(self).spec_width() * height <= u32::MAX,
        ensures
            final(self).wf(),
            final(self).spec_width() == old(self).spec_width(),
            final(self).spec_height() == height,
            final(self).grid().len() == old(self).spec_width() * height,
            all_dead(final(self).grid()),
            all_dead(final(self).scratch()),
    {
        self.height = height;
        let n: u32 = self.width * height;
        self.cells = dead_cells(n as usize);
        self.cache = dead_cells(n as usize);
    }

    /// Flips the cell at (row, column) between dead and alive; out-of-range
    /// coordinates wrap through the index mapping rather than erroring.
    pub fn toggle_cell(&mut self, row: u32, column: u32)
        requires
            old(self).wf(),
            old(self).in_buffer(row, column),
        ensures
            final(self).wf(),
            final(self).spec_width() == old(self).spec_width(),
            final(self).spec_height() == old(self).spec_height(),
            final(self).scratch() == old(self).scratch(),
            final(self).grid() == old(self).grid().update(
                old(self).index_of(row, column),
                crate::cell::flipped(old(self).grid()[old(self).index_of(row, column)]),
            ),
    {
        let idx = self.get_index(row, column);
        let mut c = self.cells[idx];
        c.toggle();
        self.cells[idx] = c;
    }

    /// Sets every listed (row, column) coordinate alive, each resolved
    /// through the index mapping; unlisted positions keep their prior state,
    /// and a coordinate that is already alive stays alive.
    pub fn set_cells(&mut self, coords: &[(u32, u32)])
        requires
            old(self).wf(),
            forall|k: int|
                0 <= k < coords@.len() ==> old(self).in_buffer(coords@[k].0, coords@[k].1),
        ensures
            final(self).wf(),
            final(self).spec_width() == old(self).spec_width(),
            final(self).spec_height() == old(self).spec_height(),
            final(self).scratch() == old(self).scratch(),
            final(self).grid().len() == old(self).grid().len(),
            forall|j: int|
                0 <= j < final(self).grid().len() ==> final(self).grid()[j] == (if (exists|k: int|
                    0 <= k < coords@.len() && old(self).index_of(coords@[k].0, coords@[k].1)
                        == j) {
                    Cell::Alive
                } else {
                    old(self).grid()[j]
                }),
    {
        let ghost orig = *self;
        let mut k: usize = 0;
        while k < coords.len()
            invariant
                self.wf(),
                orig.wf(),
                self.spec_width() == orig.spec_width(),
                self.spec_height() == orig.spec_height(),
                self.scratch() == orig.scratch(),
                self.grid().len() == orig.grid().len(),
                k <= coords@.len(),
                forall|t: int| 0 <= t < coords@.len() ==> orig.in_buffer(coords@[t].0, coords@[t].1),
                forall|j: int|
                    0 <= j < self.grid().len() ==> self.grid()[j] == (if (exists|t: int|
                        0 <= t < k && orig.index_of(coords@[t].0, coords@[t].1) == j) {
                        Cell::Alive
                    } else {
                        orig.grid()[j]
                    }),
            decreases coords@.len() - k,
        {
            let rc: (u32, u32) = *vstd::slice::slice_index_get(coords, k);
            let idx = self.get_index(rc.0, rc.1);
            self.cells[idx] = Cell::Alive;
            proof {
                let ghost kk = k as int;
                assert forall|j: int|
                    0 <= j < self.grid().len() implies self.grid()[j] == (if (exists|t: int|
                    0 <= t < kk + 1 && orig.index_of(coords@[t].0, coords@[t].1) == j) {
                    Cell::Alive
                } else {
                    orig.grid()[j]
                }) by {
                    if j == idx {
                        assert(orig.index_of(coords@[kk].0, coords@[kk].1) == j);
                    } else {
                        if exists|t: int|
                            0 <= t < kk + 1 && orig.index_of(coords@[t].0, coords@[t].1) == j {
                            let t = choose|t: int|
                                0 <= t < kk + 1 && orig.index_of(coords@[t].0, coords@[t].1) == j;
                            assert(t < kk);
                        }
                    }
                };
            }
            k += 1;
        }
    }

    /// The textual grid: `height` lines of `width` glyphs each (one per
    /// cell, a hollow square for dead, a filled square for alive), every
    /// line terminated by a newline.
    pub fn render(&self) -> (s: String)
        requires
            self.wf(),
        ensures
            s@ == rules::rendered(
                self.spec_width() as int,
                self.spec_height() as int,
                self.grid(),
            ),
    {
        let w: u32 = self.width;
        let h: u32 = self.height;
        let ghost g: Seq<Cell> = self.cells@;
        let ghost out: Seq<char> = rules::rendered(w as int, h as int, g);
        let mut s = String::new();
        let mut row: u32 = 0;
        while row < h
            invariant
                self.wf(),
                self.width == w,
                self.height == h,
                self.cells@ == g,
                row <= h,
                out == rules::rendered(w as int, h as int, g),
                out.len() == h * (w as int + 1),
                s@ == out.subrange(0, row as int * (w as int + 1)),
            decreases h - row,
        {
            let ghost line_start: int = row as int * (w as int + 1);
            proof {
                assert((row as int + 1) * (w as int + 1) == line_start + w + 1) by (nonlinear_arith)
                    requires
                        line_start == row as int * (w as int + 1),
                ;
                assert(line_start + w + 1 <= out.len()) by (nonlinear_arith)
                    requires
                        out.len() == h * (w as int + 1),
                        (row as int + 1) * (w as int + 1) == line_start + w + 1,
                        row < h,
                        0 <= row,
                        0 < w,
                ;
                assert(0 <= line_start) by (nonlinear_arith)
                    requires
                        line_start == row as int * (w as int + 1),
                        0 <= row as int,
                        0 < w,
                ;
            }
            let mut col: u32 = 0;
            while col < w
                invariant
                    self.wf(),
                    self.width == w,
                    self.height == h,
                    self.cells@ == g,
                    row < h,
                    col <= w,
                    out == rules::rendered(w as int, h as int, g),
                    out.len() == h * (w as int + 1),
                    line_start == row as int * (w as int + 1),
                    0 <= line_start,
                    line_start + w + 1 <= out.len(),
                    s@ == out.subrange(0, line_start + col),
                decreases w - col,
            {
                let ghost kpos: int = line_start + col;
                proof {
                    reveal_strlit("\u{25fb}");
                    reveal_strlit("\u{25fc}");
                    vstd::arithmetic::div_mod::lemma_fundamental_div_mod_converse(
                        kpos,
                        w as int + 1,
                        row as int,
                        col as int,
                    );
                    assert(row as int * w + col < w * h && 0 <= row as int * w) by (nonlinear_arith)
                        requires
                            0 <= row as int,
                            0 <= col as int,
                            row < h,
                            col < w,
                            0 < w,
                            0 < h,
                    ;
                    assert(out[kpos] == rules::glyph(g[row as int * w + col as int]));
                }
                let pos: u32 = row * w + col;
                let mark: &str = match self.cells[pos as usize] {
                    Cell::Dead => "\u{25fb}",
                    Cell::Alive => "\u{25fc}",
                };
                proof {
                    assert(mark@ =~= seq![out[kpos]]);
                }
                s.append(mark);
                proof {
                    assert(s@ =~= out.subrange(0, kpos + 1));
                }
                col += 1;
            }
            s.append("\n");
            proof {
                reveal_strlit("\n");
                let kpos: int = line_start + w;
                vstd::arithmetic::div_mod::lemma_fundamental_div_mod_converse(
                    kpos,
                    w as int + 1,
                    row as int,
                    w as int,
                );
                assert(out[kpos] == '\n');
                assert(s@ =~= out.subrange(0, kpos + 1));
                assert((row as int + 1) * (w as int + 1) == kpos + 1) by (nonlinear_arith)
                    requires
                        line_start == row as int * (w as int + 1),
                        kpos == line_start + w,
                ;
            }
            row += 1;
        }
        proof {
            assert(row as int * (w as int + 1) == out.len()) by (nonlinear_arith)
                requires
                    row == h,
                    out.len() == h * (w as int + 1),
            ;
            assert(s@ =~= out);
        }
        s
    }
}

impl Default for Universe {
    /// A 128 by 128 grid with every cell dead in both buffers.
    fn default() -> (u: Universe)
        ensures
            u.wf(),
            u.spec_width() == 128,
            u.spec_height() == 128,
            u.grid().len() == 128 * 128,
            all_dead(u.grid()),
            all_dead(u.scratch()),
    {
        let width: u32 = 128;
        let height: u32 = 128;
        let n: usize = (width * height) as usize;
        Universe { width, height, cells: dead_cells(n), cache: dead_cells(n) }
    }
}

/// Determinism: the generation step is a function of the dimensions and the
/// two buffers alone, so two engines in equal states hold bit-identical
/// buffers after any number of steps. One step of the engine computes
/// exactly one step of `evolved`: the next buffer becomes primary and the
/// old primary becomes the scratch.
pub proof fn lemma_deterministic_evolution(u1: Universe, u2: Universe, n: nat)
    requires
        u1.wf(),
        u2.wf(),
        u1.spec_width() == u2.spec_width(),
        u1.spec_height() == u2.spec_height(),
        u1.grid() == u2.grid(),
        u1.scratch() == u2.scratch(),
    ensures
        rules::evolved(
            u1.spec_width() as int,
            u1.spec_height() as int,
            u1.grid(),
            u1.scratch(),
            n,
        ) == rules::evolved(
            u2.spec_width() as int,
            u2.spec_height() as int,
            u2.grid(),
            u2.scratch(),
            n,
        ),
{
}

/// Stability: a well-formed universe whose buffers are entirely dead stays
/// entirely dead over any number of generation steps.
pub proof fn lemma_dead_universe_stays_dead(u: Universe, n: nat)
    requires
        u.wf(),
        all_dead(u.grid()),
        all_dead(u.scratch()),
    ensures
        all_dead(
            rules::evolved(
                u.spec_width() as int,
                u.spec_height() as int,
                u.grid(),
                u.scratch(),
                n,
            ).0,
        ),
        all_dead(
            rules::evolved(
                u.spec_width() as int,
                u.spec_height() as int,
                u.grid(),
                u.scratch(),
                n,
            ).1,
        ),
{
    u.lemma_wf_buffer_len();
    rules::lemma_dead_grid_stays_dead(
        u.spec_width() as int,
        u.spec_height() as int,
        u.grid(),
        u.scratch(),
        n,
    );
}

} // verus!
