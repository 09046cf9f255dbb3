//! The step engine: one generation transition, in three interchangeable
//! execution strategies. Every strategy reads only a snapshot of the
//! previous generation and is proved to produce exactly `step_spec` of it,
//! so the three are behaviourally indistinguishable.

use vstd::prelude::*;

use crate::grid::Lifegame;
use crate::model::{lemma_rowmajor_bound, lemma_rowmajor_unique, neighbor_count_spec,
    next_cell_spec, occ, rows_view, step_spec, wf_vec};

verus! {

/// A per-cell result message of the fan-out/aggregate strategy: the
/// coordinate of one cell and the value it takes in the next generation.
/// Message `k` of the queue carries the cell with row-major index `k`.
pub open spec fn msg_ok(c0: Seq<Seq<bool>>, w: int, k: int, m: ((usize, usize), bool)) -> bool {
    &&& m.0.0 as int * w + m.0.1 as int == k
    &&& (m.0.0 as int) < c0.len()
    &&& (m.0.1 as int) < w
    &&& m.1 == next_cell_spec(c0, m.0.0 as int, m.0.1 as int)
}

/// Sets a single cell of a bare matrix, leaving every other cell
/// unchanged.
fn set_in(cells: &mut Vec<Vec<bool>>, y: usize, x: usize, v: bool)
    requires
        y < old(cells)@.len(),
        x < old(cells)@[y as int]@.len(),
    ensures
        final(cells)@.len() == old(cells)@.len(),
        forall|yy: int|
            0 <= yy < old(cells)@.len() && yy != y ==> final(cells)@[yy] == old(cells)@[yy],
        final(cells)@[y as int]@ == old(cells)@[y as int]@.update(x as int, v),
{
    cells[y][x] = v;
}

/// Number of live cells among the eight neighbours of `(y, x)` in `source`,
/// counting positions outside the matrix as dead.
pub fn count_neighbors(source: &Vec<Vec<bool>>, y: usize, x: usize) -> (r: usize)
    requires
        y < source@.len(),
        x < source@[y as int]@.len(),
    ensures
        r as int == neighbor_count_spec(rows_view(*source), y as int, x as int),
{
    let ghost c = rows_view(*source);
    let mut a: usize = 0;
    if y > 0 {
        let row = &source[y - 1];
        if x > 0 && x - 1 < row.len() && row[x - 1] {
            a = a + 1;
        }
        proof {
            assert(c[y - 1] == source@[y - 1]@);
            assert(a as int == occ(c, y - 1, x - 1));
        }
        if x < row.len() && row[x] {
            a = a + 1;
        }
        proof {
            assert(a as int == occ(c, y - 1, x - 1) + occ(c, y - 1, x as int));
        }
        if x < row.len() && x + 1 < row.len() && row[x + 1] {
            a = a + 1;
        }
        proof {
            assert(a as int == occ(c, y - 1, x - 1) + occ(c, y - 1, x as int) + occ(
                c,
                y - 1,
                x + 1,
            ));
        }
    } else {
        proof {
            assert(occ(c, y - 1, x - 1) == 0 && occ(c, y - 1, x as int) == 0 && occ(
                c,
                y - 1,
                x + 1,
            ) == 0);
        }
    }
    let ghost above = occ(c, y - 1, x - 1) + occ(c, y - 1, x as int) + occ(c, y - 1, x + 1);
    proof {
        assert(a as int == above);
    }
    let row = &source[y];
    if x > 0 && x - 1 < row.len() && row[x - 1] {
        a = a + 1;
    }
    proof {
        assert(c[y as int] == source@[y as int]@);
        assert(a as int == above + occ(c, y as int, x - 1));
    }
    if x < row.len() && x + 1 < row.len() && row[x + 1] {
        a = a + 1;
    }
    let ghost mid = above + occ(c, y as int, x - 1) + occ(c, y as int, x + 1);
    proof {
        assert(a as int == mid);
    }
    let sl = source.len();
    if y + 1 < sl {
        let row = &source[y + 1];
        if x > 0 && x - 1 < row.len() && row[x - 1] {
            a = a + 1;
        }
        proof {
            assert(c[y + 1] == source@[y + 1]@);
            assert(a as int == mid + occ(c, y + 1, x - 1));
        }
        if x < row.len() && row[x] {
            a = a + 1;
        }
        proof {
            assert(a as int == mid + occ(c, y + 1, x - 1) + occ(c, y + 1, x as int));
        }
        if x < row.len() && x + 1 < row.len() && row[x + 1] {
            a = a + 1;
        }
        proof {
            assert(a as int == mid + occ(c, y + 1, x - 1) + occ(c, y + 1, x as int) + occ(
                c,
                y + 1,
                x + 1,
            ));
        }
    } else {
        proof {
            assert(occ(c, y + 1, x - 1) == 0 && occ(c, y + 1, x as int) == 0 && occ(
                c,
                y + 1,
                x + 1,
            ) == 0);
        }
    }
    a
}

/// The life rule applied to one cell of the snapshot `source`: the value
/// this cell takes in the next generation.
pub fn next_cell_value(source: &Vec<Vec<bool>>, y: usize, x: usize) -> (r: bool)
    requires
        y < source@.len(),
        x < source@[y as int]@.len(),
    ensures
        r == next_cell_spec(rows_view(*source), y as int, x as int),
{
    let a = count_neighbors(source, y, x);
    let alive = source[y][x];
    proof {
        assert(rows_view(*source)[y as int] == source@[y as int]@);
    }
    if alive {
        a == 2 || a == 3
    } else {
        a == 3
    }
}

impl Lifegame {
    /// Live-neighbour count of `(row, col)` against the given source
    /// matrix, which must have this grid's shape; positions outside the
    /// grid count as dead.
    pub fn neighbor_count(&self, row: usize, col: usize, source: &Vec<Vec<bool>>) -> (r: usize)
        requires
            row < self.height,
            col < self.width,
            wf_vec(*source, self.height as int, self.width as int),
        ensures
            r as int == neighbor_count_spec(rows_view(*source), row as int, col as int),
    {
        count_neighbors(source, row, col)
    }

    /// Sequential strategy: advances the grid one generation in place,
    /// reading every cell's neighbourhood from a snapshot of the previous
    /// generation.
    pub fn next(&mut self)
        requires
            old(self).wf(),
        ensures
            final(self).wf(),
            final(self).same_dims(old(self)),
            final(self).grid() == step_spec(old(self).grid()),
    {
        let ghost c0 = old(self).grid();
        let prev = self.snapshot();
        let h = self.height;
        let w = self.width;
        let mut y: usize = 0;
        while y < h
            invariant
                self.wf(),
                self.height == h,
                self.width == w,
                y <= h,
                wf_vec(prev, h as int, w as int),
                rows_view(prev) == c0,
                c0.len() == h,
                forall|yy: int, xx: int|
                    0 <= yy < y && 0 <= xx < w ==> self.cells@[yy]@[xx]
                        == #[trigger] next_cell_spec(c0, yy, xx),
                forall|yy: int| y <= yy < h ==> self.cells@[yy]@ == #[trigger] c0[yy],
            decreases h - y,
        {
            proof {
                assert(forall|yy: int, xx: int|
                    0 <= yy < y && 0 <= xx < w ==> self.cells@[yy]@[xx]
                        == #[trigger] next_cell_spec(c0, yy, xx));
                assert(forall|yy: int| y <= yy < h ==> self.cells@[yy]@ == #[trigger] c0[yy]);
            }
            let ghost yold = y as int;
            let mut row: Vec<bool> = Vec::new();
            let mut x: usize = 0;
            while x < w
                invariant
                    x <= w,
                    y < h,
                    wf_vec(prev, h as int, w as int),
                    rows_view(prev) == c0,
                    row@.len() == x,
                    forall|xx: int|
                        0 <= xx < x ==> row@[xx] == #[trigger] next_cell_spec(c0, y as int, xx),
                decreases w - x,
            {
                let v = next_cell_value(&prev, y, x);
                row.push(v);
                x = x + 1;
            }
            self.cells[y] = row;
            y = y + 1;
            proof {
                assert forall|yy: int, xx: int|
                    0 <= yy < y && 0 <= xx < w implies self.cells@[yy]@[xx]
                    == #[trigger] next_cell_spec(c0, yy, xx) by {
                    if yy == yold {
                        assert(self.cells@[yy]@ == row@);
                    }
                }
                assert(forall|yy: int| y <= yy < h ==> self.cells@[yy]@ == #[trigger] c0[yy]);
            }
        }
        proof {
            assert(forall|yy: int, xx: int|
                0 <= yy < h && 0 <= xx < w ==> self.cells@[yy]@[xx] == #[trigger] next_cell_spec(
                    c0,
                    yy,
                    xx,
                ));
            assert forall|yy: int| 0 <= yy < h implies self.grid()[yy] =~= step_spec(c0)[yy] by {
                assert(self.grid()[yy] == self.cells@[yy]@);
                assert(c0[yy].len() == w);
            }
            assert(self.grid() =~~= step_spec(c0));
        }
    }

    /// Fan-out/aggregate strategy: a per-cell task queue is filled with one
    /// `(coordinate, value)` message per cell, each computed against the
    /// immutable snapshot of the previous generation; the driver then
    /// drains the queue and writes every message into the live grid.
    pub fn next_parallel_channel(&mut self)
        requires
            old(self).wf(),
        ensures
            final(self).wf(),
            final(self).same_dims(old(self)),
            final(self).grid() == step_spec(old(self).grid()),
    {
        let ghost c0 = old(self).grid();
        let prev = self.snapshot();
        let h = self.height;
        let w = self.width;
        let mut msgs: Vec<((usize, usize), bool)> = Vec::new();
        let mut y: usize = 0;
        while y < h
            invariant
                y <= h,
                wf_vec(prev, h as int, w as int),
                rows_view(prev) == c0,
                c0.len() == h,
                msgs@.len() == y * w,
                forall|k: int|
                    0 <= k < msgs@.len() ==> msg_ok(c0, w as int, k, #[trigger] msgs@[k]),
            decreases h - y,
        {
            let ghost yold = y as int;
            let mut x: usize = 0;
            while x < w
                invariant
                    y < h,
                    x <= w,
                    wf_vec(prev, h as int, w as int),
                    rows_view(prev) == c0,
                    c0.len() == h,
                    msgs@.len() == y * w + x,
                    forall|k: int|
                        0 <= k < msgs@.len() ==> msg_ok(c0, w as int, k, #[trigger] msgs@[k]),
                decreases w - x,
            {
                proof {
                    assert(forall|k: int|
                        0 <= k < msgs@.len() ==> msg_ok(c0, w as int, k, #[trigger] msgs@[k]));
                }
                let ghost len0 = msgs@.len() as int;
                let v = next_cell_value(&prev, y, x);
                msgs.push(((y, x), v));
                x = x + 1;
                proof {
                    assert(msgs@.len() == y * w + x);
                    assert(msg_ok(c0, w as int, len0, ((y, (x - 1) as usize), v)));
                    assert forall|k: int|
                        0 <= k < msgs@.len() implies msg_ok(c0, w as int, k, #[trigger] msgs@[k]) by {
                        if k < len0 {
                            assert(msgs@[k] == msgs@.subrange(0, len0)[k]);
                        } else {
                            assert(msgs@[k] == ((y, (x - 1) as usize), v));
                        }
                    }
                }
            }
            y = y + 1;
            proof {
                assert(msgs@.len() == yold * w + w);
                assert(y * w == yold * w + w) by (nonlinear_arith)
                    requires
                        y == yold + 1,
                ;
            }
        }
        proof {
            assert(msgs@.len() == h * w);
            crate::model::lemma_wf_vec_view(prev, h as int, w as int);
        }
        let m = msgs.len();
        let mut k: usize = 0;
        while k < m
            invariant
                self.wf(),
                self.height == h,
                self.width == w,
                k <= m,
                c0.len() == h,
                crate::model::wf_cells(c0, h as int, w as int),
                m == msgs@.len(),
                msgs@.len() == h * w,
                forall|kk: int|
                    0 <= kk < msgs@.len() ==> msg_ok(c0, w as int, kk, #[trigger] msgs@[kk]),
                forall|yy: int, xx: int|
                    0 <= yy < h && 0 <= xx < w ==> self.cells@[yy]@[xx] == (if yy * w + xx < k {
                        next_cell_spec(c0, yy, xx)
                    } else {
                        (#[trigger] c0[yy][xx])
                    }),
            decreases m - k,
        {
            proof {
                assert(forall|kk: int|
                    0 <= kk < msgs@.len() ==> msg_ok(c0, w as int, kk, #[trigger] msgs@[kk]));
                assert(forall|yy: int, xx: int|
                    0 <= yy < h && 0 <= xx < w ==> self.cells@[yy]@[xx] == (if yy * w + xx < k {
                        next_cell_spec(c0, yy, xx)
                    } else {
                        (#[trigger] c0[yy][xx])
                    }));
            }
            let ghost kold = k as int;
            let mk = msgs[k];
            let y = mk.0.0;
            let x = mk.0.1;
            proof {
                assert(msg_ok(c0, w as int, kold, mk));
            }
            let ghost prev_cells = self.cells;
            self.set_cell(y, x, mk.1);
            k = k + 1;
            proof {
                assert forall|yy: int, xx: int|
                    0 <= yy < h && 0 <= xx < w implies self.cells@[yy]@[xx] == (if yy * w + xx
                    < k {
                    next_cell_spec(c0, yy, xx)
                } else {
                    (#[trigger] c0[yy][xx])
                }) by {
                    if yy == y as int && xx == x as int {
                        assert(self.grid()[yy][xx] == mk.1);
                        assert(self.cells@[yy]@[xx] == mk.1);
                    } else {
                        assert(self.grid()[yy][xx] == rows_view(prev_cells)[yy][xx]);
                        assert(self.cells@[yy]@[xx] == prev_cells@[yy]@[xx]);
                        if yy * w + xx == kold {
                            lemma_rowmajor_unique(w as int, yy, xx, y as int, x as int);
                        }
                    }
                }
            }
        }
        proof {
            assert(forall|yy: int, xx: int|
                0 <= yy < h && 0 <= xx < w ==> self.cells@[yy]@[xx] == (if yy * w + xx < k {
                    next_cell_spec(c0, yy, xx)
                } else {
                    (#[trigger] c0[yy][xx])
                }));
            assert forall|yy: int| 0 <= yy < h implies self.grid()[yy] =~= step_spec(c0)[yy] by {
                assert forall|xx: int|
                    0 <= xx < w implies self.cells@[yy]@[xx] == next_cell_spec(c0, yy, xx) by {
                    lemma_rowmajor_bound(h as int, w as int, yy, xx);
                }
                assert(self.grid()[yy] == self.cells@[yy]@);
                assert(c0[yy].len() == w);
            }
            assert(self.grid() =~~= step_spec(c0));
        }
    }

    /// Fan-out/shared-state strategy: every per-cell task computes its
    /// value against the immutable snapshot of the previous generation and
    /// writes it into a shared next-state buffer (one cell per write, the
    /// exclusively-held critical section); the driver then copies the
    /// buffer back into the grid after all tasks are done.
    pub fn next_parallel_mutex(&mut self)
        requires
            old(self).wf(),
        ensures
            final(self).wf(),
            final(self).same_dims(old(self)),
            final(self).grid() == step_spec(old(self).grid()),
    {
        let ghost c0 = old(self).grid();
        let prev = self.snapshot();
        let mut next_buf = self.snapshot();
        let h = self.height;
        let w = self.width;
        let mut y: usize = 0;
        while y < h
            invariant
                y <= h,
                wf_vec(prev, h as int, w as int),
                rows_view(prev) == c0,
                c0.len() == h,
                wf_vec(next_buf, h as int, w as int),
                forall|yy: int, xx: int|
                    0 <= yy < h && 0 <= xx < w ==> next_buf@[yy]@[xx] == (if yy < y {
                        next_cell_spec(c0, yy, xx)
                    } else {
                        (#[trigger] c0[yy][xx])
                    }),
            decreases h - y,
        {
            proof {
                assert(forall|yy: int, xx: int|
                    0 <= yy < h && 0 <= xx < w ==> next_buf@[yy]@[xx] == (if yy < y {
                        next_cell_spec(c0, yy, xx)
                    } else {
                        (#[trigger] c0[yy][xx])
                    }));
            }
            let ghost yold = y as int;
            let mut x: usize = 0;
            while x < w
                invariant
                    y < h,
                    x <= w,
                    y == yold,
                    wf_vec(prev, h as int, w as int),
                    rows_view(prev) == c0,
                    c0.len() == h,
                    wf_vec(next_buf, h as int, w as int),
                    forall|yy: int, xx: int|
                        0 <= yy < h && 0 <= xx < w ==> next_buf@[yy]@[xx] == (if yy < y || (yy
                            == y && xx < x) {
                            next_cell_spec(c0, yy, xx)
                        } else {
                            (#[trigger] c0[yy][xx])
                        }),
                decreases w - x,
            {
                proof {
                    assert(forall|yy: int, xx: int|
                        0 <= yy < h && 0 <= xx < w ==> next_buf@[yy]@[xx] == (if yy < y || (yy
                            == y && xx < x) {
                            next_cell_spec(c0, yy, xx)
                        } else {
                            (#[trigger] c0[yy][xx])
                        }));
                }
                let ghost xold = x as int;
                let ghost buf0 = next_buf;
                let v = next_cell_value(&prev, y, x);
                set_in(&mut next_buf, y, x, v);
                x = x + 1;
                proof {
                    assert forall|yy: int, xx: int|
                        0 <= yy < h && 0 <= xx < w implies next_buf@[yy]@[xx] == (if yy < y || (
                    yy == y && xx < x) {
                        next_cell_spec(c0, yy, xx)
                    } else {
                        (#[trigger] c0[yy][xx])
                    }) by {
                        if yy == y as int && xx == xold {
                            assert(next_buf@[yy]@[xx] == v);
                        } else if yy == y as int {
                            assert(next_buf@[yy]@[xx] == buf0@[yy]@[xx]);
                        } else {
                            assert(next_buf@[yy] == buf0@[yy]);
                        }
                    }
                }
            }
            y = y + 1;
            proof {
                assert forall|yy: int, xx: int|
                    0 <= yy < h && 0 <= xx < w implies next_buf@[yy]@[xx] == (if yy < y {
                    next_cell_spec(c0, yy, xx)
                } else {
                    (#[trigger] c0[yy][xx])
                }) by {
                    assert(next_buf@[yy]@[xx] == (if yy < yold || (yy == yold && xx < w) {
                        next_cell_spec(c0, yy, xx)
                    } else {
                        c0[yy][xx]
                    }));
                }
            }
        }
        self.cells = next_buf;
        proof {
            assert(forall|yy: int, xx: int|
                0 <= yy < h && 0 <= xx < w ==> self.cells@[yy]@[xx] == (if yy < y {
                    next_cell_spec(c0, yy, xx)
                } else {
                    (#[trigger] c0[yy][xx])
                }));
            assert forall|yy: int| 0 <= yy < h implies self.grid()[yy] =~= step_spec(c0)[yy] by {
                assert(self.grid()[yy] == self.cells@[yy]@);
                assert(c0[yy].len() == w);
            }
            assert(self.grid() =~~= step_spec(c0));
        }
    }
}

} // verus!
