//! Grid-level laws: edge clamping at the corner and stability of the
//! 2-by-2 block, stated over the mathematical model and proved once for
//! every grid size.

use vstd::prelude::*;

use crate::model::{after_steps, is_score, neighbor_count_spec, occ, repeats_at, step_spec,
    wf_cells, window_lo};

verus! {

/// Edge clamping: a corner cell of any grid considers exactly its three
/// in-bounds neighbour positions — the count is the sum of those three
/// occupancies and never exceeds 3, with no wrap to the opposite edge.
pub proof fn lemma_corner_clamp(c: Seq<Seq<bool>>, h: int, w: int)
    requires
        wf_cells(c, h, w),
        h >= 2,
        w >= 2,
    ensures
        neighbor_count_spec(c, 0, 0) == occ(c, 0, 1) + occ(c, 1, 0) + occ(c, 1, 1),
        neighbor_count_spec(c, 0, 0) <= 3,
{
}

/// Grid of `h` by `w` cells, all dead but for the 2-by-2 block whose
/// upper-left corner is `(y, x)`.
pub open spec fn block_grid(h: nat, w: nat, y: int, x: int) -> Seq<Seq<bool>> {
    Seq::new(h, |yy: int| Seq::new(w, |xx: int| y <= yy < y + 2 && x <= xx < x + 2))
}

/// Still-life stability: a 2-by-2 block of live cells in an otherwise dead
/// grid is left unchanged by the step, whatever the grid size and the
/// block's position inside it.
pub proof fn lemma_block_still_life(h: nat, w: nat, y: int, x: int)
    requires
        0 <= y,
        y + 2 <= h,
        0 <= x,
        x + 2 <= w,
    ensures
        step_spec(block_grid(h, w, y, x)) == block_grid(h, w, y, x),
{
    let b = block_grid(h, w, y, x);
    assert forall|yy: int| 0 <= yy < h implies step_spec(b)[yy] =~= b[yy] by {
        assert forall|xx: int| 0 <= xx < w implies step_spec(b)[yy][xx] == b[yy][xx] by {
            assert(step_spec(b)[yy][xx] == crate::model::next_cell_spec(b, yy, xx));
            assert(occ(b, yy - 1, xx - 1) == (if y <= yy - 1 < y + 2 && x <= xx - 1 < x + 2 {
                1int
            } else {
                0int
            }));
            assert(occ(b, yy - 1, xx) == (if y <= yy - 1 < y + 2 && x <= xx < x + 2 {
                1int
            } else {
                0int
            }));
            assert(occ(b, yy - 1, xx + 1) == (if y <= yy - 1 < y + 2 && x <= xx + 1 < x + 2
                && xx + 1 < w {
                1int
            } else {
                0int
            }));
            assert(occ(b, yy, xx - 1) == (if y <= yy < y + 2 && x <= xx - 1 < x + 2 {
                1int
            } else {
                0int
            }));
            assert(occ(b, yy, xx + 1) == (if y <= yy < y + 2 && x <= xx + 1 < x + 2 && xx + 1
                < w {
                1int
            } else {
                0int
            }));
            assert(occ(b, yy + 1, xx - 1) == (if y <= yy + 1 < y + 2 && x <= xx - 1 < x + 2
                && yy + 1 < h {
                1int
            } else {
                0int
            }));
            assert(occ(b, yy + 1, xx) == (if y <= yy + 1 < y + 2 && x <= xx < x + 2 && yy + 1
                < h {
                1int
            } else {
                0int
            }));
            assert(occ(b, yy + 1, xx + 1) == (if y <= yy + 1 < y + 2 && x <= xx + 1 < x + 2
                && yy + 1 < h && xx + 1 < w {
                1int
            } else {
                0int
            }));
        }
    }
    assert(step_spec(b) =~~= b);
}

/// The block is a still life, so the scorer's very first comparison hits:
/// generation 1 equals generation 0 and the score of a block grid is
/// exactly 1.
pub proof fn lemma_block_scores_one(h: nat, w: nat, y: int, x: int)
    requires
        0 <= y,
        y + 2 <= h,
        0 <= x,
        x + 2 <= w,
    ensures
        is_score(block_grid(h, w, y, x), 1),
{
    let b = block_grid(h, w, y, x);
    lemma_block_still_life(h, w, y, x);
    assert(after_steps(b, 1nat) == step_spec(after_steps(b, 0nat)));
    assert(after_steps(b, 1nat) == after_steps(b, 0nat));
    assert(window_lo(1) <= 0 < 1 && after_steps(b, 1nat) == after_steps(b, 0nat));
    assert(repeats_at(b, 1));
}

/// Grid of `h` by `w` cells, all dead but for a horizontal blinker: three
/// live cells in row `y` at columns `x`, `x+1`, `x+2`.
pub open spec fn blinker_h(h: nat, w: nat, y: int, x: int) -> Seq<Seq<bool>> {
    Seq::new(h, |yy: int| Seq::new(w, |xx: int| yy == y && x <= xx < x + 3))
}

/// Grid of `h` by `w` cells, all dead but for a vertical blinker: three
/// live cells in column `x+1` at rows `y-1`, `y`, `y+1`.
pub open spec fn blinker_v(h: nat, w: nat, y: int, x: int) -> Seq<Seq<bool>> {
    Seq::new(h, |yy: int| Seq::new(w, |xx: int| xx == x + 1 && y - 1 <= yy < y + 2))
}

/// One step turns the horizontal blinker into the vertical one.
pub proof fn lemma_blinker_h_to_v(h: nat, w: nat, y: int, x: int)
    requires
        1 <= y,
        y + 2 <= h,
        0 <= x,
        x + 3 <= w,
    ensures
        step_spec(blinker_h(h, w, y, x)) == blinker_v(h, w, y, x),
{
    let b = blinker_h(h, w, y, x);
    let v = blinker_v(h, w, y, x);
    assert forall|yy: int| 0 <= yy < h implies step_spec(b)[yy] =~= v[yy] by {
        assert forall|xx: int| 0 <= xx < w implies step_spec(b)[yy][xx] == v[yy][xx] by {
            assert(step_spec(b)[yy][xx] == crate::model::next_cell_spec(b, yy, xx));
            assert(occ(b, yy - 1, xx - 1) == (if yy - 1 == y && x <= xx - 1 < x + 3 {
                1int
            } else {
                0int
            }));
            assert(occ(b, yy - 1, xx) == (if yy - 1 == y && x <= xx < x + 3 {
                1int
            } else {
                0int
            }));
            assert(occ(b, yy - 1, xx + 1) == (if yy - 1 == y && x <= xx + 1 < x + 3 && xx + 1
                < w {
                1int
            } else {
                0int
            }));
            assert(occ(b, yy, xx - 1) == (if yy == y && x <= xx - 1 < x + 3 {
                1int
            } else {
                0int
            }));
            assert(occ(b, yy, xx + 1) == (if yy == y && x <= xx + 1 < x + 3 && xx + 1 < w {
                1int
            } else {
                0int
            }));
            assert(occ(b, yy + 1, xx - 1) == (if yy + 1 == y && x <= xx - 1 < x + 3 {
                1int
            } else {
                0int
            }));
            assert(occ(b, yy + 1, xx) == (if yy + 1 == y && x <= xx < x + 3 {
                1int
            } else {
                0int
            }));
            assert(occ(b, yy + 1, xx + 1) == (if yy + 1 == y && x <= xx + 1 < x + 3 && xx + 1
                < w {
                1int
            } else {
                0int
            }));
        }
    }
    assert(step_spec(b) =~~= v);
}

/// One step turns the vertical blinker back into the horizontal one.
pub proof fn lemma_blinker_v_to_h(h: nat, w: nat, y: int, x: int)
    requires
        1 <= y,
        y + 2 <= h,
        0 <= x,
        x + 3 <= w,
    ensures
        step_spec(blinker_v(h, w, y, x)) == blinker_h(h, w, y, x),
{
    let v = blinker_v(h, w, y, x);
    let b = blinker_h(h, w, y, x);
    assert forall|yy: int| 0 <= yy < h implies step_spec(v)[yy] =~= b[yy] by {
        assert forall|xx: int| 0 <= xx < w implies step_spec(v)[yy][xx] == b[yy][xx] by {
            assert(step_spec(v)[yy][xx] == crate::model::next_cell_spec(v, yy, xx));
            assert(occ(v, yy - 1, xx - 1) == (if xx - 1 == x + 1 && y - 1 <= yy - 1 < y + 2
                && 0 <= yy - 1 {
                1int
            } else {
                0int
            }));
            assert(occ(v, yy - 1, xx) == (if xx == x + 1 && y - 1 <= yy - 1 < y + 2 && 0 <= yy
                - 1 {
                1int
            } else {
                0int
            }));
            assert(occ(v, yy - 1, xx + 1) == (if xx + 1 == x + 1 && y - 1 <= yy - 1 < y + 2
                && 0 <= yy - 1 {
                1int
            } else {
                0int
            }));
            assert(occ(v, yy, xx - 1) == (if xx - 1 == x + 1 && y - 1 <= yy < y + 2 {
                1int
            } else {
                0int
            }));
            assert(occ(v, yy, xx + 1) == (if xx + 1 == x + 1 && y - 1 <= yy < y + 2 {
                1int
            } else {
                0int
            }));
            assert(occ(v, yy + 1, xx - 1) == (if xx - 1 == x + 1 && y - 1 <= yy + 1 < y + 2
                && yy + 1 < h {
                1int
            } else {
                0int
            }));
            assert(occ(v, yy + 1, xx) == (if xx == x + 1 && y - 1 <= yy + 1 < y + 2 && yy + 1
                < h {
                1int
            } else {
                0int
            }));
            assert(occ(v, yy + 1, xx + 1) == (if xx + 1 == x + 1 && y - 1 <= yy + 1 < y + 2
                && yy + 1 < h {
                1int
            } else {
                0int
            }));
        }
    }
    assert(step_spec(v) =~~= b);
}

/// Oscillator detection: a blinker with a ring of dead cells around it
/// oscillates with period 2, and the scorer returns exactly 2 for it —
/// generation 1 differs from generation 0, generation 2 equals it.
pub proof fn lemma_blinker_scores_two(h: nat, w: nat, y: int, x: int)
    requires
        1 <= y,
        y + 2 <= h,
        0 <= x,
        x + 3 <= w,
    ensures
        is_score(blinker_h(h, w, y, x), 2),
{
    let b = blinker_h(h, w, y, x);
    let v = blinker_v(h, w, y, x);
    lemma_blinker_h_to_v(h, w, y, x);
    lemma_blinker_v_to_h(h, w, y, x);
    assert(after_steps(b, 1nat) == step_spec(after_steps(b, 0nat)));
    assert(after_steps(b, 1nat) == v);
    assert(after_steps(b, 2nat) == step_spec(after_steps(b, 1nat)));
    assert(after_steps(b, 2nat) == b);
    assert(window_lo(2) <= 0 < 2 && after_steps(b, 2nat) == after_steps(b, 0nat));
    assert(repeats_at(b, 2));
    assert(b[y][x]);
    assert(!v[y][x]);
    assert(b != v);
    assert forall|m: int| 1 <= m < 2 implies !repeats_at(b, m) by {
        if repeats_at(b, 1) {
            let j = choose|j: int|
                window_lo(1) <= j < 1 && after_steps(b, 1nat) == #[trigger] after_steps(
                    b,
                    j as nat,
                );
            assert(j == 0);
            assert(v == b);
        }
    }
}

} // verus!
