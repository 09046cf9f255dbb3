//! Mathematical model of the automaton: cell matrices as sequences of
//! sequences of booleans, the neighbour-counting rule, the one-generation
//! step, and cycle detection over a 10-deep history window.

use vstd::prelude::*;

verus! {

/// Row-by-row mathematical view of a two-dimensional vector.
pub open spec fn rows_view<T>(v: Vec<Vec<T>>) -> Seq<Seq<T>> {
    Seq::new(v@.len(), |y: int| v@[y]@)
}

/// A cell matrix of exactly `h` rows, each exactly `w` cells wide.
pub open spec fn wf_cells(c: Seq<Seq<bool>>, h: int, w: int) -> bool {
    c.len() == h && (forall|y: int| 0 <= y < h ==> (#[trigger] c[y]).len() == w)
}

/// Shape of a two-dimensional vector, phrased at the vector level so that
/// element accesses discharge their bounds directly.
pub open spec fn wf_vec(cs: Vec<Vec<bool>>, h: int, w: int) -> bool {
    cs@.len() == h && (forall|y: int| 0 <= y < h ==> (#[trigger] cs@[y])@.len() == w)
}

/// The two shape predicates agree: a well-shaped vector has a well-shaped
/// view.
pub proof fn lemma_wf_vec_view(cs: Vec<Vec<bool>>, h: int, w: int)
    requires
        wf_vec(cs, h, w),
    ensures
        wf_cells(rows_view(cs), h, w),
{
    assert forall|y: int| 0 <= y < h implies (#[trigger] rows_view(cs)[y]).len() == w by {
        assert(rows_view(cs)[y] == cs@[y]@);
    }
}


/// 1 when `(y, x)` lies inside the matrix and holds a live cell, 0 otherwise;
/// a position outside the matrix counts as permanently dead (edge clamping,
/// no wrap-around).
pub open spec fn occ(c: Seq<Seq<bool>>, y: int, x: int) -> int {
    if 0 <= y < c.len() && 0 <= x < c[y].len() && c[y][x] {
        1int
    } else {
        0int
    }
}

/// Number of live cells among the eight surrounding positions of `(y, x)`,
/// counting out-of-bounds positions as dead.
pub open spec fn neighbor_count_spec(c: Seq<Seq<bool>>, y: int, x: int) -> int {
    occ(c, y - 1, x - 1) + occ(c, y - 1, x) + occ(c, y - 1, x + 1)
        + occ(c, y, x - 1) + occ(c, y, x + 1)
        + occ(c, y + 1, x - 1) + occ(c, y + 1, x) + occ(c, y + 1, x + 1)
}

/// The standard life rule for one cell, read from the previous generation:
/// a live cell survives with 2 or 3 live neighbours, a dead cell is born
/// with exactly 3, every other cell is dead in the next generation.
pub open spec fn next_cell_spec(c: Seq<Seq<bool>>, y: int, x: int) -> bool {
    let a = neighbor_count_spec(c, y, x);
    if c[y][x] {
        a == 2 || a == 3
    } else {
        a == 3
    }
}

/// One full generation: every cell of the result is the rule applied to the
/// previous matrix, so the whole step reads a consistent snapshot.
pub open spec fn step_spec(c: Seq<Seq<bool>>) -> Seq<Seq<bool>> {
    Seq::new(c.len(), |y: int| Seq::new(c[y].len(), |x: int| next_cell_spec(c, y, x)))
}

/// The matrix after `n` generations.
pub open spec fn after_steps(c: Seq<Seq<bool>>, n: nat) -> Seq<Seq<bool>>
    decreases n,
{
    if n == 0 {
        c
    } else {
        step_spec(after_steps(c, (n - 1) as nat))
    }
}

/// Oldest generation still inside the 10-deep lookback window when the
/// scorer compares generation `n`.
pub open spec fn window_lo(n: int) -> int {
    if n >= 10 {
        n - 10
    } else {
        0
    }
}

/// Generation `n` of the run started at `c0` matches one of the up to 10
/// generations just before it.
pub open spec fn repeats_at(c0: Seq<Seq<bool>>, n: int) -> bool {
    exists|j: int|
        window_lo(n) <= j < n && after_steps(c0, n as nat) == #[trigger] after_steps(c0, j as nat)
}

/// `n` is the first generation at which the run started at `c0` repeats a
/// state of its lookback window: exactly the value the scorer returns.
pub open spec fn is_score(c0: Seq<Seq<bool>>, n: int) -> bool {
    1 <= n && repeats_at(c0, n) && (forall|m: int| 1 <= m < n ==> !repeats_at(c0, m))
}

/// The run started at `c0` repeats within its window no later than
/// generation `bound`; on such a start the scorer terminates.
pub open spec fn scores_within(c0: Seq<Seq<bool>>, bound: int) -> bool {
    exists|n: int| is_score(c0, n) && n <= bound
}

/// Generation held by history slot `t` (0 oldest, 9 newest) once the
/// scorer's counter stands at `n`: the ten generations before `n`, padded
/// with the initial state while fewer than ten exist.
pub open spec fn hist_gen(n: int, t: int) -> nat {
    if n - 10 + t >= 0 {
        (n - 10 + t) as nat
    } else {
        0nat
    }
}

/// All-dead cell matrix.
pub open spec fn blank(h: nat, w: nat) -> Seq<Seq<bool>> {
    Seq::new(h, |y: int| Seq::new(w, |x: int| false))
}

/// Whether one of the first `n` entries of the coordinate list is the pair
/// `(y, x)`. Written as a recursion over the index bound so that it nests
/// inside quantified loop invariants without an inner quantifier.
pub open spec fn contains_coord_upto(s: Seq<(usize, usize)>, n: int, y: int, x: int) -> bool
    decreases n,
{
    0 < n <= s.len() && ((s[n - 1].0 == y && s[n - 1].1 == x) || contains_coord_upto(
        s,
        n - 1,
        y,
        x,
    ))
}

/// Whether the coordinate list holds the pair `(y, x)`.
pub open spec fn contains_coord(s: Seq<(usize, usize)>, y: int, x: int) -> bool {
    contains_coord_upto(s, s.len() as int, y, x)
}

/// The bounded membership test agrees with pointwise membership of the
/// prefix.
pub proof fn lemma_contains_coord_upto_iff(s: Seq<(usize, usize)>, n: int, y: int, x: int)
    requires
        n <= s.len(),
    ensures
        contains_coord_upto(s, n, y, x) <==> exists|k: int|
            0 <= k < n && (#[trigger] s[k]).0 == y && s[k].1 == x,
    decreases n,
{
    if 0 < n {
        lemma_contains_coord_upto_iff(s, n - 1, y, x);
        if s[n - 1].0 == y && s[n - 1].1 == x {
            assert(0 <= n - 1 < n && s[n - 1].0 == y && s[n - 1].1 == x);
        }
    }
}

/// The membership test agrees with pointwise membership.
pub proof fn lemma_contains_coord_iff(s: Seq<(usize, usize)>, y: int, x: int)
    ensures
        contains_coord(s, y, x) <==> exists|k: int|
            0 <= k < s.len() && (#[trigger] s[k]).0 == y && s[k].1 == x,
{
    lemma_contains_coord_upto_iff(s, s.len() as int, y, x);
}

/// Cell matrix with exactly the listed coordinates alive.
pub open spec fn with_seed(h: nat, w: nat, s: Seq<(usize, usize)>) -> Seq<Seq<bool>> {
    Seq::new(h, |y: int| Seq::new(w, |x: int| contains_coord(s, y, x)))
}

/// The score is unique where it exists: two first-repeat generations of the
/// same start are equal.
pub proof fn lemma_score_unique(c0: Seq<Seq<bool>>, a: int, b: int)
    requires
        is_score(c0, a),
        is_score(c0, b),
    ensures
        a == b,
{
}

/// Row-major cell indices are unique: two in-range coordinate pairs with
/// the same flat index are the same pair.
pub proof fn lemma_rowmajor_unique(w: int, y1: int, x1: int, y2: int, x2: int)
    requires
        0 <= x1 < w,
        0 <= x2 < w,
        0 <= y1,
        0 <= y2,
        y1 * w + x1 == y2 * w + x2,
    ensures
        y1 == y2,
        x1 == x2,
{
    assert(y1 == y2 && x1 == x2) by (nonlinear_arith)
        requires
            0 <= x1 < w,
            0 <= x2 < w,
            0 <= y1,
            0 <= y2,
            y1 * w + x1 == y2 * w + x2,
    ;
}

/// A cell inside an `h` by `w` matrix has a flat row-major index below
/// `h * w`.
pub proof fn lemma_rowmajor_bound(h: int, w: int, y: int, x: int)
    requires
        0 <= y < h,
        0 <= x < w,
    ensures
        0 <= y * w + x < h * w,
{
    assert(0 <= y * w + x < h * w) by (nonlinear_arith)
        requires
            0 <= y < h,
            0 <= x < w,
    ;
}

} // verus!
