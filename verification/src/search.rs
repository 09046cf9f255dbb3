//! The exhaustive seed search: enumerates the rectangle's coordinates in
//! row-major order, forms every subset of them in ascending bit-mask order
//! (subset `m` holds coordinate `i` exactly when bit `i` of `m` is set),
//! scores each subset as a seed over an otherwise empty grid, and retains
//! the best score; on equal scores the later-enumerated subset wins.

use vstd::prelude::*;

use crate::grid::Lifegame;
use crate::model::{contains_coord, is_score, lemma_score_unique, rows_view, scores_within,
    wf_vec, with_seed};

verus! {

/// 2 to the power `n`.
pub open spec fn pow2(n: nat) -> nat
    decreases n,
{
    if n == 0 {
        1nat
    } else {
        2 * pow2((n - 1) as nat)
    }
}

/// The sequence of all subsets of `xs`, in ascending bit-mask order:
/// subset `m` holds element `i` exactly when bit `i` of `m` is set, so the
/// empty subset comes first and the full list last.
pub open spec fn power_seq<T>(xs: Seq<T>) -> Seq<Seq<T>>
    decreases xs.len(),
{
    if xs.len() == 0 {
        seq![Seq::<T>::empty()]
    } else {
        let p = power_seq(xs.drop_last());
        p + p.map_values(|s: Seq<T>| s.push(xs.last()))
    }
}

/// The power-set sequence of a `k`-element list has exactly `2^k` entries.
pub proof fn lemma_power_seq_len<T>(xs: Seq<T>)
    ensures
        power_seq(xs).len() == pow2(xs.len()),
    decreases xs.len(),
{
    if xs.len() > 0 {
        lemma_power_seq_len(xs.drop_last());
    }
}

/// Powers of two are positive, so the power-set sequence is never empty.
pub proof fn lemma_pow2_pos(n: nat)
    ensures
        pow2(n) >= 1,
    decreases n,
{
    if n > 0 {
        lemma_pow2_pos((n - 1) as nat);
    }
}

/// The first subset of the enumeration is the empty subset.
pub proof fn lemma_power_seq_first<T>(xs: Seq<T>)
    ensures
        power_seq(xs).len() >= 1,
        power_seq(xs)[0] == Seq::<T>::empty(),
    decreases xs.len(),
{
    lemma_power_seq_len(xs);
    lemma_pow2_pos(xs.len());
    if xs.len() > 0 {
        lemma_power_seq_first(xs.drop_last());
    }
}

/// The last subset of the enumeration is the full list.
pub proof fn lemma_power_seq_last<T>(xs: Seq<T>)
    ensures
        power_seq(xs).len() >= 1,
        power_seq(xs).last() == xs,
    decreases xs.len(),
{
    lemma_power_seq_len(xs);
    lemma_pow2_pos(xs.len());
    if xs.len() > 0 {
        let p = power_seq(xs.drop_last());
        lemma_power_seq_last(xs.drop_last());
        assert(power_seq(xs).last() == p.map_values(|s: Seq<T>| s.push(xs.last())).last());
        assert(p.map_values(|s: Seq<T>| s.push(xs.last())).last() == p.last().push(xs.last()));
        assert(xs.drop_last().push(xs.last()) =~= xs);
    }
}

/// Every element of every enumerated subset is an element of the list.
pub proof fn lemma_power_seq_members<T>(xs: Seq<T>, i: int)
    requires
        0 <= i < power_seq(xs).len(),
    ensures
        forall|k: int|
            0 <= k < power_seq(xs)[i].len() ==> xs.contains(#[trigger] power_seq(xs)[i][k]),
    decreases xs.len(),
{
    if xs.len() == 0 {
        assert(power_seq(xs)[i] == Seq::<T>::empty());
    } else {
        let dl = xs.drop_last();
        let p = power_seq(dl);
        assert forall|k: int|
            0 <= k < power_seq(xs)[i].len() implies xs.contains(
            #[trigger] power_seq(xs)[i][k]) by {
            if i < p.len() {
                lemma_power_seq_members(dl, i);
                assert(power_seq(xs)[i] == p[i]);
                assert(dl.contains(p[i][k]));
                let t = choose|t: int| 0 <= t < dl.len() && dl[t] == p[i][k];
                assert(xs[t] == dl[t]);
            } else {
                let ii = i - p.len();
                lemma_power_seq_members(dl, ii);
                assert(power_seq(xs)[i] == p.map_values(|s: Seq<T>| s.push(xs.last()))[ii]);
                assert(power_seq(xs)[i] == p[ii].push(xs.last()));
                if k < p[ii].len() {
                    assert(power_seq(xs)[i][k] == p[ii][k]);
                    assert(dl.contains(p[ii][k]));
                    let t = choose|t: int| 0 <= t < dl.len() && dl[t] == p[ii][k];
                    assert(xs[t] == dl[t]);
                } else {
                    assert(power_seq(xs)[i][k] == xs.last());
                    assert(xs[xs.len() - 1] == xs.last());
                }
            }
        }
    }
}

/// No duplicates: for a list of distinct elements, no subset appears
/// twice in the enumeration.
pub proof fn lemma_power_seq_distinct<T>(xs: Seq<T>)
    requires
        forall|a: int, b: int| #![trigger xs[a], xs[b]] 0 <= a < b < xs.len() ==> xs[a] != xs[b],
    ensures
        forall|i: int, j: int| #![trigger power_seq(xs)[i], power_seq(xs)[j]]
            0 <= i < j < power_seq(xs).len() ==> power_seq(xs)[i] != power_seq(xs)[j],
    decreases xs.len(),
{
    if xs.len() > 0 {
        let dl = xs.drop_last();
        let p = power_seq(dl);
        assert(forall|a: int, b: int| #![trigger dl[a], dl[b]]
            0 <= a < b < dl.len() ==> dl[a] != dl[b]);
        lemma_power_seq_distinct(dl);
        assert forall|i: int, j: int| #![trigger power_seq(xs)[i], power_seq(xs)[j]]
            0 <= i < j < power_seq(xs).len() implies power_seq(xs)[i] != power_seq(xs)[j] by {
            let f = |s: Seq<T>| s.push(xs.last());
            if j < p.len() {
                assert(power_seq(xs)[i] == p[i] && power_seq(xs)[j] == p[j]);
            } else if i >= p.len() {
                assert(power_seq(xs)[i] == p.map_values(f)[i - p.len()]);
                assert(power_seq(xs)[j] == p.map_values(f)[j - p.len()]);
                assert(power_seq(xs)[i] == p[i - p.len()].push(xs.last()));
                assert(power_seq(xs)[j] == p[j - p.len()].push(xs.last()));
                if power_seq(xs)[i] == power_seq(xs)[j] {
                    assert(p[i - p.len()].push(xs.last()).drop_last() =~= p[i - p.len()]);
                    assert(p[j - p.len()].push(xs.last()).drop_last() =~= p[j - p.len()]);
                    assert(p[i - p.len()] == p[j - p.len()]);
                    assert(false);
                }
            } else {
                let s1 = p[i];
                let s2 = p[j - p.len()].push(xs.last());
                assert(power_seq(xs)[i] == s1);
                assert(power_seq(xs)[j] == p.map_values(f)[j - p.len()]);
                assert(power_seq(xs)[j] == s2);
                if s1 == s2 {
                    assert(s1.len() >= 1);
                    assert(s1[s1.len() - 1] == xs.last());
                    lemma_power_seq_members(dl, i);
                    assert(dl.contains(s1[s1.len() - 1]));
                    let t = choose|t: int| 0 <= t < dl.len() && dl[t] == s1[s1.len() - 1];
                    assert(xs[t] == dl[t]);
                    assert(xs[t] == xs[xs.len() - 1]);
                    assert(t < xs.len() - 1);
                    assert(false);
                }
            }
        }
    }
}

/// Order-preserving selection: `s` picks some of the elements of `xs`,
/// keeping their order.
pub open spec fn is_subseq<T>(s: Seq<T>, xs: Seq<T>) -> bool
    decreases xs.len(),
{
    if s.len() == 0 {
        true
    } else if xs.len() == 0 {
        false
    } else if s.last() == xs.last() {
        is_subseq(s.drop_last(), xs.drop_last()) || is_subseq(s, xs.drop_last())
    } else {
        is_subseq(s, xs.drop_last())
    }
}

/// No omissions: every order-preserving selection of the list appears in
/// the enumeration.
pub proof fn lemma_power_seq_complete<T>(xs: Seq<T>, s: Seq<T>)
    requires
        is_subseq(s, xs),
    ensures
        power_seq(xs).contains(s),
    decreases xs.len(),
{
    if xs.len() == 0 {
        assert(s =~= Seq::<T>::empty());
        assert(power_seq(xs)[0] == s);
    } else {
        let dl = xs.drop_last();
        let p = power_seq(dl);
        if s.len() > 0 && s.last() == xs.last() && is_subseq(s.drop_last(), dl) {
            lemma_power_seq_complete(dl, s.drop_last());
            let i = choose|i: int| 0 <= i < p.len() && p[i] == s.drop_last();
            assert(power_seq(xs)[p.len() + i] == p.map_values(
                |t: Seq<T>| t.push(xs.last()),
            )[i]);
            assert(power_seq(xs)[p.len() + i] == s.drop_last().push(xs.last()));
            assert(s.drop_last().push(s.last()) =~= s);
            assert(power_seq(xs)[p.len() + i] == s);
        } else {
            assert(is_subseq(s, dl));
            lemma_power_seq_complete(dl, s);
            let i = choose|i: int| 0 <= i < p.len() && p[i] == s;
            assert(power_seq(xs)[i] == s);
        }
    }
}

/// Row `y` of the search rectangle: the coordinates `(y, x0) .. (y, x1)`.
pub open spec fn row_coords(y: usize, x0: usize, x1: usize) -> Seq<(usize, usize)> {
    if x0 <= x1 {
        Seq::new((x1 - x0) as nat, |k: int| (y, (x0 + k) as usize))
    } else {
        Seq::empty()
    }
}

/// The coordinates of the rectangle `[y0, y1) x [x0, x1)` in row-major
/// order.
pub open spec fn rect_coords(y0: usize, y1: usize, x0: usize, x1: usize) -> Seq<(usize, usize)>
    decreases y1 - y0,
{
    if y0 < y1 {
        rect_coords(y0, (y1 - 1) as usize, x0, x1) + row_coords((y1 - 1) as usize, x0, x1)
    } else {
        Seq::empty()
    }
}

/// Index `i` names the winning candidate of the search: its seed scores
/// `best`, the grid is left holding that seed, no candidate scores more,
/// and no later candidate ties it.
pub open spec fn is_winner(
    h: nat,
    w: nat,
    subs: Seq<Seq<(usize, usize)>>,
    best: int,
    g: Seq<Seq<bool>>,
    i: int,
) -> bool {
    &&& 0 <= i < subs.len()
    &&& is_score(with_seed(h, w, subs[i]), best)
    &&& g == with_seed(h, w, subs[i])
    &&& forall|j: int, m: int|
        0 <= j < subs.len() && #[trigger] is_score(with_seed(h, w, subs[j]), m) ==> m <= best && (
        j > i ==> m < best)
}

/// Some candidate wins the search with score `best`, leaving the grid as
/// its seed.
pub open spec fn best_of_search(
    h: nat,
    w: nat,
    subs: Seq<Seq<(usize, usize)>>,
    best: int,
    g: Seq<Seq<bool>>,
) -> bool {
    exists|i: int| #[trigger] is_winner(h, w, subs, best, g, i)
}

impl Lifegame {
    /// All subsets of the given list, in ascending bit-mask order: subset
    /// `m` holds element `i` exactly when bit `i` of `m` is set. Exactly
    /// `2^k` subsets for a `k`-element list, the empty subset first and
    /// the full list last.
    pub fn subsequences<T: Copy>(xs: &Vec<T>) -> (r: Vec<Vec<T>>)
        ensures
            rows_view(r) == power_seq(xs@),
    {
        let mut result: Vec<Vec<T>> = Vec::new();
        result.push(Vec::new());
        proof {
            assert(xs@.take(0) =~= Seq::<T>::empty());
            assert(rows_view(result) =~~= power_seq(xs@.take(0)));
        }
        let n = xs.len();
        let mut i: usize = 0;
        while i < n
            invariant
                i <= n,
                n == xs@.len(),
                rows_view(result) == power_seq(xs@.take(i as int)),
            decreases n - i,
        {
            let ghost pre = xs@.take(i as int);
            let ghost res0 = result@;
            let m = result.len();
            proof {
                assert forall|k: int|
                    0 <= k < m implies (#[trigger] res0[k])@ == power_seq(pre)[k] by {
                    assert(rows_view(result)[k] == result@[k]@);
                }
            }
            let x = xs[i];
            let mut j: usize = 0;
            while j < m
                invariant
                    j <= m,
                    i < n,
                    n == xs@.len(),
                    x == xs@[i as int],
                    m == res0.len(),
                    result@.len() == m + j,
                    forall|k: int| 0 <= k < m ==> #[trigger] result@[k] == res0[k],
                    forall|k: int|
                        m <= k < m + j ==> (#[trigger] result@[k])@ == res0[k - m]@.push(x),
                decreases m - j,
            {
                proof {
                    assert(forall|k: int| 0 <= k < m ==> #[trigger] result@[k] == res0[k]);
                    assert(forall|k: int|
                        m <= k < m + j ==> (#[trigger] result@[k])@ == res0[k - m]@.push(x));
                }
                let src = &result[j];
                let sl = src.len();
                let mut rr: Vec<T> = Vec::new();
                let mut t: usize = 0;
                while t < sl
                    invariant
                        t <= sl,
                        j < result@.len(),
                        sl == result@[j as int]@.len(),
                        rr@.len() == t,
                        forall|k: int| 0 <= k < t ==> rr@[k] == result@[j as int]@[k],
                    decreases sl - t,
                {
                    let v = result[j][t];
                    rr.push(v);
                    t = t + 1;
                }
                proof {
                    assert(rr@ =~= result@[j as int]@);
                }
                rr.push(x);
                result.push(rr);
                j = j + 1;
            }
            i = i + 1;
            proof {
                let cur = xs@.take(i as int);
                assert(cur.drop_last() =~= pre);
                assert(cur.last() == x);
                let p = power_seq(pre);
                assert(power_seq(cur) == p + p.map_values(|s: Seq<T>| s.push(x)));
                assert(rows_view(result).len() == m + m);
                assert(p.len() == m);
                assert forall|k: int|
                    0 <= k < m + m implies #[trigger] rows_view(result)[k] == power_seq(cur)[k] by {
                    assert(rows_view(result)[k] == result@[k]@);
                    if k < m {
                        assert(result@[k] == res0[k]);
                        assert(res0[k]@ == power_seq(pre)[k]);
                        assert(power_seq(cur)[k] == p[k]);
                    } else {
                        assert(result@[k]@ == res0[k - m]@.push(x));
                        assert(res0[k - m]@ == power_seq(pre)[k - m]);
                        assert(power_seq(cur)[k] == p.map_values(|s: Seq<T>| s.push(x))[k - m]);
                        assert(power_seq(cur)[k] == p[k - m].push(x));
                    }
                }
                assert(rows_view(result) =~~= power_seq(cur));
            }
        }
        proof {
            assert(xs@.take(n as int) =~= xs@);
        }
        result
    }

    /// Exhaustive search over every subset of the rectangle
    /// `[from.0, to.0) x [from.1, to.1)`: each subset in turn seeds an
    /// otherwise empty grid and is scored; a candidate scoring at least
    /// the current best replaces it, so equal scores favour the later
    /// candidate. The grid is left holding the winning seed and the best
    /// score is returned. Every candidate must terminate under the scorer
    /// for the search itself to terminate.
    pub fn run(&mut self, from: (usize, usize), to: (usize, usize)) -> (best: usize)
        requires
            old(self).wf(),
            from.0 <= to.0,
            to.0 <= old(self).height,
            from.1 <= to.1,
            to.1 <= old(self).width,
            forall|k: int|
                0 <= k < power_seq(rect_coords(from.0, to.0, from.1, to.1)).len()
                    ==> scores_within(
                    with_seed(
                        old(self).height as nat,
                        old(self).width as nat,
                        #[trigger] power_seq(rect_coords(from.0, to.0, from.1, to.1))[k],
                    ),
                    usize::MAX as int,
                ),
        ensures
            final(self).wf(),
            final(self).same_dims(old(self)),
            best_of_search(
                old(self).height as nat,
                old(self).width as nat,
                power_seq(rect_coords(from.0, to.0, from.1, to.1)),
                best as int,
                final(self).grid(),
            ),
    {
        let ghost hh = old(self).height as nat;
        let ghost ww = old(self).width as nat;
        let h = self.height;
        let w = self.width;
        let mut ls: Vec<(usize, usize)> = Vec::new();
        let mut y = from.0;
        while y < to.0
            invariant
                from.0 <= y <= to.0,
                from.1 <= to.1,
                ls@ == rect_coords(from.0, y, from.1, to.1),
                forall|k: int|
                    0 <= k < ls@.len() ==> from.0 <= (#[trigger] ls@[k]).0 < to.0 && from.1
                        <= ls@[k].1 < to.1,
            decreases to.0 - y,
        {
            proof {
                assert(forall|k: int|
                    0 <= k < ls@.len() ==> from.0 <= (#[trigger] ls@[k]).0 < to.0 && from.1
                        <= ls@[k].1 < to.1);
            }
            let ghost y0 = y;
            let mut x = from.1;
            proof {
                assert(row_coords(y, from.1, x).len() == 0);
                assert(ls@ =~= rect_coords(from.0, y, from.1, to.1) + row_coords(y, from.1, x));
                assert(ls@ == rect_coords(from.0, y, from.1, to.1) + row_coords(y, from.1, x));
            }
            while x < to.1
                invariant
                    from.1 <= x <= to.1,
                    y == y0,
                    y < to.0,
                    from.0 <= y,
                    ls@ == rect_coords(from.0, y, from.1, to.1) + row_coords(y, from.1, x),
                    forall|k: int|
                        0 <= k < ls@.len() ==> from.0 <= (#[trigger] ls@[k]).0 < to.0 && from.1
                            <= ls@[k].1 < to.1,
                decreases to.1 - x,
            {
                proof {
                    assert(forall|k: int|
                        0 <= k < ls@.len() ==> from.0 <= (#[trigger] ls@[k]).0 < to.0 && from.1
                            <= ls@[k].1 < to.1);
                }
                ls.push((y, x));
                x = x + 1;
                proof {
                    assert(row_coords(y, from.1, x) =~= row_coords(
                        y,
                        from.1,
                        (x - 1) as usize,
                    ).push((y, (x - 1) as usize)));
                    assert(ls@ =~= rect_coords(from.0, y, from.1, to.1) + row_coords(
                        y,
                        from.1,
                        x,
                    ));
                }
            }
            y = y + 1;
            proof {
                assert(rect_coords(from.0, y, from.1, to.1) == rect_coords(
                    from.0,
                    (y - 1) as usize,
                    from.1,
                    to.1,
                ) + row_coords((y - 1) as usize, from.1, to.1));
                assert(ls@ =~= rect_coords(from.0, y, from.1, to.1));
            }
        }
        proof {
            assert(ls@ == rect_coords(from.0, to.0, from.1, to.1));
        }
        let ghost coords = ls@;
        let ghost subs = power_seq(coords);
        let ss = Self::subsequences(&ls);
        proof {
            lemma_power_seq_len(coords);
            lemma_pow2_pos(coords.len());
        }
        let mut best_score: usize = 0;
        let mut best_cells: Vec<Vec<bool>> = self.snapshot();
        let ghost mut best_idx: int = 0;
        let m = ss.len();
        let mut i: usize = 0;
        while i < m
            invariant
                self.wf(),
                self.height == h,
                self.width == w,
                h == old(self).height,
                w == old(self).width,
                hh == h as nat,
                ww == w as nat,
                to.0 <= h,
                to.1 <= w,
                i <= m,
                m == subs.len(),
                rows_view(ss) == subs,
                ss@.len() == m,
                coords == ls@,
                subs == power_seq(coords),
                forall|k: int|
                    0 <= k < coords.len() ==> (#[trigger] coords[k]).0 < h && coords[k].1 < w,
                forall|k: int|
                    0 <= k < subs.len() ==> scores_within(
                        with_seed(hh, ww, #[trigger] subs[k]),
                        usize::MAX as int,
                    ),
                wf_vec(best_cells, h as int, w as int),
                i > 0 ==> 0 <= best_idx < i as int,
                i > 0 ==> is_score(with_seed(hh, ww, subs[best_idx]), best_score as int),
                i > 0 ==> rows_view(best_cells) == with_seed(hh, ww, subs[best_idx]),
                i > 0 ==> forall|j: int, sc: int|
                    0 <= j < i as int && #[trigger] is_score(with_seed(hh, ww, subs[j]), sc)
                        ==> sc <= best_score as int && (j > best_idx ==> sc < best_score as int),
                i == 0 ==> best_score == 0,
            decreases m - i,
        {
            proof {
                assert(forall|k: int|
                    0 <= k < subs.len() ==> scores_within(
                        with_seed(hh, ww, #[trigger] subs[k]),
                        usize::MAX as int,
                    ));
                if i > 0 {
                    assert(forall|j: int, sc: int|
                        0 <= j < i as int && #[trigger] is_score(with_seed(hh, ww, subs[j]), sc)
                            ==> sc <= best_score as int && (j > best_idx ==> sc < best_score
                            as int));
                }
            }
            let ghost iold = i as int;
            self.reset();
            proof {
                assert(rows_view(ss)[iold] == ss@[iold]@);
                assert(ss@[iold]@ == subs[iold]);
                assert forall|t: int|
                    0 <= t < ss@[iold]@.len() implies (#[trigger] ss@[iold]@[t]).0 < h
                    && ss@[iold]@[t].1 < w by {
                    lemma_power_seq_members(coords, iold);
                    assert(coords.contains(subs[iold][t]));
                    let k = choose|k: int| 0 <= k < coords.len() && coords[k] == subs[iold][t];
                    assert(coords[k].0 < h && coords[k].1 < w);
                }
            }
            self.apply_seed(&ss[i]);
            proof {
                assert forall|yy: int, xx: int|
                    0 <= yy < h && 0 <= xx < w implies self.grid()[yy][xx] == with_seed(
                    hh,
                    ww,
                    subs[iold],
                )[yy][xx] by {
                    assert(self.grid()[yy][xx] == (false || contains_coord(
                        ss@[iold]@,
                        yy,
                        xx,
                    )));
                }
                assert(self.grid() =~~= with_seed(hh, ww, subs[iold]));
            }
            let cells = self.snapshot();
            let sc = self.score();
            let ghost seeded = with_seed(hh, ww, subs[iold]);
            proof {
                assert(is_score(seeded, sc as int));
            }
            if best_score <= sc {
                best_score = sc;
                best_cells = cells;
                proof {
                    best_idx = iold;
                }
            }
            i = i + 1;
            proof {
                assert(0 <= best_idx < i as int);
                assert(is_score(with_seed(hh, ww, subs[best_idx]), best_score as int));
                assert(rows_view(best_cells) == with_seed(hh, ww, subs[best_idx]));
                assert forall|j: int, scj: int|
                    0 <= j < i as int && #[trigger] is_score(
                    with_seed(hh, ww, subs[j]),
                    scj,
                ) implies scj <= best_score as int && (j > best_idx ==> scj < best_score
                    as int) by {
                    if j == iold {
                        lemma_score_unique(seeded, scj, sc as int);
                    }
                }
            }
        }
        proof {
            assert(m >= 1);
            assert(i > 0);
        }
        self.cells = best_cells;
        let ghost fin = rows_view(best_cells);
        proof {
            assert(self.grid() == fin);
            assert(is_winner(hh, ww, subs, best_score as int, fin, best_idx));
        }
        best_score
    }
}

} // verus!
