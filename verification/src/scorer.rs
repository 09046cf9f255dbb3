//! The cycle scorer: advances a grid generation by generation and reports
//! the first generation whose state matches one of the previous ten. The
//! history is seeded with ten copies of the initial state, the snapshot of
//! each generation is pushed before stepping, and the fresh state is
//! compared against every history entry.

use vstd::prelude::*;
use vstd::pervasive::unreached;

use crate::grid::Lifegame;
use crate::model::{after_steps, hist_gen, is_score, repeats_at, rows_view, scores_within,
    wf_vec, window_lo};

verus! {

impl Lifegame {
    /// Bounded scorer: runs the cycle search for at most `cap` generations.
    /// Returns the first generation at which the state repeats one of the
    /// previous ten, or `None` when no repeat occurs within `cap`
    /// generations — the guard against the scorer's unbounded search.
    pub fn score_within(&mut self, cap: usize) -> (r: Option<usize>)
        requires
            old(self).wf(),
        ensures
            final(self).wf(),
            final(self).same_dims(old(self)),
            match r {
                Some(n) => 1 <= n <= cap && is_score(old(self).grid(), n as int)
                    && final(self).grid() == after_steps(old(self).grid(), n as nat),
                None => (forall|m: int| 1 <= m <= cap ==> !repeats_at(old(self).grid(), m))
                    && final(self).grid() == after_steps(old(self).grid(), cap as nat),
            },
    {
        let ghost c0 = old(self).grid();
        let h = self.height;
        let w = self.width;
        let mut cs: Vec<Vec<Vec<bool>>> = Vec::new();
        let mut j: usize = 0;
        while j < 10
            invariant
                j <= 10,
                self.wf(),
                self.height == h,
                self.width == w,
                self.grid() == c0,
                cs@.len() == j,
                forall|t: int| 0 <= t < j ==> wf_vec(#[trigger] cs@[t], h as int, w as int),
                forall|t: int| 0 <= t < j ==> rows_view(#[trigger] cs@[t]) == c0,
            decreases 10 - j,
        {
            let snap = self.snapshot();
            cs.push(snap);
            j = j + 1;
        }
        let mut n: usize = 0;
        while n < cap
            invariant
                self.wf(),
                self.height == h,
                self.width == w,
                h == old(self).height,
                w == old(self).width,
                c0 == old(self).grid(),
                n <= cap,
                cs@.len() == 10,
                self.grid() == after_steps(c0, n as nat),
                forall|t: int| 0 <= t < 10 ==> wf_vec(#[trigger] cs@[t], h as int, w as int),
                forall|t: int|
                    0 <= t < 10 ==> rows_view(#[trigger] cs@[t]) == after_steps(
                        c0,
                        hist_gen(n as int, t),
                    ),
                forall|m: int| 1 <= m <= n ==> !repeats_at(c0, m),
            decreases cap - n,
        {
            proof {
                assert(forall|t: int|
                    0 <= t < 10 ==> wf_vec(#[trigger] cs@[t], h as int, w as int));
                assert(forall|t: int|
                    0 <= t < 10 ==> rows_view(#[trigger] cs@[t]) == after_steps(
                        c0,
                        hist_gen(n as int, t),
                    ));
                assert(forall|m: int| 1 <= m <= n ==> !repeats_at(c0, m));
            }
            let ghost n0 = n as int;
            let ghost cs0 = cs@;
            n = n + 1;
            cs.remove(0);
            let snap = self.snapshot();
            cs.push(snap);
            proof {
                assert(cs@.len() == 10);
                assert forall|t: int|
                    0 <= t < 10 implies wf_vec(#[trigger] cs@[t], h as int, w as int)
                    && rows_view(cs@[t]) == after_steps(c0, hist_gen(n as int, t)) by {
                    if t < 9 {
                        assert(cs@[t] == cs0.remove(0)[t]);
                        assert(cs0.remove(0)[t] == cs0[t + 1]);
                        assert(hist_gen(n as int, t) == hist_gen(n0, t + 1));
                    } else {
                        assert(cs@[t] == snap);
                        assert(hist_gen(n as int, 9) == n0);
                    }
                }
            }
            self.next();
            proof {
                assert(self.grid() == after_steps(c0, n as nat));
            }
            let mut t: usize = 0;
            while t < 10
                invariant
                    t <= 10,
                    self.wf(),
                    self.height == h,
                    self.width == w,
                    h == old(self).height,
                    w == old(self).width,
                    c0 == old(self).grid(),
                    n0 == n - 1,
                    1 <= n <= cap,
                    cs@.len() == 10,
                    self.grid() == after_steps(c0, n as nat),
                    forall|tt: int| 0 <= tt < 10 ==> wf_vec(#[trigger] cs@[tt], h as int, w as int),
                    forall|tt: int|
                        0 <= tt < 10 ==> rows_view(#[trigger] cs@[tt]) == after_steps(
                            c0,
                            hist_gen(n as int, tt),
                        ),
                    forall|m: int| 1 <= m < n ==> !repeats_at(c0, m),
                    forall|tt: int|
                        0 <= tt < t ==> self.grid() != rows_view(#[trigger] cs@[tt]),
                decreases 10 - t,
            {
                proof {
                    assert(forall|tt: int|
                        0 <= tt < 10 ==> rows_view(#[trigger] cs@[tt]) == after_steps(
                            c0,
                            hist_gen(n as int, tt),
                        ));
                }
                let hit = self.eq(&cs[t]);
                if hit {
                    proof {
                        let jg = hist_gen(n as int, t as int) as int;
                        assert(after_steps(c0, n as nat) == after_steps(c0, jg as nat));
                        assert(window_lo(n as int) <= jg < n);
                        assert(repeats_at(c0, n as int));
                        assert(is_score(c0, n as int));
                    }
                    return Some(n);
                }
                t = t + 1;
            }
            proof {
                assert forall|m: int| 1 <= m <= n implies !repeats_at(c0, m) by {
                    if m == n as int {
                        if repeats_at(c0, m) {
                            let jg = choose|jj: int|
                                window_lo(m) <= jj < m && after_steps(c0, m as nat)
                                    == #[trigger] after_steps(c0, jj as nat);
                            let tt = jg - (n - 10);
                            assert(0 <= tt < 10);
                            assert(hist_gen(n as int, tt) == jg);
                            assert(rows_view(cs@[tt]) == after_steps(c0, jg as nat));
                            assert(self.grid() != rows_view(cs@[tt]));
                            assert(false);
                        }
                    }
                }
            }
        }
        proof {
            assert(self.grid() == after_steps(c0, cap as nat));
        }
        None
    }

    /// Scorer of the search: the number of generations before the state
    /// repeats one of its previous ten. The cycle search is unbounded by
    /// design and does not terminate on a start whose period exceeds the
    /// lookback window, so a caller owes a start that does repeat; the
    /// bounded `score_within` serves for every other start.
    pub fn score(&mut self) -> (n: usize)
        requires
            old(self).wf(),
            scores_within(old(self).grid(), usize::MAX as int),
        ensures
            final(self).wf(),
            final(self).same_dims(old(self)),
            is_score(old(self).grid(), n as int),
            final(self).grid() == after_steps(old(self).grid(), n as nat),
    {
        let r = self.score_within(usize::MAX);
        match r {
            Some(n) => n,
            None => {
                proof {
                    let nn = choose|nn: int|
                        is_score(old(self).grid(), nn) && nn <= usize::MAX as int;
                    assert(repeats_at(old(self).grid(), nn));
                    assert(false);
                }
                unreached()
            },
        }
    }
}

} // verus!
