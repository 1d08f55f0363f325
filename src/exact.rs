//! Merged exact-match intervals. Per diagonal one interval is open; a hit at
//! pattern position `i` extends it when the interval's last q-gram sits at
//! `i - 1` (its pattern stop is `i + q - 1`), so a run of `k` consecutive
//! q-gram hits gives an interval of `q + k - 1` symbols. Any other hit on
//! that diagonal closes the interval and opens a new one.

use vstd::prelude::*;
use crate::index::{QGramIndex, QGramError, lemma_positions_bounds, positions_of};
use crate::qgrams::{qgram_codes, all_known, lemma_qgram_injective, QGrams};

verus! {

/// An ungapped exact match: pattern `[pattern_start, pattern_stop)` equals
/// text `[text_start, text_stop)`.
#[derive(Clone, Copy, Debug, PartialEq, Eq, Structural)]
pub struct ExactMatch {
    pub pattern_start: usize,
    pub pattern_stop: usize,
    pub text_start: usize,
    pub text_stop: usize,
}

/// The scan state: the open interval of each diagonal seen so far (in order
/// of first sight), and the intervals already closed.
pub struct ScanState {
    pub open: Seq<(i128, ExactMatch)>,
    pub done: Seq<ExactMatch>,
}

/// Index of the open interval of diagonal `d`, or -1.
pub open spec fn find_diagonal(open: Seq<(i128, ExactMatch)>, d: i128) -> int
    decreases open.len(),
{
    if open.len() == 0 {
        -1
    } else {
        let k = find_diagonal(open.drop_last(), d);
        if k >= 0 {
            k
        } else if open.last().0 == d {
            open.len() - 1
        } else {
            -1
        }
    }
}

/// The interval of one q-gram hit at pattern position `i`, text position `p`.
pub open spec fn seed(i: int, p: int, q: nat) -> ExactMatch {
    ExactMatch {
        pattern_start: i as usize,
        pattern_stop: (i + q) as usize,
        text_start: p as usize,
        text_stop: (p + q) as usize,
    }
}

/// One hit `(i, p)`: start an interval on a new diagonal, extend the open
/// one when its last q-gram was at `i - 1`, or else close it and start anew.
pub open spec fn scan_step(st: ScanState, h: (int, int), q: nat) -> ScanState {
    let (i, p) = h;
    let d = (p - i) as i128;
    let k = find_diagonal(st.open, d);
    if k < 0 {
        ScanState { open: st.open.push((d, seed(i, p, q))), done: st.done }
    } else {
        let iv = st.open[k].1;
        if iv.pattern_stop + 1 == i + q {
            let ext = ExactMatch {
                pattern_start: iv.pattern_start,
                pattern_stop: (i + q) as usize,
                text_start: iv.text_start,
                text_stop: (p + q) as usize,
            };
            ScanState { open: st.open.update(k, (d, ext)), done: st.done }
        } else {
            ScanState { open: st.open.update(k, (d, seed(i, p, q))), done: st.done.push(iv) }
        }
    }
}

/// The state after the hits `hs`, in order.
pub open spec fn scan(hs: Seq<(int, int)>, q: nat) -> ScanState
    decreases hs.len(),
{
    if hs.len() == 0 {
        ScanState { open: Seq::empty(), done: Seq::empty() }
    } else {
        scan_step(scan(hs.drop_last(), q), hs.last(), q)
    }
}

/// The closed intervals, then the open ones in order of first sight.
pub open spec fn scan_result(st: ScanState) -> Seq<ExactMatch> {
    st.done + st.open.map_values(|e: (i128, ExactMatch)| e.1)
}

pub proof fn lemma_find_diagonal(open: Seq<(i128, ExactMatch)>, d: i128, k: int)
    requires
        0 <= k <= open.len(),
        forall|t: int| 0 <= t < k ==> #[trigger] open[t].0 != d,
        k < open.len() ==> open[k].0 == d,
    ensures
        find_diagonal(open, d) == if k < open.len() { k } else { -1 },
    decreases open.len(),
{
    if open.len() > 0 {
        let init = open.drop_last();
        if k < open.len() - 1 {
            lemma_find_diagonal(init, d, k);
        } else {
            lemma_find_diagonal(init, d, init.len() as int);
        }
    }
}

/// An interval whose pattern and text sides have the same length, at
/// least `q`.
pub open spec fn well_sized(m: ExactMatch, q: nat) -> bool {
    &&& m.pattern_start + q <= m.pattern_stop
    &&& m.pattern_stop - m.pattern_start == m.text_stop - m.text_start
}

/// Hits whose intervals fit in `usize`.
pub open spec fn hits_fit(hs: Seq<(int, int)>, q: nat) -> bool {
    forall|t: int|
        0 <= t < hs.len() ==> 0 <= (#[trigger] hs[t]).0 && 0 <= hs[t].1 && hs[t].0 + q <= usize::MAX
            && hs[t].1 + q <= usize::MAX
}

pub open spec fn scan_inv(st: ScanState, q: nat) -> bool {
    &&& forall|k: int| 0 <= k < st.done.len() ==> well_sized(#[trigger] st.done[k], q)
    &&& forall|k: int|
        0 <= k < st.open.len() ==> well_sized((#[trigger] st.open[k]).1, q) && st.open[k].1.text_start
            - st.open[k].1.pattern_start == st.open[k].0 && st.open[k].1.text_stop
            - st.open[k].1.pattern_stop == st.open[k].0
}

pub proof fn lemma_scan_inv(hs: Seq<(int, int)>, q: nat)
    requires
        hits_fit(hs, q),
        forall|t: int| 0 <= t < hs.len() ==> i128::MIN <= (#[trigger] hs[t]).1 - hs[t].0 <= i128::MAX,
    ensures
        scan_inv(scan(hs, q), q),
    decreases hs.len(),
{
    if hs.len() > 0 {
        let init = hs.drop_last();
        assert forall|t: int| 0 <= t < init.len() implies i128::MIN <= (#[trigger] init[t]).1
            - init[t].0 <= i128::MAX by {
            assert(init[t] == hs[t]);
        }
        lemma_scan_inv(init, q);
        let h = hs.last();
        assert(hs[hs.len() - 1] == h);
        let st = scan(init, q);
        let d = (h.1 - h.0) as i128;
        let k = find_diagonal(st.open, d);
        if k >= 0 {
            lemma_find_diagonal_bound(st.open, d);
        }
    }
}

/// `pattern[pattern_start..pattern_stop]` equals
/// `text[text_start..text_stop]`.
pub open spec fn is_real_match(m: ExactMatch, pattern: Seq<u8>, text: Seq<u8>) -> bool {
    &&& m.pattern_start <= m.pattern_stop <= pattern.len()
    &&& m.text_start <= m.text_stop <= text.len()
    &&& pattern.subrange(m.pattern_start as int, m.pattern_stop as int) == text.subrange(
        m.text_start as int,
        m.text_stop as int,
    )
}

/// Hits whose q-long windows are equal give intervals that are real matches.
pub proof fn lemma_scan_real(hs: Seq<(int, int)>, q: nat, pattern: Seq<u8>, text: Seq<u8>)
    requires
        q >= 1,
        hits_fit(hs, q),
        forall|t: int| 0 <= t < hs.len() ==> i128::MIN <= (#[trigger] hs[t]).1 - hs[t].0 <= i128::MAX,
        forall|t: int|
            0 <= t < hs.len() ==> (#[trigger] hs[t]).0 + q <= pattern.len() && hs[t].1 + q
                <= text.len() && pattern.subrange(hs[t].0, hs[t].0 + q) == text.subrange(
                hs[t].1,
                hs[t].1 + q,
            ),
    ensures
        forall|k: int|
            0 <= k < scan(hs, q).done.len() ==> is_real_match(
                #[trigger] scan(hs, q).done[k],
                pattern,
                text,
            ),
        forall|k: int|
            0 <= k < scan(hs, q).open.len() ==> is_real_match(
                (#[trigger] scan(hs, q).open[k]).1,
                pattern,
                text,
            ),
    decreases hs.len(),
{
    if hs.len() > 0 {
        let init = hs.drop_last();
        assert forall|t: int| 0 <= t < init.len() implies i128::MIN <= (#[trigger] init[t]).1
            - init[t].0 <= i128::MAX && init[t].0 + q <= pattern.len() && init[t].1 + q
            <= text.len() && pattern.subrange(init[t].0, init[t].0 + q) == text.subrange(
            init[t].1,
            init[t].1 + q,
        ) by {
            assert(init[t] == hs[t]);
        }
        lemma_scan_real(init, q, pattern, text);
        lemma_scan_inv(init, q);
        let h = hs.last();
        assert(hs[hs.len() - 1] == h);
        let (i, p) = h;
        let st = scan(init, q);
        let d = (p - i) as i128;
        let k = find_diagonal(st.open, d);
        let sd = seed(i, p, q);
        assert(is_real_match(sd, pattern, text));
        if k >= 0 {
            lemma_find_diagonal_bound(st.open, d);
            let iv = st.open[k].1;
            if iv.pattern_stop + 1 == i + q {
                let ext = ExactMatch {
                    pattern_start: iv.pattern_start,
                    pattern_stop: (i + q) as usize,
                    text_start: iv.text_start,
                    text_stop: (p + q) as usize,
                };
                let ps = iv.pattern_start as int;
                let ts = iv.text_start as int;
                assert(is_real_match(st.open[k].1, pattern, text));
                assert(scan_inv(st, q));
                assert(well_sized(st.open[k].1, q));
                assert(st.open[k].1.text_start - st.open[k].1.pattern_start == st.open[k].0);
                assert(st.open[k].1.text_stop - st.open[k].1.pattern_stop == st.open[k].0);
                assert(ts - ps == p - i);
                assert(ps <= i - 1);
                assert forall|x: int| 0 <= x < i + q - ps implies #[trigger] pattern.subrange(
                    ps,
                    i + q,
                )[x] == text.subrange(ts, p + q)[x] by {
                    if x < iv.pattern_stop - ps {
                        assert(pattern.subrange(ps, iv.pattern_stop as int)[x] == text.subrange(
                            ts,
                            iv.text_stop as int,
                        )[x]);
                        assert(pattern.subrange(ps, iv.pattern_stop as int)[x] == pattern[ps + x]);
                        assert(text.subrange(ts, iv.text_stop as int)[x] == text[ts + x]);
                    } else {
                        let y = x - (i - ps);
                        assert(0 <= y < q);
                        assert(pattern.subrange(i, i + q)[y] == text.subrange(p, p + q)[y]);
                        assert(pattern.subrange(i, i + q)[y] == pattern[ps + x]);
                        assert(text.subrange(p, p + q)[y] == text[ts + x]);
                    }
                }
                assert(pattern.subrange(ps, i + q) =~= text.subrange(ts, p + q));
                assert(is_real_match(ext, pattern, text));
            }
        }
    }
}

/// Interval `m` holds hit `h = (i, p)`: the hit's q-gram lies inside the
/// interval, on the interval's diagonal.
pub open spec fn covers(m: ExactMatch, h: (int, int), q: nat) -> bool {
    &&& m.pattern_start <= h.0
    &&& h.0 + q <= m.pattern_stop
    &&& m.text_start - m.pattern_start == h.1 - h.0
}

/// Every q-gram start `x` of interval `m` is a hit of `hs` on the
/// interval's diagonal.
pub open spec fn made_of_hits(m: ExactMatch, hs: Seq<(int, int)>, q: nat) -> bool {
    forall|x: int|
        m.pattern_start <= x && x + q <= m.pattern_stop ==> #[trigger] hs.contains(
            (x, x + m.text_start - m.pattern_start),
        )
}

/// Every interval of the scan over `hs` is made of hits of `hs`.
pub proof fn lemma_scan_runs(hs: Seq<(int, int)>, q: nat)
    requires
        q >= 1,
        hits_fit(hs, q),
        forall|t: int| 0 <= t < hs.len() ==> i128::MIN <= (#[trigger] hs[t]).1 - hs[t].0 <= i128::MAX,
    ensures
        forall|k: int|
            0 <= k < scan(hs, q).done.len() ==> made_of_hits(#[trigger] scan(hs, q).done[k], hs, q),
        forall|k: int|
            0 <= k < scan(hs, q).open.len() ==> made_of_hits((#[trigger] scan(hs, q).open[k]).1, hs, q),
    decreases hs.len(),
{
    if hs.len() > 0 {
        let init = hs.drop_last();
        assert forall|t: int| 0 <= t < init.len() implies i128::MIN <= (#[trigger] init[t]).1
            - init[t].0 <= i128::MAX by {
            assert(init[t] == hs[t]);
        }
        lemma_scan_runs(init, q);
        lemma_scan_inv(init, q);
        let h = hs.last();
        assert(hs[hs.len() - 1] == h);
        assert(hs.contains(h));
        let (i, p) = h;
        let st = scan(init, q);
        let st2 = scan(hs, q);
        let d = (p - i) as i128;
        let k = find_diagonal(st.open, d);
        lemma_find_diagonal_bound(st.open, d);
        assert forall|m: ExactMatch| made_of_hits(m, init, q) implies made_of_hits(m, hs, q) by {
            assert forall|x: int| m.pattern_start <= x && x + q <= m.pattern_stop implies #[trigger] hs.contains(
                (x, x + m.text_start - m.pattern_start),
            ) by {
                assert(init.contains((x, x + m.text_start - m.pattern_start)));
                let t = choose|t: int| 0 <= t < init.len() && init[t] == (x, x + m.text_start - m.pattern_start);
                assert(hs[t] == init[t]);
            }
        }
        assert(made_of_hits(seed(i, p, q), hs, q)) by {
            assert forall|x: int| i <= x && x + q <= i + q implies #[trigger] hs.contains(
                (x, x + p - i),
            ) by {
                assert(x == i);
            }
        }
        if k >= 0 {
            let iv = st.open[k].1;
            assert(made_of_hits(iv, init, q));
            assert(well_sized(iv, q));
            assert(iv.text_start - iv.pattern_start == st.open[k].0);
            if iv.pattern_stop + 1 == i + q {
                let ext = st2.open[k].1;
                assert(made_of_hits(ext, hs, q)) by {
                    assert forall|x: int| ext.pattern_start <= x && x + q <= ext.pattern_stop implies #[trigger] hs.contains(
                        (x, x + ext.text_start - ext.pattern_start),
                    ) by {
                        if x + q <= iv.pattern_stop {
                            assert(made_of_hits(iv, hs, q));
                            assert(hs.contains((x, x + iv.text_start - iv.pattern_start)));
                        } else {
                            assert(x == i);
                        }
                    }
                }
            }
        }
        assert forall|kk: int| 0 <= kk < st2.done.len() implies made_of_hits(#[trigger] st2.done[kk], hs, q) by {
            if kk < st.done.len() {
                assert(st2.done[kk] == st.done[kk]);
            } else {
                assert(st2.done[kk] == st.open[k].1);
            }
        }
        assert forall|kk: int| 0 <= kk < st2.open.len() implies made_of_hits((#[trigger] st2.open[kk]).1, hs, q) by {
            if kk < st.open.len() && kk != k {
                assert(st2.open[kk] == st.open[kk]);
            }
        }
    }
}

/// Every hit of `hs` lies in some interval of `ms`.
pub open spec fn all_hits_covered(ms: Seq<ExactMatch>, hs: Seq<(int, int)>, q: nat) -> bool {
    forall|t: int|
        #![trigger hs[t]]
        0 <= t < hs.len() ==> exists|k: int| 0 <= k < ms.len() && covers(#[trigger] ms[k], hs[t], q)
}

/// Some closed or open interval of `st` holds hit `h`.
pub open spec fn covered(st: ScanState, h: (int, int), q: nat) -> bool {
    ||| exists|k: int| 0 <= k < st.done.len() && covers(#[trigger] st.done[k], h, q)
    ||| exists|k: int| 0 <= k < st.open.len() && covers((#[trigger] st.open[k]).1, h, q)
}

/// No hit is lost by the scan: each lies in some interval.
pub proof fn lemma_scan_covers(hs: Seq<(int, int)>, q: nat)
    requires
        q >= 1,
        hits_fit(hs, q),
        forall|t: int| 0 <= t < hs.len() ==> i128::MIN <= (#[trigger] hs[t]).1 - hs[t].0 <= i128::MAX,
    ensures
        forall|t: int| 0 <= t < hs.len() ==> covered(scan(hs, q), #[trigger] hs[t], q),
    decreases hs.len(),
{
    if hs.len() > 0 {
        let init = hs.drop_last();
        assert forall|t: int| 0 <= t < init.len() implies i128::MIN <= (#[trigger] init[t]).1
            - init[t].0 <= i128::MAX by {
            assert(init[t] == hs[t]);
        }
        lemma_scan_covers(init, q);
        lemma_scan_inv(init, q);
        let h = hs.last();
        assert(hs[hs.len() - 1] == h);
        let (i, p) = h;
        let st = scan(init, q);
        let st2 = scan(hs, q);
        assert(st2 == scan_step(st, h, q));
        let d = (p - i) as i128;
        let k = find_diagonal(st.open, d);
        lemma_find_diagonal_bound(st.open, d);
        // the new hit
        let slot = if k < 0 { st.open.len() as int } else { k };
        assert(covers(st2.open[slot].1, h, q)) by {
            if k >= 0 {
                assert(well_sized(st.open[k].1, q));
                assert(st.open[k].1.text_start - st.open[k].1.pattern_start == st.open[k].0);
            }
        }
        assert(covered(st2, h, q));
        // the earlier hits
        assert forall|t: int| 0 <= t < hs.len() implies covered(st2, #[trigger] hs[t], q) by {
            if t < init.len() {
                let g = init[t];
                assert(hs[t] == g);
                assert(covered(st, g, q));
                if exists|kk: int| 0 <= kk < st.done.len() && covers(#[trigger] st.done[kk], g, q) {
                    let kk = choose|kk: int| 0 <= kk < st.done.len() && covers(#[trigger] st.done[kk], g, q);
                    assert(st2.done[kk] == st.done[kk]);
                } else {
                    let kk = choose|kk: int| 0 <= kk < st.open.len() && covers((#[trigger] st.open[kk]).1, g, q);
                    if kk != k {
                        assert(st2.open[kk] == st.open[kk]);
                    } else {
                        let iv = st.open[k].1;
                        if iv.pattern_stop + 1 == i + q {
                            assert(covers(st2.open[kk].1, g, q));
                        } else {
                            assert(st2.done[st.done.len() as int] == iv);
                        }
                    }
                }
            }
        }
    }
}

proof fn lemma_find_diagonal_bound(open: Seq<(i128, ExactMatch)>, d: i128)
    ensures
        find_diagonal(open, d) < open.len(),
        find_diagonal(open, d) >= 0 ==> open[find_diagonal(open, d)].0 == d,
    decreases open.len(),
{
    if open.len() > 0 {
        lemma_find_diagonal_bound(open.drop_last(), d);
    }
}

impl<'a> QGramIndex<'a> {
    /// The hits `(i, p)` of pattern q-gram `i`, in the order of its bucket.
    pub open spec fn pairs_at(&self, pc: Seq<nat>, i: int) -> Seq<(int, int)> {
        self.bucket(pc[i]).map_values(|p: usize| (i, p as int))
    }

    /// Every hit (pattern position, text position), in scan order.
    pub open spec fn hit_pairs(&self, pc: Seq<nat>) -> Seq<(int, int)>
        decreases pc.len(),
    {
        if pc.len() == 0 {
            Seq::empty()
        } else {
            self.hit_pairs(pc.drop_last()) + self.pairs_at(pc, pc.len() - 1)
        }
    }

    /// What `exact_matches` returns for pattern q-gram values `pc`.
    pub open spec fn exact_matches_of(&self, pc: Seq<nat>) -> Seq<ExactMatch> {
        scan_result(scan(self.hit_pairs(pc), self.spec_q()))
    }

    pub proof fn lemma_hit_pairs_step(&self, pc: Seq<nat>, i: int)
        requires
            0 <= i < pc.len(),
        ensures
            self.hit_pairs(pc.take(i + 1)) == self.hit_pairs(pc.take(i)) + self.pairs_at(pc, i),
    {
        assert(pc.take(i + 1).drop_last() == pc.take(i));
        assert(self.pairs_at(pc.take(i + 1), i) == self.pairs_at(pc, i));
    }

    /// Every hit pairs a pattern q-gram with a window start of the text.
    pub proof fn lemma_hit_pairs_bounds(&self, pc: Seq<nat>)
        requires
            self.wf(),
        ensures
            forall|t: int|
                0 <= t < self.hit_pairs(pc).len() ==> 0 <= (#[trigger] self.hit_pairs(pc)[t]).0
                    < pc.len() && 0 <= self.hit_pairs(pc)[t].1 < self.codes().len()
                    && self.codes()[self.hit_pairs(pc)[t].1] == pc[self.hit_pairs(pc)[t].0],
        decreases pc.len(),
    {
        if pc.len() > 0 {
            let init = pc.drop_last();
            self.lemma_hit_pairs_bounds(init);
            let i = pc.len() - 1;
            self.lemma_wf();
            lemma_positions_bounds(self.codes(), pc[i]);
            let a = self.hit_pairs(init);
            let b = self.pairs_at(pc, i);
            assert forall|t: int| 0 <= t < self.hit_pairs(pc).len() implies 0 <= (
            #[trigger] self.hit_pairs(pc)[t]).0 < pc.len() && 0 <= self.hit_pairs(pc)[t].1
                < self.codes().len() && self.codes()[self.hit_pairs(pc)[t].1] == pc[self.hit_pairs(pc)[t].0] by {
                if t < a.len() {
                    assert(self.hit_pairs(pc)[t] == a[t]);
                    assert(init[a[t].0] == pc[a[t].0]);
                } else {
                    assert(self.hit_pairs(pc)[t] == b[t - a.len()]);
                    assert(self.bucket(pc[i])[t - a.len()] == positions_of(self.codes(), pc[i])[t
                        - a.len()]);
                }
            }
        }
    }

    /// Every interval that `exact_matches` reports is at least `q` long, and
    /// its pattern and text sides have the same length.
    pub proof fn lemma_exact_match_lengths(&self, pattern: Seq<u8>)
        requires
            self.wf(),
            pattern.len() <= usize::MAX,
        ensures
            forall|k: int|
                0 <= k < self.exact_matches_of(
                    qgram_codes(self.spec_alphabet(), pattern, self.spec_q()),
                ).len() ==> well_sized(
                    #[trigger] self.exact_matches_of(
                        qgram_codes(self.spec_alphabet(), pattern, self.spec_q()),
                    )[k],
                    self.spec_q(),
                ),
    {
        let pc = qgram_codes(self.spec_alphabet(), pattern, self.spec_q());
        let hs = self.hit_pairs(pc);
        let q = self.spec_q();
        self.lemma_wf();
        self.lemma_hit_pairs_bounds(pc);
        assert forall|t: int| 0 <= t < hs.len() implies i128::MIN <= (#[trigger] hs[t]).1
            - hs[t].0 <= i128::MAX && 0 <= hs[t].0 && 0 <= hs[t].1 && hs[t].0 + q
            <= usize::MAX && hs[t].1 + q <= usize::MAX by {
            assert(pc.len() <= pattern.len());
        }
        lemma_scan_inv(hs, q);
        let st = scan(hs, q);
        let r = scan_result(st);
        assert forall|k: int| 0 <= k < r.len() implies well_sized(#[trigger] r[k], q) by {
            if k < st.done.len() {
                assert(r[k] == st.done[k]);
            } else {
                assert(r[k] == st.open[k - st.done.len()].1);
            }
        }
    }

    /// Every interval that `exact_matches` reports is a real match:
    /// its stretch of the pattern equals its stretch of the text.
    pub proof fn lemma_exact_matches_are_real(&self, pattern: Seq<u8>)
        requires
            self.wf(),
            pattern.len() <= usize::MAX,
            all_known(self.spec_alphabet(), pattern),
        ensures
            forall|k: int|
                0 <= k < self.exact_matches_of(
                    qgram_codes(self.spec_alphabet(), pattern, self.spec_q()),
                ).len() ==> is_real_match(
                    #[trigger] self.exact_matches_of(
                        qgram_codes(self.spec_alphabet(), pattern, self.spec_q()),
                    )[k],
                    pattern,
                    self.spec_text(),
                ),
    {
        let pc = qgram_codes(self.spec_alphabet(), pattern, self.spec_q());
        let hs = self.hit_pairs(pc);
        let q = self.spec_q();
        let text = self.spec_text();
        self.lemma_wf();
        self.lemma_hit_pairs_bounds(pc);
        assert forall|t: int| 0 <= t < hs.len() implies i128::MIN <= (#[trigger] hs[t]).1
            - hs[t].0 <= i128::MAX && 0 <= hs[t].0 && 0 <= hs[t].1 && hs[t].0 + q
            <= usize::MAX && hs[t].1 + q <= usize::MAX && hs[t].0 + q <= pattern.len() && hs[t].1
            + q <= text.len() && pattern.subrange(hs[t].0, hs[t].0 + q) == text.subrange(
            hs[t].1,
            hs[t].1 + q,
        ) by {
            assert(pc.len() <= pattern.len());
            lemma_qgram_injective(self.spec_alphabet(), pattern, hs[t].0, text, hs[t].1, q);
        }
        lemma_scan_real(hs, q, pattern, text);
        let st = scan(hs, q);
        let r = scan_result(st);
        assert forall|k: int| 0 <= k < r.len() implies is_real_match(#[trigger] r[k], pattern, text) by {
            if k < st.done.len() {
                assert(r[k] == st.done[k]);
            } else {
                assert(r[k] == st.open[k - st.done.len()].1);
            }
        }
    }

    /// No seed hit is lost: every hit lies inside some reported interval,
    /// on that interval's diagonal.
    pub proof fn lemma_exact_matches_cover_hits(&self, pattern: Seq<u8>)
        requires
            self.wf(),
            pattern.len() <= usize::MAX,
        ensures
            all_hits_covered(
                self.exact_matches_of(qgram_codes(self.spec_alphabet(), pattern, self.spec_q())),
                self.hit_pairs(qgram_codes(self.spec_alphabet(), pattern, self.spec_q())),
                self.spec_q(),
            ),
    {
        let pc = qgram_codes(self.spec_alphabet(), pattern, self.spec_q());
        let hs = self.hit_pairs(pc);
        let q = self.spec_q();
        self.lemma_wf();
        self.lemma_hit_pairs_bounds(pc);
        assert forall|t: int| 0 <= t < hs.len() implies i128::MIN <= (#[trigger] hs[t]).1
            - hs[t].0 <= i128::MAX && 0 <= hs[t].0 && 0 <= hs[t].1 && hs[t].0 + q
            <= usize::MAX && hs[t].1 + q <= usize::MAX by {
            assert(pc.len() <= pattern.len());
        }
        lemma_scan_covers(hs, q);
        let st = scan(hs, q);
        let r = scan_result(st);
        assert forall|t: int| #![trigger hs[t]] 0 <= t < hs.len() implies exists|k: int|
            0 <= k < r.len() && covers(#[trigger] r[k], hs[t], q) by {
            assert(covered(st, hs[t], q));
            if exists|kk: int| 0 <= kk < st.done.len() && covers(#[trigger] st.done[kk], hs[t], q) {
                let kk = choose|kk: int| 0 <= kk < st.done.len() && covers(#[trigger] st.done[kk], hs[t], q);
                assert(r[kk] == st.done[kk]);
            } else {
                let kk = choose|kk: int| 0 <= kk < st.open.len() && covers((#[trigger] st.open[kk]).1, hs[t], q);
                assert(r[st.done.len() + kk] == st.open[kk].1);
            }
        }
    }

    /// Every reported interval is made of hits: each q-gram start inside it
    /// is a hit on the interval's diagonal, so the interval is one run of
    /// consecutive hits.
    pub proof fn lemma_exact_matches_are_runs(&self, pattern: Seq<u8>)
        requires
            self.wf(),
            pattern.len() <= usize::MAX,
        ensures
            forall|k: int|
                0 <= k < self.exact_matches_of(
                    qgram_codes(self.spec_alphabet(), pattern, self.spec_q()),
                ).len() ==> made_of_hits(
                    #[trigger] self.exact_matches_of(
                        qgram_codes(self.spec_alphabet(), pattern, self.spec_q()),
                    )[k],
                    self.hit_pairs(qgram_codes(self.spec_alphabet(), pattern, self.spec_q())),
                    self.spec_q(),
                ),
    {
        let pc = qgram_codes(self.spec_alphabet(), pattern, self.spec_q());
        let hs = self.hit_pairs(pc);
        let q = self.spec_q();
        self.lemma_wf();
        self.lemma_hit_pairs_bounds(pc);
        assert forall|t: int| 0 <= t < hs.len() implies i128::MIN <= (#[trigger] hs[t]).1
            - hs[t].0 <= i128::MAX && 0 <= hs[t].0 && 0 <= hs[t].1 && hs[t].0 + q
            <= usize::MAX && hs[t].1 + q <= usize::MAX by {
            assert(pc.len() <= pattern.len());
        }
        lemma_scan_runs(hs, q);
        let st = scan(hs, q);
        let r = scan_result(st);
        assert forall|k: int| 0 <= k < r.len() implies made_of_hits(#[trigger] r[k], hs, q) by {
            if k < st.done.len() {
                assert(r[k] == st.done[k]);
            } else {
                assert(r[k] == st.open[k - st.done.len()].1);
            }
        }
    }

    /// The merged exact-match intervals of `pattern`: per diagonal, runs of
    /// q-grams at consecutive pattern positions merge into one interval; a
    /// gap closes the interval. Closed intervals come first, in order of
    /// closing, then the open ones in order of their diagonal's first hit.
    #[verifier::rlimit(50)]
    pub fn exact_matches(&self, pattern: &[u8]) -> (r: Result<Vec<ExactMatch>, QGramError>)
        requires
            self.wf(),
        ensures
            r is Err <==> !all_known(self.spec_alphabet(), pattern@),
            r is Err ==> r->Err_0 == QGramError::UnknownSymbol,
            r is Ok ==> r->Ok_0@ == self.exact_matches_of(
                qgram_codes(self.spec_alphabet(), pattern@, self.spec_q()),
            ),
            r is Ok ==> forall|k: int|
                0 <= k < r->Ok_0@.len() ==> well_sized(#[trigger] r->Ok_0@[k], self.spec_q()),
            r is Ok ==> forall|k: int|
                0 <= k < r->Ok_0@.len() ==> is_real_match(
                    #[trigger] r->Ok_0@[k],
                    pattern@,
                    self.spec_text(),
                ),
    {
        proof {
            self.lemma_wf();
        }
        let alphabet = self.alphabet();
        let q = self.q();
        let mut i: usize = 0;
        while i < pattern.len()
            invariant
                i <= pattern@.len(),
                alphabet.wf(),
                *alphabet == self.spec_alphabet(),
                forall|k: int| 0 <= k < i ==> #[trigger] alphabet.spec_rank(pattern@[k]) is Some,
            decreases pattern@.len() - i,
        {
            if alphabet.get(pattern[i]).is_none() {
                assert(!all_known(self.spec_alphabet(), pattern@));
                return Err(QGramError::UnknownSymbol);
            }
            i = i + 1;
        }
        let ghost pc = qgram_codes(self.spec_alphabet(), pattern@, self.spec_q());
        let ghost qn = q as nat;
        let mut qgrams = QGrams::new(q, pattern, alphabet);
        let plen = pattern.len();
        let m: usize = if plen >= q { plen - q + 1 } else { 0 };
        let mut open: Vec<(i128, ExactMatch)> = Vec::new();
        let mut done: Vec<ExactMatch> = Vec::new();
        let mut i: usize = 0;
        proof {
            crate::qgrams::lemma_codes_bound(self.spec_alphabet(), pattern@, self.spec_q());
            assert(pc.take(0) == Seq::<nat>::empty());
        }
        while i < m
            invariant
                self.wf(),
                q == self.spec_q(),
                qn == q,
                m == pc.len(),
                m <= pattern@.len(),
                pattern@.len() <= usize::MAX,
                i <= m,
                m > 0 ==> m + q - 1 == pattern@.len(),
                qgrams.wf(),
                qgrams.codes() == pc,
                qgrams.emitted() == i,
                forall|j: int| 0 <= j < pc.len() ==> #[trigger] pc[j] < self.space(),
                open@ == scan(self.hit_pairs(pc.take(i as int)), qn).open,
                done@ == scan(self.hit_pairs(pc.take(i as int)), qn).done,
            decreases m - i,
        {
            let r = qgrams.next();
            let g: u32 = match r {
                Some(v) => v,
                None => 0,
            };
            let ps = self.matches(g);
            let ghost before = self.hit_pairs(pc.take(i as int));
            let ghost hs = self.pairs_at(pc, i as int);
            proof {
                self.lemma_hit_pairs_step(pc, i as int);
                self.lemma_wf();
                lemma_positions_bounds(self.codes(), pc[i as int]);
                assert forall|t: int| 0 <= t < ps@.len() implies (#[trigger] ps@[t] as int)
                    < self.codes().len() by {
                    assert(ps@[t] == positions_of(self.codes(), pc[i as int])[t]);
                }
            }
            let mut j: usize = 0;
            assert(before + hs.take(0) == before);
            while j < ps.len()
                invariant
                    self.wf(),
                    q == self.spec_q(),
                    qn == q,
                    i < m,
                    m <= pattern@.len(),
                    m + q - 1 == pattern@.len(),
                    pattern@.len() <= usize::MAX,
                    self.spec_text().len() <= usize::MAX,
                        self.codes().len() + q - 1 == self.spec_text().len(),
                    j <= ps@.len(),
                    ps@.len() == hs.len(),
                    forall|t: int| 0 <= t < hs.len() ==> #[trigger] hs[t] == (i as int, ps@[t] as int),
                    forall|t: int| 0 <= t < ps@.len() ==> (#[trigger] ps@[t] as int) < self.codes().len(),
                    open@ == scan(before + hs.take(j as int), qn).open,
                    done@ == scan(before + hs.take(j as int), qn).done,
                decreases ps@.len() - j,
            {
                let p = ps[j];
                let d: i128 = p as i128 - i as i128;
                let ghost cur = before + hs.take(j as int);
                proof {
                    assert(hs.take(j + 1) =~= hs.take(j as int).push((i as int, p as int)));
                    assert(before + hs.take(j + 1) =~= cur.push((i as int, p as int)));
                    assert(cur.push((i as int, p as int)).drop_last() == cur);
                    assert(scan(cur.push((i as int, p as int)), qn) == scan_step(
                        scan(cur, qn),
                        (i as int, p as int),
                        qn,
                    ));
                }
                let ghost st0 = scan(cur, qn);
                let ghost st1 = scan_step(st0, (i as int, p as int), qn);
                let mut k: usize = 0;
                let mut found: bool = false;
                while k < open.len() && !found
                    invariant
                        k <= open@.len(),
                        forall|t: int| 0 <= t < k ==> #[trigger] open@[t].0 != d,
                        found ==> k < open@.len() && open@[k as int].0 == d,
                    decreases open@.len() - k + if found { 0int } else { 1int },
                {
                    if open[k].0 == d {
                        found = true;
                    } else {
                        k = k + 1;
                    }
                }
                proof {
                    lemma_find_diagonal(open@, d, k as int);
                }
                let fresh = ExactMatch {
                    pattern_start: i,
                    pattern_stop: i + q,
                    text_start: p,
                    text_stop: p + q,
                };
                assert(fresh.pattern_stop == (i as int + qn) as usize);
                assert(fresh.text_stop == (p as int + qn) as usize);
                assert(fresh.pattern_start == (i as int) as usize);
                assert(fresh.text_start == (p as int) as usize);
                assert(fresh == seed(i as int, p as int, qn));
                assert(d == (p as int - i as int) as i128);
                if !found {
                    open.push((d, fresh));
                    assert(open@ == st1.open);
                    assert(done@ == st1.done);
                } else {
                    let iv = open[k].1;
                    if iv.pattern_stop as u128 + 1 == i as u128 + q as u128 {
                        open.set(
                            k,
                            (
                                d,
                                ExactMatch {
                                    pattern_start: iv.pattern_start,
                                    pattern_stop: i + q,
                                    text_start: iv.text_start,
                                    text_stop: p + q,
                                },
                            ),
                        );
                        assert(open@ == st1.open);
                        assert(done@ == st1.done);
                    } else {
                        done.push(iv);
                        open.set(k, (d, fresh));
                        assert(open@ == st1.open);
                        assert(done@ == st1.done);
                    }
                }
                j = j + 1;
            }
            assert(hs.take(ps@.len() as int) == hs);
            i = i + 1;
        }
        assert(pc.take(m as int) == pc);
        let ghost st = scan(self.hit_pairs(pc), qn);
        let mut out = done;
        let mut k: usize = 0;
        while k < open.len()
            invariant
                k <= open@.len(),
                open@ == st.open,
                out@ == st.done + st.open.map_values(|e: (i128, ExactMatch)| e.1).take(k as int),
            decreases open@.len() - k,
        {
            proof {
                assert(st.open.map_values(|e: (i128, ExactMatch)| e.1).take(k + 1)
                    =~= st.open.map_values(|e: (i128, ExactMatch)| e.1).take(k as int).push(open@[k as int].1));
            }
            out.push(open[k].1);
            k = k + 1;
        }
        assert(st.open.map_values(|e: (i128, ExactMatch)| e.1).take(k as int)
            == st.open.map_values(|e: (i128, ExactMatch)| e.1));
        proof {
            self.lemma_exact_match_lengths(pattern@);
            self.lemma_exact_matches_are_real(pattern@);
            let all = self.exact_matches_of(pc);
            assert(out@ == all);
            assert forall|k: int| 0 <= k < out@.len() implies well_sized(#[trigger] out@[k], qn)
                && is_real_match(out@[k], pattern@, self.spec_text()) by {
                assert(out@[k] == all[k]);
            }
        }
        Ok(out)
    }
}

} // verus!
