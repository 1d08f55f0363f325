//! The diagonal histogram: for every hit (pattern q-gram `i`, text window
//! `p` with the same value) the diagonal `p - i` gets one vote. A diagonal's
//! count is 1 at its first hit and grows by one at each later hit.

use vstd::prelude::*;
use crate::index::{QGramIndex, QGramError, lemma_positions_bounds};
use crate::qgrams::{qgram_codes, all_known, QGrams};

verus! {

/// How often `d` occurs in `s`.
pub open spec fn occ(s: Seq<int>, d: int) -> nat
    decreases s.len(),
{
    if s.len() == 0 {
        0
    } else {
        occ(s.drop_last(), d) + if s.last() == d { 1nat } else { 0nat }
    }
}

pub proof fn lemma_occ_concat(a: Seq<int>, b: Seq<int>, d: int)
    ensures
        occ(a + b, d) == occ(a, d) + occ(b, d),
    decreases b.len(),
{
    if b.len() == 0 {
        assert(a + b == a);
    } else {
        lemma_occ_concat(a, b.drop_last(), d);
        assert((a + b).drop_last() == a + b.drop_last());
    }
}

pub proof fn lemma_occ_push(a: Seq<int>, x: int, d: int)
    ensures
        occ(a.push(x), d) == occ(a, d) + if x == d { 1nat } else { 0nat },
{
    assert(a.push(x).drop_last() == a);
}

pub proof fn lemma_occ_absent(a: Seq<int>, d: int)
    requires
        !a.contains(d),
    ensures
        occ(a, d) == 0,
    decreases a.len(),
{
    if a.len() > 0 {
        assert(!a.drop_last().contains(d)) by {
            if a.drop_last().contains(d) {
                let k = choose|k: int| 0 <= k < a.drop_last().len() && a.drop_last()[k] == d;
                assert(a[k] == d);
            }
        }
        lemma_occ_absent(a.drop_last(), d);
        assert(a[a.len() - 1] != d);
    }
}

pub proof fn lemma_occ_contains(a: Seq<int>, d: int)
    requires
        a.contains(d),
    ensures
        occ(a, d) >= 1,
    decreases a.len(),
{
    if a.last() != d {
        let k = choose|k: int| 0 <= k < a.len() && a[k] == d;
        assert(a.drop_last()[k] == d);
        lemma_occ_contains(a.drop_last(), d);
    }
}

/// In a strictly ascending sequence a value occurs at most once.
pub proof fn lemma_occ_ascending(a: Seq<int>, d: int)
    requires
        forall|k1: int, k2: int| 0 <= k1 < k2 < a.len() ==> #[trigger] a[k1] < #[trigger] a[k2],
    ensures
        occ(a, d) <= 1,
    decreases a.len(),
{
    if a.len() > 0 {
        let init = a.drop_last();
        if a.last() == d {
            assert(!init.contains(d)) by {
                if init.contains(d) {
                    let k = choose|k: int| 0 <= k < init.len() && init[k] == d;
                    assert(a[k] < a[a.len() - 1]);
                }
            }
            lemma_occ_absent(init, d);
        } else {
            assert forall|k1: int, k2: int| 0 <= k1 < k2 < init.len() implies #[trigger] init[k1]
                < #[trigger] init[k2] by {
                assert(a[k1] < a[k2]);
            }
            lemma_occ_ascending(init, d);
        }
    }
}

/// A diagonal of the histogram: the offset `text position - pattern
/// position` and how many shared q-grams lie on it.
#[derive(Clone, Copy, Debug, PartialEq, Eq, Structural)]
pub struct Diagonal {
    pub pos: i128,
    pub count: usize,
}

/// `v` holds each distinct value of `hs` exactly once, with the number of
/// times it occurs there, and nothing else; the order of the entries is not
/// fixed.
pub open spec fn is_histogram(v: Seq<Diagonal>, hs: Seq<int>) -> bool {
    &&& forall|k: int| 0 <= k < v.len() ==> #[trigger] v[k].count == occ(hs, v[k].pos as int)
    &&& forall|k: int|
        0 <= k < v.len() ==> (#[trigger] v[k]).count >= 1 && hs.contains(v[k].pos as int)
    &&& forall|k1: int, k2: int|
        0 <= k1 < k2 < v.len() ==> #[trigger] v[k1].pos != #[trigger] v[k2].pos
    &&& forall|t: int|
        #![trigger hs[t]]
        0 <= t < hs.len() ==> exists|k: int| 0 <= k < v.len() && #[trigger] v[k].pos == hs[t]
}

/// Sum of the counts.
pub open spec fn total_count(ds: Seq<Diagonal>) -> nat
    decreases ds.len(),
{
    if ds.len() == 0 {
        0
    } else {
        total_count(ds.drop_last()) + ds.last().count as nat
    }
}

pub proof fn lemma_total_count_update(ds: Seq<Diagonal>, k: int, x: Diagonal)
    requires
        0 <= k < ds.len(),
    ensures
        total_count(ds.update(k, x)) + ds[k].count == total_count(ds) + x.count,
    decreases ds.len(),
{
    if k < ds.len() - 1 {
        lemma_total_count_update(ds.drop_last(), k, x);
        assert(ds.update(k, x).drop_last() == ds.drop_last().update(k, x));
    } else {
        assert(ds.update(k, x).drop_last() == ds.drop_last());
    }
}

pub proof fn lemma_total_count_push(ds: Seq<Diagonal>, x: Diagonal)
    ensures
        total_count(ds.push(x)) == total_count(ds) + x.count,
{
    assert(ds.push(x).drop_last() == ds);
}

impl<'a> QGramIndex<'a> {
    /// The diagonals `p - i` of the hits of pattern q-gram `i`, in the order
    /// of its bucket.
    pub open spec fn hits_at(&self, pc: Seq<nat>, i: int) -> Seq<int> {
        self.bucket(pc[i]).map_values(|p: usize| p as int - i)
    }

    /// The diagonal of every hit (pattern position `i`, text position `p` in
    /// the bucket of the pattern's `i`-th q-gram), in scan order.
    pub open spec fn diagonal_hits(&self, pc: Seq<nat>) -> Seq<int>
        decreases pc.len(),
    {
        if pc.len() == 0 {
            Seq::empty()
        } else {
            self.diagonal_hits(pc.drop_last()) + self.hits_at(pc, pc.len() - 1)
        }
    }

    pub proof fn lemma_hits_at_ascending(&self, pc: Seq<nat>, i: int)
        requires
            self.wf(),
            0 <= i < pc.len(),
        ensures
            forall|k1: int, k2: int|
                0 <= k1 < k2 < self.hits_at(pc, i).len() ==> #[trigger] self.hits_at(pc, i)[k1]
                    < #[trigger] self.hits_at(pc, i)[k2],
    {
        self.lemma_wf();
        lemma_positions_bounds(self.codes(), pc[i]);
    }

    pub proof fn lemma_diagonal_hits_step(&self, pc: Seq<nat>, i: int)
        requires
            0 <= i < pc.len(),
        ensures
            self.diagonal_hits(pc.take(i + 1)) == self.diagonal_hits(pc.take(i)) + self.hits_at(
                pc,
                i,
            ),
    {
        assert(pc.take(i + 1).drop_last() == pc.take(i));
        assert(self.hits_at(pc.take(i + 1), i) == self.hits_at(pc, i));
    }

    /// A diagonal gets at most one hit per pattern position.
    pub proof fn lemma_occ_hits(&self, pc: Seq<nat>, i: int, d: int)
        requires
            self.wf(),
            0 <= i <= pc.len(),
        ensures
            occ(self.diagonal_hits(pc.take(i)), d) <= i,
        decreases i,
    {
        if i > 0 {
            self.lemma_occ_hits(pc, i - 1, d);
            self.lemma_diagonal_hits_step(pc, i - 1);
            lemma_occ_concat(self.diagonal_hits(pc.take(i - 1)), self.hits_at(pc, i - 1), d);
            self.lemma_hits_at_ascending(pc, i - 1);
            lemma_occ_ascending(self.hits_at(pc, i - 1), d);
        } else {
            assert(pc.take(0) == Seq::<nat>::empty());
        }
    }

    /// The diagonal histogram of `pattern`: exactly one entry per diagonal
    /// with at least one hit, with its number of hits, and no other entry.
    /// The counts add up to the number of hits. A pattern shorter than `q`
    /// has no hits, so its histogram is empty.
    pub fn diagonals(&self, pattern: &[u8]) -> (r: Result<Vec<Diagonal>, QGramError>)
        requires
            self.wf(),
        ensures
            r is Err <==> !all_known(self.spec_alphabet(), pattern@),
            r is Err ==> r->Err_0 == QGramError::UnknownSymbol,
            r is Ok ==> is_histogram(
                r->Ok_0@,
                self.diagonal_hits(qgram_codes(self.spec_alphabet(), pattern@, self.spec_q())),
            ),
            r is Ok ==> total_count(r->Ok_0@) == self.diagonal_hits(
                qgram_codes(self.spec_alphabet(), pattern@, self.spec_q()),
            ).len(),
    {
        proof {
            self.lemma_wf();
        }
        let alphabet = self.alphabet();
        let q = self.q();
        let mut i: usize = 0;
        while i < pattern.len()
            invariant
                i <= pattern@.len(),
                alphabet.wf(),
                *alphabet == self.spec_alphabet(),
                forall|k: int| 0 <= k < i ==> #[trigger] alphabet.spec_rank(pattern@[k]) is Some,
            decreases pattern@.len() - i,
        {
            if alphabet.get(pattern[i]).is_none() {
                assert(!all_known(self.spec_alphabet(), pattern@));
                return Err(QGramError::UnknownSymbol);
            }
            i = i + 1;
        }
        let ghost pc = qgram_codes(self.spec_alphabet(), pattern@, self.spec_q());
        let mut qgrams = QGrams::new(q, pattern, alphabet);
        let m: usize = if pattern.len() >= q { pattern.len() - q + 1 } else { 0 };
        let mut out: Vec<Diagonal> = Vec::new();
        let mut i: usize = 0;
        proof {
            crate::qgrams::lemma_codes_bound(self.spec_alphabet(), pattern@, self.spec_q());
            assert(pc.take(0) == Seq::<nat>::empty());
        }
        while i < m
            invariant
                self.wf(),
                m == pc.len(),
                m <= pattern@.len(),
                i <= m,
                qgrams.wf(),
                qgrams.codes() == pc,
                qgrams.emitted() == i,
                forall|j: int| 0 <= j < pc.len() ==> #[trigger] pc[j] < self.space(),
                forall|k: int| 0 <= k < out@.len() ==> (#[trigger] out@[k]).count >= 1,
                forall|k: int|
                    0 <= k < out@.len() ==> #[trigger] out@[k].count == occ(
                        self.diagonal_hits(pc.take(i as int)),
                        out@[k].pos as int,
                    ),
                forall|k1: int, k2: int|
                    0 <= k1 < k2 < out@.len() ==> #[trigger] out@[k1].pos != #[trigger] out@[k2].pos,
                forall|t: int|
                    0 <= t < self.diagonal_hits(pc.take(i as int)).len() ==> exists|k: int|
                        0 <= k < out@.len() && #[trigger] out@[k].pos == #[trigger] self.diagonal_hits(
                            pc.take(i as int),
                        )[t],
                total_count(out@) == self.diagonal_hits(pc.take(i as int)).len(),
            decreases m - i,
        {
            let r = qgrams.next();
            let g: u32 = match r {
                Some(v) => v,
                None => 0,
            };
            let ps = self.matches(g);
            let ghost before = self.diagonal_hits(pc.take(i as int));
            let ghost hs = self.hits_at(pc, i as int);
            proof {
                self.lemma_diagonal_hits_step(pc, i as int);
                self.lemma_hits_at_ascending(pc, i as int);
                self.lemma_wf();
                assert(ps@ == self.bucket(pc[i as int]));
                lemma_positions_bounds(self.codes(), pc[i as int]);
                assert forall|t: int| 0 <= t < ps@.len() implies (#[trigger] ps@[t] as int)
                    < self.spec_text().len() by {
                    assert(ps@[t] == crate::index::positions_of(self.codes(), pc[i as int])[t]);
                }
                assert forall|d: int| occ(before, d) <= i by {
                    self.lemma_occ_hits(pc, i as int, d);
                }
            }
            let mut j: usize = 0;
            assert(before + hs.take(0) == before);
            while j < ps.len()
                invariant
                    self.wf(),
                    i < m,
                    m <= pattern@.len(),
                        j <= ps@.len(),
                    ps@.len() == hs.len(),
                    forall|t: int| 0 <= t < hs.len() ==> #[trigger] hs[t] == ps@[t] as int - i,
                    forall|t: int| 0 <= t < ps@.len() ==> (#[trigger] ps@[t] as int) < self.spec_text().len(),
                    before == self.diagonal_hits(pc.take(i as int)),
                    forall|k1: int, k2: int|
                        0 <= k1 < k2 < hs.len() ==> #[trigger] hs[k1] < #[trigger] hs[k2],
                    forall|d: int| occ(before, d) <= i,
                    forall|k: int| 0 <= k < out@.len() ==> (#[trigger] out@[k]).count >= 1,
                    forall|k: int|
                        0 <= k < out@.len() ==> #[trigger] out@[k].count == occ(
                            before + hs.take(j as int),
                            out@[k].pos as int,
                        ),
                    forall|k1: int, k2: int|
                        0 <= k1 < k2 < out@.len() ==> #[trigger] out@[k1].pos != #[trigger] out@[k2].pos,
                    forall|t: int|
                        0 <= t < (before + hs.take(j as int)).len() ==> exists|k: int|
                            0 <= k < out@.len() && #[trigger] out@[k].pos == #[trigger] (before
                                + hs.take(j as int))[t],
                    total_count(out@) == (before + hs.take(j as int)).len(),
                decreases ps@.len() - j,
            {
                let p = ps[j];
                let d: i128 = p as i128 - i as i128;
                let ghost cur = before + hs.take(j as int);
                let ghost nxt = before + hs.take(j + 1);
                proof {
                    assert(hs[j as int] == d as int);
                    assert(hs.take(j + 1) =~= hs.take(j as int).push(d as int));
                    assert(nxt =~= cur.push(d as int));
                    assert forall|x: int| #[trigger] occ(nxt, x) == occ(cur, x) + if x == d as int {
                        1nat
                    } else {
                        0nat
                    } by {
                        lemma_occ_push(cur, d as int, x);
                    }
                }
                let mut k: usize = 0;
                let mut found: bool = false;
                while k < out.len() && !found
                    invariant
                        k <= out@.len(),
                        !found ==> forall|t: int| 0 <= t < k ==> #[trigger] out@[t].pos != d,
                        found ==> k < out@.len() && out@[k as int].pos == d,
                    decreases out@.len() - k + if found { 0int } else { 1int },
                {
                    if out[k].pos == d {
                        found = true;
                    } else {
                        k = k + 1;
                    }
                }
                let ghost out0 = out@;
                if found {
                    proof {
                        lemma_occ_concat(before, hs.take(j + 1), d as int);
                        assert forall|k1: int, k2: int|
                            0 <= k1 < k2 < hs.take(j + 1).len() implies #[trigger] hs.take(j + 1)[k1]
                            < #[trigger] hs.take(j + 1)[k2] by {
                            assert(hs[k1] < hs[k2]);
                        }
                        lemma_occ_ascending(hs.take(j + 1), d as int);
                        lemma_total_count_update(out@, k as int, Diagonal { pos: d, count: (out@[k as int].count + 1) as usize });
                    }
                    let c = out[k].count;
                    out.set(k, Diagonal { pos: d, count: c + 1 });
                } else {
                    proof {
                        assert(!cur.contains(d as int)) by {
                            if cur.contains(d as int) {
                                let t = choose|t: int| 0 <= t < cur.len() && cur[t] == d as int;
                                let kk = choose|kk: int| 0 <= kk < out@.len() && #[trigger] out@[kk].pos == cur[t];
                                assert(out@[kk].pos != d);
                            }
                        }
                        lemma_occ_absent(cur, d as int);
                        lemma_total_count_push(out@, Diagonal { pos: d, count: 1 });
                    }
                    out.push(Diagonal { pos: d, count: 1 });
                }
                proof {
                    assert forall|t: int| 0 <= t < nxt.len() implies exists|kk: int|
                        0 <= kk < out@.len() && #[trigger] out@[kk].pos == #[trigger] nxt[t] by {
                        if t < cur.len() {
                            assert(nxt[t] == cur[t]);
                            let kk = choose|kk: int| 0 <= kk < out0.len() && #[trigger] out0[kk].pos == cur[t];
                            assert(out@[kk].pos == out0[kk].pos);
                            assert(out@[kk].pos == nxt[t]);
                        } else {
                            assert(nxt[t] == d as int);
                            assert(out@[k as int].pos == nxt[t]);
                        }
                    }
                }
                j = j + 1;
            }
            assert(hs.take(ps@.len() as int) == hs);
            i = i + 1;
        }
        proof {
            assert(pc.take(m as int) == pc);
            let all = self.diagonal_hits(pc);
            assert(self.diagonal_hits(pc.take(i as int)) == all);
            assert forall|t: int| 0 <= t < all.len() implies exists|k: int|
                0 <= k < out@.len() && #[trigger] out@[k].pos == #[trigger] all[t] by {
                assert(all[t] == self.diagonal_hits(pc.take(i as int))[t]);
            }
            assert(forall|k: int| 0 <= k < out@.len() ==> #[trigger] out@[k].count == occ(all, out@[k].pos as int));
            assert forall|k: int| 0 <= k < out@.len() implies (#[trigger] out@[k]).count >= 1
                && all.contains(out@[k].pos as int) by {
                assert(out@[k].count == occ(all, out@[k].pos as int));
                if !all.contains(out@[k].pos as int) {
                    lemma_occ_absent(all, out@[k].pos as int);
                }
            }
            assert(forall|k1: int, k2: int| 0 <= k1 < k2 < out@.len() ==> #[trigger] out@[k1].pos != #[trigger] out@[k2].pos);
            assert(total_count(out@) == all.len());
            assert(all == self.diagonal_hits(qgram_codes(self.spec_alphabet(), pattern@, self.spec_q())));
            assert(is_histogram(out@, all));
        }
        Ok(out)
    }
}

} // verus!
