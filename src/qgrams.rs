//! Bit-packed q-gram values: a window of `q` ranks, `ceil(log2(alphabet
//! size))` bits each, the most recent symbol in the low-order bits. The
//! value space has `2^(q * bits)` entries, so every packed window is a valid
//! table index whether or not the alphabet size is a power of two.

use vstd::prelude::*;
use vstd::arithmetic::power2::{pow2, lemma_pow2_adds, lemma_pow2_pos, lemma2_to64};
use vstd::arithmetic::div_mod::{lemma_mod_multiples_vanish, lemma_small_mod};
use vstd::bits::{low_bits_mask, lemma_u64_shl_is_mul, lemma_u64_low_bits_mask_is_mod};
use crate::alphabet::Alphabet;

verus! {

/// Number of bits that hold one rank of an alphabet of `n` symbols:
/// `ceil(log2(n))`, and 0 for `n <= 1`.
pub open spec fn ceil_log2(n: nat) -> nat
    decreases n,
{
    if n <= 1 {
        0
    } else {
        ceil_log2(((n + 1) / 2) as nat) + 1
    }
}

pub proof fn lemma_ceil_log2(n: nat)
    ensures
        n <= pow2(ceil_log2(n)),
    decreases n,
{
    lemma_pow2_pos(0);
    if n > 1 {
        let h = ((n + 1) / 2) as nat;
        lemma_ceil_log2(h);
        vstd::arithmetic::power2::lemma_pow2_unfold(ceil_log2(n));
    }
}

pub proof fn lemma_ceil_log2_le(n: nat, k: nat)
    requires
        n <= pow2(k),
    ensures
        ceil_log2(n) <= k,
    decreases n,
{
    if n > 1 {
        if k == 0 {
            lemma2_to64();
        } else {
            vstd::arithmetic::power2::lemma_pow2_unfold(k);
            lemma_ceil_log2_le(((n + 1) / 2) as nat, (k - 1) as nat);
        }
    }
}

/// Value of the window of ranks `rs`, `bits` bits per rank, the last rank in
/// the low-order bits.
pub open spec fn window_value(rs: Seq<nat>, bits: nat) -> nat
    decreases rs.len(),
{
    if rs.len() == 0 {
        0
    } else {
        window_value(rs.drop_last(), bits) * pow2(bits) + rs.last()
    }
}

/// Every rank fits in `bits` bits.
pub open spec fn ranks_fit(rs: Seq<nat>, bits: nat) -> bool {
    forall|k: int| 0 <= k < rs.len() ==> #[trigger] rs[k] < pow2(bits)
}

/// Every byte of `text` is a symbol of `alphabet`.
pub open spec fn all_known(alphabet: Alphabet, text: Seq<u8>) -> bool {
    forall|k: int| 0 <= k < text.len() ==> #[trigger] alphabet.spec_rank(text[k]) is Some
}

/// The ranks of the bytes of `text`.
pub open spec fn ranks_of(alphabet: Alphabet, text: Seq<u8>) -> Seq<nat> {
    Seq::new(text.len(), |k: int| alphabet.spec_rank(text[k])->0 as nat)
}

/// Bits per symbol for `alphabet`.
pub open spec fn symbol_bits(alphabet: Alphabet) -> nat {
    ceil_log2(alphabet.spec_len())
}

/// The q-gram value of the window of `text` that starts at `j`.
pub open spec fn qgram_at(alphabet: Alphabet, text: Seq<u8>, q: nat, j: int) -> nat {
    window_value(ranks_of(alphabet, text).subrange(j, j + q), symbol_bits(alphabet))
}

/// The q-gram values of `text`, one per window start `0 ..= len - q`.
pub open spec fn qgram_codes(alphabet: Alphabet, text: Seq<u8>, q: nat) -> Seq<nat> {
    if text.len() < q {
        Seq::empty()
    } else {
        Seq::new((text.len() - q + 1) as nat, |j: int| qgram_at(alphabet, text, q, j))
    }
}

/// `q` is usable with `alphabet`: at least one symbol per window, and a
/// window fits in 32 bits.
pub open spec fn valid_q(alphabet: Alphabet, q: nat) -> bool {
    1 <= q && q * symbol_bits(alphabet) <= 32
}

pub proof fn lemma_window_push(rs: Seq<nat>, c: nat, bits: nat)
    ensures
        window_value(rs.push(c), bits) == window_value(rs, bits) * pow2(bits) + c,
{
    assert(rs.push(c).drop_last() == rs);
}

pub proof fn lemma_window_bound(rs: Seq<nat>, bits: nat)
    requires
        ranks_fit(rs, bits),
    ensures
        window_value(rs, bits) < pow2(rs.len() * bits),
    decreases rs.len(),
{
    if rs.len() == 0 {
        lemma_pow2_pos(0);
    } else {
        let init = rs.drop_last();
        lemma_window_bound(init, bits);
        let v = window_value(init, bits);
        let a = pow2(init.len() * bits);
        let p = pow2(bits);
        lemma_pow2_adds(init.len() * bits, bits);
        assert(init.len() * bits + bits == rs.len() * bits) by (nonlinear_arith)
            requires
                init.len() + 1 == rs.len(),
        ;
        assert(rs.last() < p);
        assert(v * p + rs.last() < a * p) by (nonlinear_arith)
            requires
                v < a,
                rs.last() < p,
        ;
    }
}

pub proof fn lemma_window_concat(a: Seq<nat>, b: Seq<nat>, bits: nat)
    ensures
        window_value(a + b, bits) == window_value(a, bits) * pow2(b.len() * bits) + window_value(
            b,
            bits,
        ),
    decreases b.len(),
{
    if b.len() == 0 {
        assert(a + b == a);
        assert(b.len() * bits == 0);
        lemma2_to64();
        assert(pow2(b.len() * bits) == 1);
        assert(window_value(b, bits) == 0);
        assert(window_value(a + b, bits) == window_value(a, bits));
    } else {
        let bi = b.drop_last();
        lemma_window_concat(a, bi, bits);
        assert((a + b).drop_last() == a + bi);
        lemma_pow2_adds(bi.len() * bits, bits);
        assert(bi.len() * bits + bits == b.len() * bits) by (nonlinear_arith)
            requires
                bi.len() + 1 == b.len(),
        ;
        assert((a + b).last() == b.last());
        let va = window_value(a, bits);
        let vb = window_value(bi, bits);
        let x = pow2(bi.len() * bits);
        let p = pow2(bits);
        assert((va * x + vb) * p + b.last() == va * (x * p) + (vb * p + b.last()))
            by (nonlinear_arith);
        assert(window_value(a + b, bits) == window_value(a + bi, bits) * p + b.last());
        assert(window_value(b, bits) == vb * p + b.last());
        assert(pow2(b.len() * bits) == x * p);
        assert(window_value(a + bi, bits) == va * x + vb);
    }
}

/// Appending `c` to a window of length `k` and keeping the last `q` ranks, as
/// a modulus of the value.
pub proof fn lemma_window_slide(rs: Seq<nat>, c: nat, bits: nat, q: nat)
    requires
        ranks_fit(rs.push(c), bits),
        rs.len() <= q,
        q >= 1,
    ensures
        (window_value(rs, bits) * pow2(bits) + c) % pow2(q * bits) == window_value(
            if rs.len() < q { rs.push(c) } else { rs.push(c).skip(1) },
            bits,
        ),
{
    let s = rs.push(c);
    lemma_window_push(rs, c, bits);
    lemma_pow2_pos(q * bits);
    if rs.len() < q {
        lemma_window_bound(s, bits);
        if s.len() * bits < q * bits {
            vstd::arithmetic::power2::lemma_pow2_strictly_increases(s.len() * bits, q * bits);
        } else {
            assert(s.len() * bits <= q * bits) by (nonlinear_arith)
                requires
                    s.len() <= q,
            ;
        }
        lemma_small_mod(window_value(s, bits), pow2(q * bits));
        assert(window_value(s, bits) % pow2(q * bits) == window_value(s, bits));
    } else {
        let head = s.subrange(0, 1);
        let tail = s.skip(1);
        assert(s == head + tail);
        lemma_window_concat(head, tail, bits);
        assert(ranks_fit(tail, bits)) by {
            assert forall|k: int| 0 <= k < tail.len() implies #[trigger] tail[k] < pow2(bits) by {
                assert(tail[k] == s[k + 1]);
            }
        }
        lemma_window_bound(tail, bits);
        assert(tail.len() == q);
        lemma_mod_multiples_vanish(
            window_value(head, bits) as int,
            window_value(tail, bits) as int,
            pow2(q * bits) as int,
        );
        lemma_small_mod(window_value(tail, bits), pow2(q * bits));
        let d = pow2(q * bits);
        assert(window_value(s, bits) == window_value(head, bits) * pow2(tail.len() * bits)
            + window_value(tail, bits));
        vstd::arithmetic::mul::lemma_mul_is_commutative(d as int, window_value(head, bits) as int);
        assert(window_value(s, bits) == d * window_value(head, bits) + window_value(tail, bits));
        assert(window_value(s, bits) % d == window_value(tail, bits));
    }
}

/// Windows of equal length whose ranks fit are equal when their values are.
pub proof fn lemma_window_injective(a: Seq<nat>, b: Seq<nat>, bits: nat)
    requires
        a.len() == b.len(),
        ranks_fit(a, bits),
        ranks_fit(b, bits),
        window_value(a, bits) == window_value(b, bits),
    ensures
        a == b,
    decreases a.len(),
{
    if a.len() > 0 {
        let (ai, bi) = (a.drop_last(), b.drop_last());
        let p = pow2(bits);
        lemma_pow2_pos(bits);
        assert(a.last() < p && b.last() < p);
        vstd::arithmetic::div_mod::lemma_fundamental_div_mod_converse(
            window_value(a, bits) as int, p as int, window_value(ai, bits) as int, a.last() as int);
        vstd::arithmetic::div_mod::lemma_fundamental_div_mod_converse(
            window_value(b, bits) as int, p as int, window_value(bi, bits) as int, b.last() as int);
        assert(ranks_fit(ai, bits)) by {
            assert forall|k: int| 0 <= k < ai.len() implies #[trigger] ai[k] < pow2(bits) by {
                assert(ai[k] == a[k]);
            }
        }
        assert(ranks_fit(bi, bits)) by {
            assert forall|k: int| 0 <= k < bi.len() implies #[trigger] bi[k] < pow2(bits) by {
                assert(bi[k] == b[k]);
            }
        }
        lemma_window_injective(ai, bi, bits);
        assert(a == ai.push(a.last()));
        assert(b == bi.push(b.last()));
    }
}

/// Equal q-gram values mean equal windows of symbols.
pub proof fn lemma_qgram_injective(
    alphabet: Alphabet,
    s: Seq<u8>,
    i: int,
    t: Seq<u8>,
    j: int,
    q: nat,
)
    requires
        alphabet.wf(),
        all_known(alphabet, s),
        all_known(alphabet, t),
        0 <= i && i + q <= s.len(),
        0 <= j && j + q <= t.len(),
        qgram_at(alphabet, s, q, i) == qgram_at(alphabet, t, q, j),
    ensures
        s.subrange(i, i + q) == t.subrange(j, j + q),
{
    let b = symbol_bits(alphabet);
    lemma_ranks_fit(alphabet, s, i, i + q);
    lemma_ranks_fit(alphabet, t, j, j + q);
    let ra = ranks_of(alphabet, s).subrange(i, i + q);
    let rb = ranks_of(alphabet, t).subrange(j, j + q);
    lemma_window_injective(ra, rb, b);
    alphabet.lemma_wf();
    assert forall|k: int| 0 <= k < q implies s.subrange(i, i + q)[k] == #[trigger] t.subrange(j, j + q)[k] by {
        assert(ra[k] == rb[k]);
        assert(alphabet.spec_rank(s[i + k]) is Some);
        assert(alphabet.spec_rank(t[j + k]) is Some);
        assert(alphabet.spec_rank(s[i + k]) == alphabet.spec_rank(t[j + k]));
    }
    assert(s.subrange(i, i + q) =~= t.subrange(j, j + q));
}

proof fn lemma_or_is_add(x: u64, c: u64, b: u64)
    requires
        b <= 8,
        x < 0x1_0000_0000,
        c < (1u64 << b),
    ensures
        (x << b) | c == (x << b) + c,
        (x << b) + c <= u64::MAX,
{
    assert((x << b) | c == (x << b) + c && (x << b) + c <= 0xffff_ffff_ffffu64) by (bit_vector)
        requires
            b <= 8,
            x < 0x1_0000_0000,
            c < (1u64 << b),
    ;
}

/// Ranks of known bytes fit in the alphabet's bit width, which is at most 8.
pub proof fn lemma_ranks_fit(alphabet: Alphabet, text: Seq<u8>, lo: int, hi: int)
    requires
        alphabet.wf(),
        all_known(alphabet, text),
        0 <= lo <= hi <= text.len(),
    ensures
        ranks_fit(ranks_of(alphabet, text).subrange(lo, hi), symbol_bits(alphabet)),
        symbol_bits(alphabet) <= 8,
{
    alphabet.lemma_wf();
    lemma_ceil_log2(alphabet.spec_len());
    lemma2_to64();
    lemma_ceil_log2_le(alphabet.spec_len(), 8);
    let rs = ranks_of(alphabet, text).subrange(lo, hi);
    assert forall|k: int| 0 <= k < rs.len() implies #[trigger] rs[k] < pow2(
        symbol_bits(alphabet),
    ) by {
        assert(alphabet.spec_rank(text[lo + k]) is Some);
    }
}

/// Every q-gram value is below `2^(q * bits)`, the size of the value space.
pub proof fn lemma_codes_bound(alphabet: Alphabet, text: Seq<u8>, q: nat)
    requires
        alphabet.wf(),
        all_known(alphabet, text),
    ensures
        forall|j: int|
            0 <= j < qgram_codes(alphabet, text, q).len() ==> #[trigger] qgram_codes(
                alphabet,
                text,
                q,
            )[j] < pow2(q * symbol_bits(alphabet)),
{
    assert forall|j: int| 0 <= j < qgram_codes(alphabet, text, q).len() implies #[trigger] qgram_codes(
        alphabet,
        text,
        q,
    )[j] < pow2(q * symbol_bits(alphabet)) by {
        lemma_ranks_fit(alphabet, text, j, j + q);
        lemma_window_bound(ranks_of(alphabet, text).subrange(j, j + q), symbol_bits(alphabet));
    }
}

/// Bits per symbol, `ceil(log2(n))`.
pub fn ceil_log2_exec(n: usize) -> (r: u64)
    requires
        n <= 256,
    ensures
        r == ceil_log2(n as nat),
        r <= 8,
    decreases n,
{
    if n <= 1 {
        0
    } else {
        let h: usize = n / 2 + n % 2;
        assert(h == (n + 1) / 2);
        let b = ceil_log2_exec(h);
        proof {
            lemma2_to64();
            lemma_ceil_log2_le(n as nat, 8);
        }
        b + 1
    }
}

/// The last `min(p, q)` ranks before position `p`.
pub open spec fn window_before(alphabet: Alphabet, text: Seq<u8>, q: nat, p: int) -> Seq<nat> {
    let k = if p < q { p } else { q as int };
    ranks_of(alphabet, text).subrange(p - k, p)
}

/// A forward pass over the q-gram values of a text: the `j`-th call of
/// `next` yields the value of the window that starts at `j`.
pub struct QGrams<'a> {
    text: &'a [u8],
    alphabet: &'a Alphabet,
    q: usize,
    consumed: usize,
    qgram: u64,
    bits: u64,
    mask: u64,
}

impl<'a> QGrams<'a> {
    pub closed spec fn spec_text(&self) -> Seq<u8> {
        self.text@
    }

    pub closed spec fn spec_alphabet(&self) -> Alphabet {
        *self.alphabet
    }

    pub closed spec fn spec_q(&self) -> nat {
        self.q as nat
    }

    /// How many values were yielded so far.
    pub closed spec fn emitted(&self) -> nat {
        if self.consumed + 1 >= self.q {
            (self.consumed + 1 - self.q) as nat
        } else {
            0
        }
    }

    /// All the values of the pass.
    pub open spec fn codes(&self) -> Seq<nat> {
        qgram_codes(self.spec_alphabet(), self.spec_text(), self.spec_q())
    }

    closed spec fn inner_wf(&self) -> bool {
        &&& self.alphabet.wf()
        &&& all_known(*self.alphabet, self.text@)
        &&& valid_q(*self.alphabet, self.q as nat)
        &&& self.bits == symbol_bits(*self.alphabet)
        &&& self.mask == low_bits_mask((self.q as nat) * symbol_bits(*self.alphabet))
        &&& self.consumed <= self.text@.len()
        &&& self.qgram == window_value(
            window_before(*self.alphabet, self.text@, self.q as nat, self.consumed as int),
            self.bits as nat,
        )
    }

    pub closed spec fn wf(&self) -> bool {
        &&& self.inner_wf()
        &&& (self.consumed + 1 >= self.q || self.consumed == self.text@.len())
    }

    /// Starts a pass over `text`: the first `q - 1` symbols are read without
    /// yielding a value.
    pub fn new(q: usize, text: &'a [u8], alphabet: &'a Alphabet) -> (r: QGrams<'a>)
        requires
            alphabet.wf(),
            all_known(*alphabet, text@),
            valid_q(*alphabet, q as nat),
        ensures
            r.wf(),
            r.spec_text() == text@,
            r.spec_alphabet() == *alphabet,
            r.spec_q() == q,
            r.emitted() == 0,
    {
        proof {
            alphabet.lemma_wf();
        }
        let bits = ceil_log2_exec(alphabet.len());
        proof {
            lemma_ranks_fit(*alphabet, text@, 0, 0);
        }
        let qb: u64 = (q as u64) * bits;
        proof {
            vstd::bits::lemma_u64_pow2_no_overflow(qb as nat);
            lemma_u64_shl_is_mul(1, qb);
            vstd::arithmetic::power2::lemma_pow2_pos(qb as nat);
            if qb < 32 {
                vstd::arithmetic::power2::lemma_pow2_strictly_increases(qb as nat, 32);
            }
            lemma2_to64();
        }
        let mask: u64 = (1u64 << qb) - 1;
        let mut qgrams = QGrams { text, alphabet, q, consumed: 0, qgram: 0, bits, mask };
        proof {
            assert(window_before(*alphabet, text@, q as nat, 0) =~= Seq::<nat>::empty());
        }
        while qgrams.consumed + 1 < q && qgrams.consumed < text.len()
            invariant
                qgrams.inner_wf(),
                qgrams.text@ == text@,
                qgrams.alphabet == alphabet,
                qgrams.q == q,
                qgrams.consumed + 1 <= q,
            decreases text@.len() - qgrams.consumed,
        {
            let c = text[qgrams.consumed];
            qgrams.qgram_push(c);
        }
        qgrams
    }

    /// Reads the next symbol into the register: shift left by the bit
    /// width, put the symbol's rank in the low bits, keep the low `q * bits`
    /// bits.
    fn qgram_push(&mut self, c: u8)
        requires
            old(self).inner_wf(),
            old(self).consumed < old(self).text@.len(),
            c == old(self).text@[old(self).consumed as int],
        ensures
            final(self).inner_wf(),
            final(self).text == old(self).text,
            final(self).alphabet == old(self).alphabet,
            final(self).q == old(self).q,
            final(self).consumed == old(self).consumed + 1,
    {
        let ghost alpha = *self.alphabet;
        let ghost text = self.text@;
        let ghost q = self.q as nat;
        let ghost p = self.consumed as int;
        let ghost w = window_before(alpha, text, q, p);
        let ghost b = self.bits as nat;
        let rank = self.alphabet.get(c);
        let a: u64 = match rank {
            Some(v) => v as u64,
            None => 0,
        };
        proof {
            assert(alpha.spec_rank(text[p]) is Some);
            lemma_ranks_fit(alpha, text, p - w.len(), p + 1);
            let wide = ranks_of(alpha, text).subrange(p - w.len(), p + 1);
            assert(wide == w.push(a as nat));
            assert(wide[w.len() as int] == a);
            assert(ranks_fit(w, b)) by {
                assert forall|k: int| 0 <= k < w.len() implies #[trigger] w[k] < pow2(b) by {
                    assert(w[k] == wide[k]);
                }
            }
            lemma_window_bound(w, b);
            lemma_pow2_pos(q * b);
            if w.len() * b < q * b {
                vstd::arithmetic::power2::lemma_pow2_strictly_increases(w.len() * b, q * b);
            } else {
                assert(w.len() * b <= q * b) by (nonlinear_arith)
                    requires
                        w.len() <= q,
                ;
            }
            if q * b < 32 {
                vstd::arithmetic::power2::lemma_pow2_strictly_increases(q * b, 32);
            }
            lemma2_to64();
            assert(self.qgram < 0x1_0000_0000u64);
            lemma_u64_shl_is_mul(1, self.bits);
            assert(pow2(b) <= 256) by {
                if b < 8 {
                    vstd::arithmetic::power2::lemma_pow2_strictly_increases(b, 8);
                }
            }
            assert(self.qgram * pow2(b) <= u64::MAX) by (nonlinear_arith)
                requires
                    self.qgram < 0x1_0000_0000u64,
                    pow2(b) <= 256,
            ;
            lemma_u64_shl_is_mul(self.qgram, self.bits);
            lemma_or_is_add(self.qgram, a, self.bits);
            lemma_window_slide(w, a as nat, b, q);
            let v = ((self.qgram << self.bits) | a) as u64;
            lemma_u64_low_bits_mask_is_mod(v, q * b);
            let w2 = window_before(alpha, text, q, p + 1);
            if w.len() < q {
                assert(w2 == w.push(a as nat));
            } else {
                assert(w2 == w.push(a as nat).skip(1));
            }
        }
        self.qgram = ((self.qgram << self.bits) | a) & self.mask;
        let n = self.text.len();
        assert(self.consumed < n);
        self.consumed = self.consumed + 1;
    }

    /// The value of the next window, or `None` once the text is used up.
    pub fn next(&mut self) -> (r: Option<u32>)
        requires
            old(self).wf(),
        ensures
            final(self).wf(),
            final(self).spec_text() == old(self).spec_text(),
            final(self).spec_alphabet() == old(self).spec_alphabet(),
            final(self).spec_q() == old(self).spec_q(),
            (r is Some) == (old(self).emitted() < old(self).codes().len()),
            r is Some ==> r->0 as nat == old(self).codes()[old(self).emitted() as int],
            final(self).emitted() == old(self).emitted() + if r is Some { 1nat } else { 0nat },
    {
        if self.consumed < self.text.len() {
            let c = self.text[self.consumed];
            self.qgram_push(c);
            proof {
                let p = self.consumed as int;
                let q = self.q as nat;
                let alpha = *self.alphabet;
                let b = self.bits as nat;
                let w2 = window_before(alpha, self.text@, q, p);
                lemma_ranks_fit(alpha, self.text@, p - q, p);
                lemma_window_bound(w2, b);
                if q * b < 32 {
                    vstd::arithmetic::power2::lemma_pow2_strictly_increases(q * b, 32);
                }
                lemma2_to64();
                assert(w2 == ranks_of(alpha, self.text@).subrange(p - q, p - q + q));
            }
            Some(self.qgram as u32)
        } else {
            None
        }
    }
}

} // verus!
