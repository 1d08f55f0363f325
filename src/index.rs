//! The occurrence index: a counting pass, masking of values above the
//! frequency cap, prefix sums, and a placement pass that fills each bucket
//! with its window starts in ascending order.

use vstd::prelude::*;
use vstd::arithmetic::power2::{pow2, lemma_pow2_pos, lemma2_to64};
use crate::alphabet::Alphabet;
use crate::qgrams::{
    qgram_codes, valid_q, all_known, symbol_bits, lemma_codes_bound, lemma_ranks_fit, ceil_log2_exec,
    QGrams,
};
use vstd::bits::{lemma_u64_shl_is_mul, lemma_u64_pow2_no_overflow};
use vstd::slice::slice_subrange;
use crate::diagonals::{occ, lemma_occ_concat, lemma_occ_ascending, lemma_occ_contains, lemma_occ_absent};

verus! {

/// The positions `j` with `codes[j] == g`, ascending.
pub open spec fn positions_of(codes: Seq<nat>, g: nat) -> Seq<usize>
    decreases codes.len(),
{
    if codes.len() == 0 {
        Seq::empty()
    } else {
        positions_of(codes.drop_last(), g) + if codes.last() == g {
            seq![(codes.len() - 1) as usize]
        } else {
            Seq::empty()
        }
    }
}

/// How often `g` occurs in `codes`.
pub open spec fn count_of(codes: Seq<nat>, g: nat) -> nat {
    positions_of(codes, g).len()
}

/// The bucket of `g` under the cap `max_count`: its positions, or nothing
/// where `g` occurs more than `max_count` times.
pub open spec fn bucket_of(codes: Seq<nat>, g: nat, max_count: nat) -> Seq<usize> {
    if count_of(codes, g) <= max_count {
        positions_of(codes, g)
    } else {
        Seq::empty()
    }
}

/// Size of all the buckets of values below `g`.
pub open spec fn bucket_start(codes: Seq<nat>, max_count: nat, g: nat) -> nat
    decreases g,
{
    if g == 0 {
        0
    } else {
        bucket_start(codes, max_count, (g - 1) as nat) + bucket_of(
            codes,
            (g - 1) as nat,
            max_count,
        ).len()
    }
}

/// Number of entries of `codes` below `g`.
pub open spec fn count_below(codes: Seq<nat>, g: nat) -> nat
    decreases g,
{
    if g == 0 {
        0
    } else {
        count_below(codes, (g - 1) as nat) + count_of(codes, (g - 1) as nat)
    }
}

pub proof fn lemma_positions_step(codes: Seq<nat>, i: int, g: nat)
    requires
        0 <= i < codes.len(),
    ensures
        positions_of(codes.take(i + 1), g) == positions_of(codes.take(i), g) + if codes[i] == g {
            seq![i as usize]
        } else {
            Seq::empty()
        },
{
    assert(codes.take(i + 1).drop_last() == codes.take(i));
}

pub proof fn lemma_positions_bounds(codes: Seq<nat>, g: nat)
    requires
        codes.len() <= usize::MAX,
    ensures
        forall|k: int|
            0 <= k < positions_of(codes, g).len() ==> (#[trigger] positions_of(codes, g)[k] as int)
                < codes.len() && codes[positions_of(codes, g)[k] as int] == g,
        forall|k1: int, k2: int|
            0 <= k1 < k2 < positions_of(codes, g).len() ==> #[trigger] positions_of(codes, g)[k1]
                < #[trigger] positions_of(codes, g)[k2],
    decreases codes.len(),
{
    if codes.len() > 0 {
        let init = codes.drop_last();
        lemma_positions_bounds(init, g);
        let ps = positions_of(init, g);
        let full = positions_of(codes, g);
        assert forall|k: int| 0 <= k < full.len() implies (#[trigger] full[k] as int) < codes.len()
            && codes[full[k] as int] == g by {
            if k < ps.len() {
                assert(full[k] == ps[k]);
                assert(init[ps[k] as int] == g);
            } else {
                assert(full[k] == (codes.len() - 1) as usize);
            }
        }
        assert forall|k1: int, k2: int| 0 <= k1 < k2 < full.len() implies #[trigger] full[k1]
            < #[trigger] full[k2] by {
            if k2 < ps.len() {
                assert(full[k1] == ps[k1] && full[k2] == ps[k2]);
            } else {
                assert(full[k1] == ps[k1]);
                assert(full[k2] == (codes.len() - 1) as usize);
                assert(ps[k1] < init.len());
            }
        }
    }
}

pub proof fn lemma_positions_contains(codes: Seq<nat>, g: nat, j: int)
    requires
        codes.len() <= usize::MAX,
        0 <= j < codes.len(),
    ensures
        positions_of(codes, g).contains(j as usize) <==> codes[j] == g,
    decreases codes.len(),
{
    let init = codes.drop_last();
    lemma_positions_bounds(codes, g);
    if j < codes.len() - 1 {
        lemma_positions_contains(init, g, j);
        lemma_positions_bounds(init, g);
        let full = positions_of(codes, g);
        let ps = positions_of(init, g);
        if ps.contains(j as usize) {
            let k = choose|k: int| 0 <= k < ps.len() && ps[k] == j as usize;
            assert(full[k] == j as usize);
        }
        if full.contains(j as usize) {
            let k = choose|k: int| 0 <= k < full.len() && full[k] == j as usize;
            if k < ps.len() {
                assert(ps[k] == full[k]);
            }
        }
    } else {
        let full = positions_of(codes, g);
        if codes[j] == g {
            assert(full[full.len() - 1] == j as usize);
        }
        if full.contains(j as usize) {
            let k = choose|k: int| 0 <= k < full.len() && full[k] == j as usize;
            assert(codes[full[k] as int] == g);
        }
    }
}

pub proof fn lemma_count_le_len(codes: Seq<nat>, g: nat)
    ensures
        count_of(codes, g) <= codes.len(),
    decreases codes.len(),
{
    if codes.len() > 0 {
        lemma_count_le_len(codes.drop_last(), g);
    }
}

pub proof fn lemma_count_mono(codes: Seq<nat>, i: int, j: int, g: nat)
    requires
        0 <= i <= j <= codes.len(),
    ensures
        count_of(codes.take(i), g) <= count_of(codes.take(j), g),
        positions_of(codes.take(j), g).take(count_of(codes.take(i), g) as int) == positions_of(
            codes.take(i),
            g,
        ),
    decreases j - i,
{
    if i < j {
        lemma_count_mono(codes, i, j - 1, g);
        lemma_positions_step(codes, j - 1, g);
        let a = positions_of(codes.take(j - 1), g);
        let n = count_of(codes.take(i), g) as int;
        assert((a + if codes[j - 1] == g {
            seq![(j - 1) as usize]
        } else {
            Seq::empty()
        }).take(n) == a.take(n));
    } else {
        assert(positions_of(codes.take(j), g).take(count_of(codes.take(i), g) as int)
            == positions_of(codes.take(i), g));
    }
}

pub proof fn lemma_count_below_step(codes: Seq<nat>, g: nat)
    requires
        codes.len() > 0,
    ensures
        count_below(codes, g) == count_below(codes.drop_last(), g) + if codes.last() < g {
            1nat
        } else {
            0nat
        },
    decreases g,
{
    if g > 0 {
        lemma_count_below_step(codes, (g - 1) as nat);
    }
}

pub proof fn lemma_count_below_len(codes: Seq<nat>, g: nat)
    ensures
        count_below(codes, g) <= codes.len(),
        (forall|k: int| 0 <= k < codes.len() ==> #[trigger] codes[k] < g) ==> count_below(codes, g)
            == codes.len(),
    decreases codes.len(),
{
    if codes.len() == 0 {
        assert(codes == Seq::<nat>::empty());
        lemma_count_below_zero(g);
    } else {
        lemma_count_below_step(codes, g);
        lemma_count_below_len(codes.drop_last(), g);
        if forall|k: int| 0 <= k < codes.len() ==> #[trigger] codes[k] < g {
            assert forall|k: int| 0 <= k < codes.drop_last().len() implies #[trigger] codes.drop_last()[k]
                < g by {
                assert(codes[k] < g);
            }
            assert(codes[codes.len() - 1] < g);
        }
    }
}

proof fn lemma_count_below_zero(g: nat)
    ensures
        count_below(Seq::<nat>::empty(), g) == 0,
    decreases g,
{
    if g > 0 {
        lemma_count_below_zero((g - 1) as nat);
    }
}

pub proof fn lemma_bucket_start_bound(codes: Seq<nat>, max_count: nat, g: nat)
    ensures
        bucket_start(codes, max_count, g) <= count_below(codes, g),
        bucket_start(codes, max_count, g) <= codes.len(),
    decreases g,
{
    if g > 0 {
        lemma_bucket_start_bound(codes, max_count, (g - 1) as nat);
    }
    lemma_count_below_len(codes, g);
}

pub proof fn lemma_bucket_start_mono(codes: Seq<nat>, max_count: nat, g1: nat, g2: nat)
    requires
        g1 <= g2,
    ensures
        bucket_start(codes, max_count, g1) <= bucket_start(codes, max_count, g2),
    decreases g2 - g1,
{
    if g1 < g2 {
        lemma_bucket_start_mono(codes, max_count, g1, (g2 - 1) as nat);
    }
}

/// The q-gram values of `text` fit in 32 bits and their table fits in memory.
pub open spec fn table_fits(alphabet: Alphabet, q: nat) -> bool {
    valid_q(alphabet, q) && pow2(q * symbol_bits(alphabet)) < usize::MAX
}

/// What the passes over one text share.
pub open spec fn pass_ready(alphabet: Alphabet, text: Seq<u8>, q: nat, space: nat) -> bool {
    &&& alphabet.wf()
    &&& all_known(alphabet, text)
    &&& table_fits(alphabet, q)
    &&& text.len() >= q
    &&& space == pow2(q * symbol_bits(alphabet))
}

/// Counting pass: entry `g + 1` holds how often `g` occurs.
fn count_qgrams(q: usize, text: &[u8], alphabet: &Alphabet, space: usize) -> (address: Vec<usize>)
    requires
        pass_ready(*alphabet, text@, q as nat, space as nat),
    ensures
        address@.len() == space + 1,
        address@[0] == 0,
        forall|g: int|
            0 <= g < space ==> #[trigger] address@[g + 1] == count_of(
                qgram_codes(*alphabet, text@, q as nat),
                g as nat,
            ),
{
    let ghost codes = qgram_codes(*alphabet, text@, q as nat);
    proof {
        lemma_codes_bound(*alphabet, text@, q as nat);
    }
    let mut address: Vec<usize> = Vec::new();
    let mut k: usize = 0;
    while k <= space
        invariant
            k <= space + 1,
            space < usize::MAX,
            address@.len() == k,
            forall|h: int| 0 <= h < k ==> #[trigger] address@[h] == 0,
        decreases space + 1 - k,
    {
        address.push(0);
        k = k + 1;
    }
    let mut qgrams = QGrams::new(q, text, alphabet);
    let n: usize = text.len() - q + 1;
    let mut e: usize = 0;
    assert(codes.take(0) =~= Seq::<nat>::empty());
    while e < n
        invariant
            n == codes.len(),
            e <= n,
            qgrams.wf(),
            qgrams.codes() == codes,
            qgrams.emitted() == e,
            codes.len() <= text@.len(),
            address@.len() == space + 1,
            address@[0] == 0,
            forall|j: int| 0 <= j < codes.len() ==> #[trigger] codes[j] < space,
            forall|g: int|
                0 <= g < space ==> #[trigger] address@[g + 1] == count_of(
                    codes.take(e as int),
                    g as nat,
                ),
        decreases n - e,
    {
        let r = qgrams.next();
        proof {
            assert forall|g: int| 0 <= g < space implies #[trigger] count_of(codes.take(e + 1), g as nat)
                == count_of(codes.take(e as int), g as nat) + if codes[e as int] == g {
                1nat
            } else {
                0nat
            } by {
                lemma_positions_step(codes, e as int, g as nat);
            }
            lemma_count_mono(codes, e + 1, codes.len() as int, codes[e as int]);
            assert(codes.take(codes.len() as int) == codes);
            lemma_positions_step(codes, e as int, codes[e as int]);
        }
        if let Some(g) = r {
            let gi = g as usize;
            proof {
                lemma_count_le_len(codes.take(e as int), g as nat);
            }
            address.set(gi + 1, address[gi + 1] + 1);
        }
        e = e + 1;
    }
    assert(codes.take(n as int) == codes);
    address
}

/// Masking pass: the count of a value that occurs more than `max_count`
/// times becomes zero.
fn mask_counts(address: &mut Vec<usize>, max_count: usize, Ghost(codes): Ghost<Seq<nat>>)
    requires
        old(address)@.len() >= 1,
        forall|g: int|
            0 <= g < old(address)@.len() - 1 ==> #[trigger] old(address)@[g + 1] == count_of(
                codes,
                g as nat,
            ),
    ensures
        final(address)@.len() == old(address)@.len(),
        final(address)@[0] == old(address)@[0],
        forall|g: int|
            0 <= g < old(address)@.len() - 1 ==> #[trigger] final(address)@[g + 1] == bucket_of(
                codes,
                g as nat,
                max_count as nat,
            ).len(),
{
    let ghost before = address@;
    let mut g: usize = 1;
    while g < address.len()
        invariant
            1 <= g <= address@.len(),
            address@.len() == before.len(),
            address@[0] == before[0],
            forall|h: int|
                0 <= h < before.len() - 1 ==> #[trigger] address@[h + 1] == if h + 1 < g {
                    bucket_of(codes, h as nat, max_count as nat).len()
                } else {
                    count_of(codes, h as nat)
                },
        decreases address@.len() - g,
    {
        if address[g] > max_count {
            address.set(g, 0);
        }
        proof {
            let h = g - 1;
            assert(address@[h + 1] == bucket_of(codes, h as nat, max_count as nat).len());
        }
        g = g + 1;
    }
}

/// Prefix-sum pass: entry `g` becomes the start of bucket `g`.
fn prefix_sums(address: &mut Vec<usize>, Ghost(codes): Ghost<Seq<nat>>, Ghost(max_count): Ghost<nat>)
    requires
        old(address)@.len() >= 1,
        old(address)@[0] == 0,
        codes.len() <= usize::MAX,
        forall|g: int|
            0 <= g < old(address)@.len() - 1 ==> #[trigger] old(address)@[g + 1] == bucket_of(
                codes,
                g as nat,
                max_count,
            ).len(),
    ensures
        final(address)@.len() == old(address)@.len(),
        forall|g: int|
            0 <= g < old(address)@.len() ==> #[trigger] final(address)@[g] == bucket_start(
                codes,
                max_count,
                g as nat,
            ),
{
    let ghost before = address@;
    let mut i: usize = 1;
    while i < address.len()
        invariant
            1 <= i <= address@.len(),
            address@.len() == before.len(),
            codes.len() <= usize::MAX,
            forall|g: int| 0 <= g < i ==> #[trigger] address@[g] == bucket_start(codes, max_count, g as nat),
            forall|g: int| i <= g < before.len() ==> #[trigger] address@[g] == before[g],
            forall|g: int|
                0 <= g < before.len() - 1 ==> #[trigger] before[g + 1] == bucket_of(
                    codes,
                    g as nat,
                    max_count,
                ).len(),
        decreases address@.len() - i,
    {
        proof {
            lemma_bucket_start_bound(codes, max_count, i as nat);
            assert(before[(i - 1) + 1] == bucket_of(codes, (i - 1) as nat, max_count).len());
        }
        let v = address[i] + address[i - 1];
        address.set(i, v);
        i = i + 1;
    }
}

/// Placement pass: each position goes to the next free slot of its bucket,
/// unless the bucket is empty (masked).
#[verifier::rlimit(50)]
fn place_positions(
    q: usize,
    text: &[u8],
    alphabet: &Alphabet,
    space: usize,
    address: &Vec<usize>,
    Ghost(max_count): Ghost<nat>,
) -> (pos: Vec<usize>)
    requires
        pass_ready(*alphabet, text@, q as nat, space as nat),
        address@.len() == space + 1,
        forall|g: int|
            0 <= g <= space ==> #[trigger] address@[g] == bucket_start(
                qgram_codes(*alphabet, text@, q as nat),
                max_count,
                g as nat,
            ),
    ensures
        pos@.len() == address@[space as int],
        forall|g: int|
            0 <= g < space ==> #[trigger] pos@.subrange(address@[g] as int, address@[g + 1] as int)
                == bucket_of(qgram_codes(*alphabet, text@, q as nat), g as nat, max_count),
{
    let ghost codes = qgram_codes(*alphabet, text@, q as nat);
    proof {
        lemma_codes_bound(*alphabet, text@, q as nat);
        lemma_bucket_start_bound(codes, max_count, space as nat);
    }
    let total = address[space];
    let mut pos: Vec<usize> = Vec::new();
    let mut k: usize = 0;
    while k < total
        invariant
            k <= total,
            pos@.len() == k,
        decreases total - k,
    {
        pos.push(0);
        k = k + 1;
    }
    let mut offset: Vec<usize> = Vec::new();
    k = 0;
    while k < space
        invariant
            k <= space,
            offset@.len() == k,
            forall|h: int| 0 <= h < k ==> #[trigger] offset@[h] == 0,
        decreases space - k,
    {
        offset.push(0);
        k = k + 1;
    }
    let mut qgrams = QGrams::new(q, text, alphabet);
    let n: usize = text.len() - q + 1;
    let mut e: usize = 0;
    assert(codes.take(0) =~= Seq::<nat>::empty());
    while e < n
        invariant
            n == codes.len(),
            e <= n,
            codes.len() <= usize::MAX,
            qgrams.wf(),
            qgrams.codes() == codes,
            qgrams.emitted() == e,
            pos@.len() == total,
            total == bucket_start(codes, max_count, space as nat),
            offset@.len() == space,
            address@.len() == space + 1,
            forall|j: int| 0 <= j < codes.len() ==> #[trigger] codes[j] < space,
            forall|g: int|
                0 <= g <= space ==> #[trigger] address@[g] == bucket_start(
                    codes,
                    max_count,
                    g as nat,
                ),
            forall|g: int|
                0 <= g < space ==> #[trigger] offset@[g] == if count_of(codes, g as nat)
                    <= max_count {
                    count_of(codes.take(e as int), g as nat)
                } else {
                    0
                },
            forall|g: int, k: int|
                0 <= g < space && 0 <= k < offset@[g] ==> #[trigger] pos@[address@[g] + k]
                    == #[trigger] positions_of(codes.take(e as int), g as nat)[k],
        decreases n - e,
    {
        let r = qgrams.next();
        let ghost c = codes[e as int];
        proof {
            assert(codes.take(codes.len() as int) == codes);
            lemma_positions_step(codes, e as int, c);
            lemma_count_mono(codes, e + 1, codes.len() as int, c);
        }
        if let Some(g) = r {
            let gi = g as usize;
            let a = address[gi];
            if address[gi + 1] - a != 0 {
                let ghost old_pos = pos@;
                let ghost kept = count_of(codes, c) <= max_count;
                proof {
                    assert(kept);
                    lemma_bucket_start_mono(codes, max_count, c + 1, space as nat);
                }
                let slot = a + offset[gi];
                assert(slot < address@[c + 1 as int]);
                pos.set(slot, e);
                offset.set(gi, offset[gi] + 1);
                proof {
                    assert forall|h: int, k: int|
                        0 <= h < space && 0 <= k < offset@[h] implies #[trigger] pos@[address@[h]
                        + k] == #[trigger] positions_of(codes.take(e + 1), h as nat)[k] by {
                        lemma_positions_step(codes, e as int, h as nat);
                        lemma_count_mono(codes, e + 1, codes.len() as int, h as nat);
                        lemma_bucket_start_mono(codes, max_count, (h + 1) as nat, space as nat);
                        assert(offset@[h] <= count_of(codes, h as nat));
                        assert(address@[h + 1] == address@[h] + bucket_of(codes, h as nat, max_count).len());
                        assert(address@[h] + k < address@[h + 1]);
                        assert(address@[h + 1] <= total);
                        if h != c {
                            if h < c {
                                lemma_bucket_start_mono(codes, max_count, (h + 1) as nat, c);
                                assert(address@[h + 1] <= address@[c as int]);
                            } else {
                                lemma_bucket_start_mono(codes, max_count, c + 1, h as nat);
                                assert(address@[c + 1 as int] <= address@[h]);
                            }
                            assert(old_pos[address@[h] + k] == pos@[address@[h] + k]);
                        } else if k < offset@[h] - 1 {
                            assert(old_pos[address@[h] + k] == pos@[address@[h] + k]);
                        }
                    }
                    assert forall|h: int| 0 <= h < space implies #[trigger] offset@[h] == if count_of(
                        codes,
                        h as nat,
                    ) <= max_count {
                        count_of(codes.take(e + 1), h as nat)
                    } else {
                        0
                    } by {
                        lemma_positions_step(codes, e as int, h as nat);
                    }
                }
            } else {
                proof {
                    assert forall|h: int| 0 <= h < space implies #[trigger] offset@[h] == if count_of(
                        codes,
                        h as nat,
                    ) <= max_count {
                        count_of(codes.take(e + 1), h as nat)
                    } else {
                        0
                    } by {
                        lemma_positions_step(codes, e as int, h as nat);
                    }
                    assert forall|h: int, k: int|
                        0 <= h < space && 0 <= k < offset@[h] implies #[trigger] pos@[address@[h]
                        + k] == #[trigger] positions_of(codes.take(e + 1), h as nat)[k] by {
                        lemma_positions_step(codes, e as int, h as nat);
                    }
                }
            }
        }
        e = e + 1;
    }
    proof {
        assert(codes.take(n as int) == codes);
        assert forall|g: int| 0 <= g < space implies #[trigger] pos@.subrange(
            address@[g] as int,
            address@[g + 1] as int,
        ) == bucket_of(codes, g as nat, max_count) by {
            assert(address@[g + 1] == address@[g] + bucket_of(codes, g as nat, max_count).len());
            lemma_bucket_start_mono(codes, max_count, (g + 1) as nat, space as nat);
            let sub = pos@.subrange(address@[g] as int, address@[g + 1] as int);
            if count_of(codes, g as nat) <= max_count {
                assert(offset@[g] == count_of(codes.take(n as int), g as nat));
                assert(offset@[g] == sub.len());
                assert forall|k: int| 0 <= k < sub.len() implies sub[k] == bucket_of(
                    codes,
                    g as nat,
                    max_count,
                )[k] by {
                    assert(sub[k] == pos@[address@[g] + k]);
                    assert(pos@[address@[g] + k] == positions_of(codes.take(n as int), g as nat)[k]);
                }
            }
            assert(pos@.subrange(address@[g] as int, address@[g + 1] as int) =~= bucket_of(
                codes,
                g as nat,
                max_count,
            ));
        }
    }
    pos
}

/// Why an index could not be built or queried.
#[derive(Clone, Copy, Debug, PartialEq, Eq, Structural)]
pub enum QGramError {
    /// `q` is zero, or a window of `q` symbols does not fit in 32 bits.
    InvalidQ,
    /// A byte of the text or pattern is not a symbol of the alphabet.
    UnknownSymbol,
    /// The text is shorter than `q`.
    EmptyText,
}

/// The error, if any, that building an index over `text` gives.
pub open spec fn build_error(alphabet: Alphabet, text: Seq<u8>, q: nat) -> Option<QGramError> {
    if !table_fits(alphabet, q) {
        Some(QGramError::InvalidQ)
    } else if text.len() < q {
        Some(QGramError::EmptyText)
    } else if !all_known(alphabet, text) {
        Some(QGramError::UnknownSymbol)
    } else {
        None
    }
}

/// The positions of every q-gram value of a text, bucketed by value
/// (an offset table `address` into a flat position list `pos`).
pub struct QGramIndex<'a> {
    q: usize,
    alphabet: &'a Alphabet,
    address: Vec<usize>,
    pos: Vec<usize>,
    text: Ghost<Seq<u8>>,
    max_count: Ghost<nat>,
}

impl<'a> QGramIndex<'a> {
    pub closed spec fn spec_q(&self) -> nat {
        self.q as nat
    }

    pub closed spec fn spec_alphabet(&self) -> Alphabet {
        *self.alphabet
    }

    /// The indexed text.
    pub closed spec fn spec_text(&self) -> Seq<u8> {
        self.text@
    }

    /// The frequency cap.
    pub closed spec fn spec_max_count(&self) -> nat {
        self.max_count@
    }

    /// The q-gram values of the text, by window start.
    pub open spec fn codes(&self) -> Seq<nat> {
        qgram_codes(self.spec_alphabet(), self.spec_text(), self.spec_q())
    }

    /// Number of possible q-gram values.
    pub open spec fn space(&self) -> nat {
        pow2(self.spec_q() * symbol_bits(self.spec_alphabet()))
    }

    /// What `matches(g)` returns.
    pub open spec fn bucket(&self, g: nat) -> Seq<usize> {
        bucket_of(self.codes(), g, self.spec_max_count())
    }

    pub closed spec fn wf(&self) -> bool {
        &&& pass_ready(*self.alphabet, self.text@, self.q as nat, self.space())
        &&& self.text@.len() <= usize::MAX
        &&& self.address@.len() == self.space() + 1
        &&& self.pos@.len() == self.address@[self.space() as int]
        &&& forall|g: int|
            0 <= g < self.space() ==> #[trigger] self.pos@.subrange(
                self.address@[g] as int,
                self.address@[g + 1] as int,
            ) == self.bucket(g as nat)
        &&& forall|g: int|
            0 <= g <= self.space() ==> #[trigger] self.address@[g] == bucket_start(
                self.codes(),
                self.spec_max_count(),
                g as nat,
            )
    }

    /// What a well-formed index guarantees to its users.
    pub proof fn lemma_wf(&self)
        requires
            self.wf(),
        ensures
            self.spec_alphabet().wf(),
            table_fits(self.spec_alphabet(), self.spec_q()),
            self.spec_text().len() >= self.spec_q(),
            self.spec_text().len() <= usize::MAX,
            all_known(self.spec_alphabet(), self.spec_text()),
            self.codes().len() == self.spec_text().len() - self.spec_q() + 1,
            forall|j: int| 0 <= j < self.codes().len() ==> #[trigger] self.codes()[j] < self.space(),
    {
        lemma_codes_bound(self.spec_alphabet(), self.spec_text(), self.spec_q());
    }

    /// Every window start `j` is in the bucket of its own q-gram value, unless
    /// that value is masked, and in no other bucket.
    pub proof fn lemma_each_position_in_one_bucket(&self, j: int)
        requires
            self.wf(),
            0 <= j < self.codes().len(),
        ensures
            count_of(self.codes(), self.codes()[j]) <= self.spec_max_count() ==> self.bucket(
                self.codes()[j],
            ).contains(j as usize),
            forall|g: nat| g != self.codes()[j] ==> !(#[trigger] self.bucket(g)).contains(j as usize),
    {
        self.lemma_wf();
        lemma_positions_contains(self.codes(), self.codes()[j], j);
        assert forall|g: nat| g != self.codes()[j] implies !(#[trigger] self.bucket(g)).contains(
            j as usize,
        ) by {
            lemma_positions_contains(self.codes(), g, j);
        }
    }

    /// Each bucket is strictly ascending and holds only window starts of its
    /// value; so, over all unmasked values, the buckets hold every window
    /// start whose value is unmasked exactly once.
    pub proof fn lemma_buckets_cover_positions(&self, g: nat)
        requires
            self.wf(),
        ensures
            forall|k1: int, k2: int|
                0 <= k1 < k2 < self.bucket(g).len() ==> #[trigger] self.bucket(g)[k1]
                    < #[trigger] self.bucket(g)[k2],
            forall|k: int|
                0 <= k < self.bucket(g).len() ==> (#[trigger] self.bucket(g)[k] as int)
                    < self.codes().len() && self.codes()[self.bucket(g)[k] as int] == g,
            forall|j: int|
                0 <= j < self.codes().len() && self.codes()[j] == g && count_of(self.codes(), g)
                    <= self.spec_max_count() ==> #[trigger] self.bucket(g).contains(j as usize),
    {
        self.lemma_wf();
        lemma_positions_bounds(self.codes(), g);
        assert forall|j: int|
            0 <= j < self.codes().len() && self.codes()[j] == g && count_of(self.codes(), g)
                <= self.spec_max_count() implies #[trigger] self.bucket(g).contains(j as usize) by {
            lemma_positions_contains(self.codes(), g, j);
        }
    }

    /// The buckets of all values below `g`, one after another, as integers.
    pub open spec fn buckets_below(&self, g: nat) -> Seq<int>
        decreases g,
    {
        if g == 0 {
            Seq::empty()
        } else {
            self.buckets_below((g - 1) as nat) + self.bucket((g - 1) as nat).map_values(
                |p: usize| p as int,
            )
        }
    }

    /// The buckets of all values, one after another, hold every window start
    /// whose q-gram value is not masked exactly once, and nothing else.
    pub proof fn lemma_buckets_hold_each_position_once(&self, g: nat, j: int)
        requires
            self.wf(),
            g <= self.space(),
        ensures
            occ(self.buckets_below(g), j) == if 0 <= j < self.codes().len() && self.codes()[j] < g
                && count_of(self.codes(), self.codes()[j]) <= self.spec_max_count() {
                1nat
            } else {
                0nat
            },
            g == self.space() ==> occ(self.buckets_below(g), j) == if 0 <= j < self.codes().len()
                && count_of(self.codes(), self.codes()[j]) <= self.spec_max_count() {
                1nat
            } else {
                0nat
            },
        decreases g,
    {
        self.lemma_wf();
        if g > 0 {
            let h = (g - 1) as nat;
            self.lemma_buckets_hold_each_position_once(h, j);
            let b = self.bucket(h).map_values(|p: usize| p as int);
            lemma_occ_concat(self.buckets_below(h), b, j);
            lemma_positions_bounds(self.codes(), h);
            assert forall|k1: int, k2: int| 0 <= k1 < k2 < b.len() implies #[trigger] b[k1]
                < #[trigger] b[k2] by {
                assert(self.bucket(h)[k1] < self.bucket(h)[k2]);
            }
            lemma_occ_ascending(b, j);
            let inb = 0 <= j < self.codes().len() && self.codes()[j] == h && count_of(
                self.codes(),
                h,
            ) <= self.spec_max_count();
            if inb {
                lemma_positions_contains(self.codes(), h, j);
                let k = choose|k: int|
                    0 <= k < self.bucket(h).len() && self.bucket(h)[k] == j as usize;
                assert(b[k] == j);
                lemma_occ_contains(b, j);
            } else {
                assert(!b.contains(j)) by {
                    if b.contains(j) {
                        let k = choose|k: int| 0 <= k < b.len() && b[k] == j;
                        assert(self.bucket(h)[k] as int == j);
                        assert(self.codes()[j] == h);
                    }
                }
                lemma_occ_absent(b, j);
            }
        } else {
            assert(occ(Seq::<int>::empty(), j) == 0);
        }
        if g == self.space() && 0 <= j < self.codes().len() {
            assert(self.codes()[j] < self.space());
        }
    }

    /// A q-gram value that occurs more than the cap has an empty bucket.
    pub proof fn lemma_masked_bucket_empty(&self, g: nat)
        requires
            self.wf(),
            count_of(self.codes(), g) > self.spec_max_count(),
        ensures
            self.bucket(g).len() == 0,
    {
    }

    /// An index with no frequency cap.
    pub fn new(q: usize, text: &[u8], alphabet: &'a Alphabet) -> (r: Result<QGramIndex<'a>, QGramError>)
        requires
            alphabet.wf(),
        ensures
            r is Err <==> build_error(*alphabet, text@, q as nat) is Some,
            r is Err ==> r->Err_0 == build_error(*alphabet, text@, q as nat)->0,
            r is Ok ==> r->Ok_0.wf() && r->Ok_0.spec_q() == q && r->Ok_0.spec_text() == text@
                && r->Ok_0.spec_alphabet() == *alphabet && r->Ok_0.spec_max_count() == usize::MAX,
    {
        QGramIndex::with_max_count(q, text, alphabet, usize::MAX)
    }

    /// An index whose q-grams that occur more than `max_count` times are
    /// masked: their buckets are empty.
    pub fn with_max_count(q: usize, text: &[u8], alphabet: &'a Alphabet, max_count: usize) -> (r:
        Result<QGramIndex<'a>, QGramError>)
        requires
            alphabet.wf(),
        ensures
            r is Err <==> build_error(*alphabet, text@, q as nat) is Some,
            r is Err ==> r->Err_0 == build_error(*alphabet, text@, q as nat)->0,
            r is Ok ==> r->Ok_0.wf() && r->Ok_0.spec_q() == q && r->Ok_0.spec_text() == text@
                && r->Ok_0.spec_alphabet() == *alphabet && r->Ok_0.spec_max_count() == max_count,
    {
        proof {
            alphabet.lemma_wf();
            lemma_ranks_fit(*alphabet, Seq::<u8>::empty(), 0, 0);
            lemma2_to64();
        }
        if q == 0 {
            return Err(QGramError::InvalidQ);
        }
        let bits = ceil_log2_exec(alphabet.len());
        if bits > 0 && q > 32 {
            assert(q * bits > 32) by (nonlinear_arith)
                requires
                    bits > 0,
                    q > 32,
            ;
            return Err(QGramError::InvalidQ);
        }
        assert((q as u64) * bits <= 256) by (nonlinear_arith)
            requires
                bits <= 8,
                bits == 0 || q <= 32,
        ;
        let qb: u64 = (q as u64) * bits;
        if qb > 32 {
            return Err(QGramError::InvalidQ);
        }
        proof {
            lemma_u64_pow2_no_overflow(qb as nat);
            lemma_u64_shl_is_mul(1, qb);
        }
        let space64: u64 = 1u64 << qb;
        if space64 >= usize::MAX as u64 {
            return Err(QGramError::InvalidQ);
        }
        let space = space64 as usize;
        if text.len() < q {
            return Err(QGramError::EmptyText);
        }
        let mut i: usize = 0;
        while i < text.len()
            invariant
                i <= text@.len(),
                alphabet.wf(),
                table_fits(*alphabet, q as nat),
                text@.len() >= q,
                forall|k: int| 0 <= k < i ==> #[trigger] alphabet.spec_rank(text@[k]) is Some,
            decreases text@.len() - i,
        {
            if alphabet.get(text[i]).is_none() {
                assert(!all_known(*alphabet, text@));
                return Err(QGramError::UnknownSymbol);
            }
            i = i + 1;
        }
        let ghost codes = qgram_codes(*alphabet, text@, q as nat);
        let mut address = count_qgrams(q, text, alphabet, space);
        mask_counts(&mut address, max_count, Ghost(codes));
        prefix_sums(&mut address, Ghost(codes), Ghost(max_count as nat));
        let pos = place_positions(q, text, alphabet, space, &address, Ghost(max_count as nat));
        Ok(
            QGramIndex {
                q,
                alphabet,
                address,
                pos,
                text: Ghost(text@),
                max_count: Ghost(max_count as nat),
            },
        )
    }

    /// The window length.
    pub fn q(&self) -> (r: usize)
        ensures
            r == self.spec_q(),
    {
        self.q
    }

    /// The alphabet of the text.
    pub fn alphabet(&self) -> (r: &'a Alphabet)
        ensures
            *r == self.spec_alphabet(),
    {
        self.alphabet
    }

    /// Number of possible q-gram values, `2^(q * bits)`.
    pub fn qgram_space(&self) -> (r: usize)
        requires
            self.wf(),
        ensures
            r == self.space(),
    {
        self.address.len() - 1
    }

    /// The text positions whose window has q-gram value `qgram`, ascending;
    /// empty for a value that never occurs or occurs more than the cap.
    pub fn matches(&self, qgram: u32) -> (r: &[usize])
        requires
            self.wf(),
            qgram < self.space(),
        ensures
            r@ == self.bucket(qgram as nat),
    {
        let g = qgram as usize;
        proof {
            lemma_bucket_start_mono(self.codes(), self.spec_max_count(), g as nat, g as nat + 1);
            lemma_bucket_start_mono(self.codes(), self.spec_max_count(), g as nat + 1, self.space());
        }
        slice_subrange(self.pos.as_slice(), self.address[g], self.address[g + 1])
    }
}

} // verus!
