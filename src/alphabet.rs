//! Alphabets of byte symbols and their rank transform.

use vstd::prelude::*;

verus! {

/// Number of `true` entries of `s`.
pub open spec fn count_true(s: Seq<bool>) -> nat
    decreases s.len(),
{
    if s.len() == 0 {
        0
    } else {
        count_true(s.drop_last()) + if s.last() { 1nat } else { 0nat }
    }
}

/// Which of the 256 byte values occur in `symbols`.
pub open spec fn presence(symbols: Seq<u8>) -> Seq<bool> {
    Seq::new(256, |c: int| symbols.contains(c as u8))
}

/// Dense rank of byte `c` in the alphabet made of `symbols`: the number of
/// smaller symbols, or `None` when `c` is not a symbol.
pub open spec fn rank_in(symbols: Seq<u8>, c: int) -> Option<u8> {
    if presence(symbols)[c] {
        Some(count_true(presence(symbols).take(c)) as u8)
    } else {
        None
    }
}

/// A finite alphabet of byte symbols with its rank transform: each symbol
/// gets a dense rank in `[0, len)`, in ascending order of the byte values.
pub struct Alphabet {
    ranks: Vec<Option<u8>>,
    size: usize,
}

impl Alphabet {
    /// The rank of byte `c`, if it is a symbol.
    pub closed spec fn spec_rank(&self, c: u8) -> Option<u8> {
        self.ranks@[c as int]
    }

    /// Number of symbols.
    pub closed spec fn spec_len(&self) -> nat {
        self.size as nat
    }

    pub closed spec fn wf(&self) -> bool {
        &&& self.ranks@.len() == 256
        &&& self.size <= 256
        &&& forall|c: u8| #[trigger] self.ranks@[c as int] is Some ==> (
            self.ranks@[c as int]->0 as nat) < self.size
        &&& forall|c1: u8, c2: u8|
            #[trigger] self.ranks@[c1 as int] is Some && #[trigger] self.ranks@[c2 as int]
                == self.ranks@[c1 as int] ==> c1 == c2
    }

    pub proof fn lemma_wf(&self)
        requires
            self.wf(),
        ensures
            forall|c1: u8, c2: u8|
                #[trigger] self.spec_rank(c1) is Some && #[trigger] self.spec_rank(c2)
                    == self.spec_rank(c1) ==> c1 == c2,
            self.spec_len() <= 256,
            forall|c: u8| #[trigger] self.spec_rank(c) is Some ==> (self.spec_rank(c)->0 as nat)
                < self.spec_len(),
    {
    }

    /// The alphabet of the distinct bytes of `symbols`.
    pub fn new(symbols: &[u8]) -> (r: Alphabet)
        ensures
            r.wf(),
            r.spec_len() == count_true(presence(symbols@)),
            forall|c: u8| #[trigger] r.spec_rank(c) == rank_in(symbols@, c as int),
    {
        let mut present: Vec<bool> = Vec::new();
        let mut c: usize = 0;
        while c < 256
            invariant
                c <= 256,
                present@.len() == c,
                forall|k: int| 0 <= k < c ==> !#[trigger] present@[k],
            decreases 256 - c,
        {
            present.push(false);
            c = c + 1;
        }
        let mut i: usize = 0;
        while i < symbols.len()
            invariant
                i <= symbols@.len(),
                present@.len() == 256,
                forall|k: int|
                    0 <= k < 256 ==> #[trigger] present@[k] == symbols@.take(i as int).contains(
                        k as u8,
                    ),
            decreases symbols@.len() - i,
        {
            let s = symbols[i];
            present.set(s as usize, true);
            proof {
                let t = symbols@.take(i + 1);
                assert(t == symbols@.take(i as int).push(s));
                assert forall|k: int| 0 <= k < 256 implies #[trigger] present@[k] == t.contains(
                    k as u8,
                ) by {
                    if t.contains(k as u8) {
                        let j = choose|j: int| 0 <= j < t.len() && t[j] == k as u8;
                        if j < i {
                            assert(symbols@.take(i as int)[j] == k as u8);
                        }
                    }
                    if symbols@.take(i as int).contains(k as u8) {
                        let j = choose|j: int|
                            0 <= j < i && symbols@.take(i as int)[j] == k as u8;
                        assert(t[j] == k as u8);
                    }
                    if k == s as int {
                        assert(t[i as int] == s);
                    }
                }
            }
            i = i + 1;
        }
        assert(symbols@.take(symbols@.len() as int) == symbols@);
        assert(present@ == presence(symbols@));
        let mut ranks: Vec<Option<u8>> = Vec::new();
        let mut next: usize = 0;
        let mut c: usize = 0;
        while c < 256
            invariant
                c <= 256,
                present@ == presence(symbols@),
                ranks@.len() == c,
                next == count_true(present@.take(c as int)),
                next <= c,
                forall|k: int| 0 <= k < c ==> #[trigger] ranks@[k] == rank_in(symbols@, k),
                forall|k: int|
                    0 <= k < c && #[trigger] ranks@[k] is Some ==> (ranks@[k]->0 as nat) < next,
                forall|k1: int, k2: int|
                    0 <= k1 < c && 0 <= k2 < c && #[trigger] ranks@[k1] is Some && #[trigger] ranks@[k2]
                        == ranks@[k1] ==> k1 == k2,
            decreases 256 - c,
        {
            assert(present@.take(c + 1).drop_last() == present@.take(c as int));
            if present[c] {
                ranks.push(Some(next as u8));
                next = next + 1;
            } else {
                ranks.push(None);
            }
            c = c + 1;
        }
        assert(present@.take(256) == present@);
        let r = Alphabet { ranks, size: next };
        assert forall|c1: u8, c2: u8|
            #[trigger] r.ranks@[c1 as int] is Some && #[trigger] r.ranks@[c2 as int] == r.ranks@[c1 as int]
            implies c1 == c2 by {
            assert(0 <= c1 as int && (c1 as int) < 256 && 0 <= c2 as int && (c2 as int) < 256);
        }
        assert forall|k: u8| #[trigger] r.spec_rank(k) == rank_in(symbols@, k as int) by {
            assert(0 <= k as int && (k as int) < 256);
        }
        r
    }

    /// Number of symbols.
    pub fn len(&self) -> (r: usize)
        ensures
            r == self.spec_len(),
    {
        self.size
    }

    /// The rank of byte `c`, or `None` where `c` is not a symbol.
    pub fn get(&self, c: u8) -> (r: Option<u8>)
        requires
            self.wf(),
        ensures
            r == self.spec_rank(c),
    {
        self.ranks[c as usize]
    }
}

} // verus!
