//! The less table: for each symbol, how many symbols of a sequence lie below it.

use vstd::prelude::*;
use crate::alphabet::Alphabet;
use crate::counts::{count_eq, count_less, over_alphabet, lemma_count_bound, lemma_count_less_floor};
use crate::error::IndexError;

verus! {

/// The table that `Less::new` builds for `s` over `alphabet`: each symbol of
/// the alphabet is mapped to the number of symbols of `s` strictly below it.
pub open spec fn less_table(s: Seq<u8>, alphabet: Set<u8>) -> Map<u8, nat> {
    Map::new(|c: u8| alphabet.contains(c), |c: u8| count_less(s, c, s.len() as int))
}

/// `o` ascends strictly.
pub open spec fn strictly_increasing(o: Seq<u8>) -> bool {
    forall|i: int, j: int| 0 <= i < j < o.len() ==> o[i] < o[j]
}

/// Between two neighbours of an ascending list that holds every symbol of
/// `s` there is no symbol of `s`: what lies below the upper neighbour lies
/// below the lower one or equals it.
proof fn lemma_less_step(s: Seq<u8>, o: Seq<u8>, a: int, p: int)
    requires
        strictly_increasing(o),
        forall|k: int| 0 <= k < s.len() ==> o.contains(#[trigger] s[k]),
        0 <= a,
        a + 1 < o.len(),
    ensures
        count_less(s, o[a + 1], p) == count_less(s, o[a], p) + count_eq(s, o[a], p),
    decreases p,
{
    if p > 0 {
        lemma_less_step(s, o, a, p - 1);
        if p <= s.len() {
            let x = s[p - 1];
            assert(o.contains(x));
            let r = choose|r: int| 0 <= r < o.len() && o[r] == x;
            if r <= a {
                if r < a {
                    assert(o[r] < o[a]);
                }
                assert(o[a] < o[a + 1]);
            } else if r > a + 1 {
                assert(o[a + 1] < o[r]);
            }
        }
    }
}

/// Cumulative counts of smaller symbols, one entry per alphabet symbol.
pub struct Less {
    counts: Vec<usize>,
    alphabet: Alphabet,
}

impl View for Less {
    type V = Map<u8, nat>;

    closed spec fn view(&self) -> Map<u8, nat> {
        Map::new(
            |c: u8| self.alphabet@.contains(c),
            |c: u8| self.counts@[self.alphabet.rank(c)] as nat,
        )
    }
}

impl Less {
    /// There is one count per symbol of the alphabet.
    #[verifier::type_invariant]
    pub closed spec fn wf(&self) -> bool {
        &&& self.alphabet.wf()
        &&& self.counts@.len() == self.alphabet.ordered().len()
    }

    /// Builds the table of `bwt` over `alphabet`: a histogram of the symbols,
    /// then a running sum in ascending symbol order.
    ///
    /// Fails with `InvalidInput` exactly when a symbol of `bwt` is outside the
    /// alphabet.
    pub fn new(bwt: &[u8], alphabet: &Alphabet) -> (res: Result<Less, IndexError>)
        ensures
            over_alphabet(bwt@, alphabet@) ==> res is Ok && res->Ok_0@ == less_table(
                bwt@,
                alphabet@,
            ),
            !over_alphabet(bwt@, alphabet@) ==> res is Err && res->Err_0
                == IndexError::InvalidInput,
    {
        proof {
            use_type_invariant(alphabet);
            alphabet.lemma_ranks();
        }
        let n: usize = bwt.len();
        let sigma: usize = alphabet.len();
        let ghost o = alphabet.ordered();
        let mut hist: Vec<usize> = Vec::new();
        let mut a: usize = 0;
        while a < sigma
            invariant
                a <= sigma,
                hist@.len() == a,
                forall|k: int| 0 <= k < a ==> #[trigger] hist@[k] == 0,
            decreases sigma - a,
        {
            hist.push(0);
            a += 1;
        }
        let mut i: usize = 0;
        while i < n
            invariant
                alphabet.wf(),
                o == alphabet.ordered(),
                sigma == o.len(),
                n == bwt@.len(),
                i <= n,
                hist@.len() == sigma,
                forall|k: int| 0 <= k < i ==> alphabet@.contains(#[trigger] bwt@[k]),
                forall|k: int| 0 <= k < sigma ==> #[trigger] hist@[k] == count_eq(bwt@, o[k], i as int),
            decreases n - i,
        {
            let symbol: u8 = bwt[i];
            match alphabet.rank_of(symbol) {
                None => {
                    return Err(IndexError::InvalidInput);
                },
                Some(r) => {
                    proof {
                        alphabet.lemma_ranks();
                        lemma_count_bound(bwt@, symbol, i as int);
                        assert forall|k: int| 0 <= k < sigma && k != r implies o[k] != symbol by {
                            assert(alphabet.rank(o[k]) == k);
                        }
                    }
                    let old_count: usize = hist[r];
                    hist.set(r, old_count + 1);
                },
            }
            i += 1;
        }
        proof {
            alphabet.lemma_ranks();
            assert(over_alphabet(bwt@, alphabet@));
            assert forall|k: int| 0 <= k < bwt@.len() implies o.contains(#[trigger] bwt@[k]) by {
                assert(o[alphabet.rank(bwt@[k])] == bwt@[k]);
            }
            if sigma > 0 {
                assert forall|k: int| 0 <= k < bwt@.len() implies o[0] <= bwt@[k] by {
                    let r = alphabet.rank(bwt@[k]);
                    assert(o[r] == bwt@[k]);
                }
                lemma_count_less_floor(bwt@, o[0], n as int);
            }
        }
        let mut counts: Vec<usize> = Vec::new();
        let mut below: usize = 0;
        let mut a: usize = 0;
        while a < sigma
            invariant
                strictly_increasing(o),
                forall|k: int| 0 <= k < bwt@.len() ==> o.contains(#[trigger] bwt@[k]),
                sigma == o.len(),
                n == bwt@.len(),
                a <= sigma,
                hist@.len() == sigma,
                forall|k: int| 0 <= k < sigma ==> #[trigger] hist@[k] == count_eq(bwt@, o[k], n as int),
                counts@.len() == a,
                forall|k: int| 0 <= k < a ==> #[trigger] counts@[k] == count_less(bwt@, o[k], n as int),
                a < sigma ==> below == count_less(bwt@, o[a as int], n as int),
            decreases sigma - a,
        {
            counts.push(below);
            proof {
                lemma_count_bound(bwt@, o[a as int], n as int);
                if a + 1 < sigma {
                    lemma_less_step(bwt@, o, a as int, n as int);
                }
            }
            below = below + hist[a];
            a += 1;
        }
        let table = Less { counts, alphabet: alphabet.copy() };
        proof {
            assert forall|c: u8| alphabet@.contains(c) implies #[trigger] table@[c] == count_less(
                bwt@,
                c,
                n as int,
            ) by {
                assert(o[alphabet.rank(c)] == c);
            }
            assert(table@ =~= less_table(bwt@, alphabet@));
        }
        Ok(table)
    }

    /// The number of symbols below `symbol` in the sequence the table was
    /// built for, if `symbol` belongs to the table's alphabet.
    pub fn get(&self, symbol: u8) -> (r: Option<usize>)
        ensures
            r is Some <==> self@.dom().contains(symbol),
            r is Some ==> r->Some_0 == self@[symbol],
    {
        proof {
            use_type_invariant(self);
            self.alphabet.lemma_ranks();
        }
        match self.alphabet.rank_of(symbol) {
            None => None,
            Some(r) => Some(self.counts[r]),
        }
    }

    /// The number of entries: the size of the alphabet.
    pub fn len(&self) -> (n: usize)
        ensures
            n == self@.dom().len(),
    {
        proof {
            use_type_invariant(self);
            self.alphabet.lemma_size();
            assert(self@.dom() =~= self.alphabet@);
        }
        self.counts.len()
    }
}

/// In ascending symbol order the entries of a less table never decrease.
pub proof fn lemma_less_table_monotone(s: Seq<u8>, alphabet: Set<u8>, c: u8, d: u8)
    requires
        alphabet.contains(c),
        alphabet.contains(d),
        c <= d,
    ensures
        less_table(s, alphabet)[c] <= less_table(s, alphabet)[d],
{
    crate::counts::lemma_count_less_monotone(s, c, d, s.len() as int);
}

/// The entry of a symbol that no symbol of the sequence undercuts is zero; so
/// is that of the alphabet's first symbol when the sequence is over it.
pub proof fn lemma_less_table_first(s: Seq<u8>, alphabet: Set<u8>, c: u8)
    requires
        alphabet.contains(c),
        forall|i: int| 0 <= i < s.len() ==> c <= s[i],
    ensures
        less_table(s, alphabet)[c] == 0,
{
    lemma_count_less_floor(s, c, s.len() as int);
}

} // verus!
