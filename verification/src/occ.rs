//! The occurrence table: sampled symbol counts over a transformed text.

use vstd::prelude::*;
use vstd::arithmetic::div_mod::{
    lemma_div_is_ordered, lemma_fundamental_div_mod, lemma_fundamental_div_mod_converse_div,
};
use crate::alphabet::Alphabet;
use crate::counts::{
    count_eq, over_alphabet, lemma_count_bound, lemma_count_eq_absent, lemma_count_past_end,
};
use crate::error::IndexError;

verus! {

/// What an occurrence table stands for: the sequence it counts in, the
/// distance between two checkpoints, and the alphabet of the sequence.
pub struct OccView {
    pub bwt: Seq<u8>,
    pub sampling: nat,
    pub alphabet: Set<u8>,
}

/// `row` holds, for each symbol of `o` in turn, its number of occurrences
/// among the first `pos` symbols of `s`.
pub open spec fn row_counts(row: Seq<usize>, s: Seq<u8>, o: Seq<u8>, pos: int) -> bool {
    &&& row.len() == o.len()
    &&& forall|a: int| 0 <= a < o.len() ==> #[trigger] row[a] == count_eq(s, o[a], pos)
}

/// Checkpointed ranks over a sequence. Row `i` of the table holds the counts
/// of every alphabet symbol in the first `i * sampling` symbols; a query adds
/// to the nearest row at or below its position a scan of fewer than
/// `sampling` symbols.
pub struct Occ {
    bwt: Vec<u8>,
    sampling: usize,
    alphabet: Alphabet,
    rows: Vec<Vec<usize>>,
}

impl View for Occ {
    type V = OccView;

    closed spec fn view(&self) -> OccView {
        OccView { bwt: self.bwt@, sampling: self.sampling as nat, alphabet: self.alphabet@ }
    }
}

fn copy_counts(row: &Vec<usize>) -> (out: Vec<usize>)
    ensures
        out@ == row@,
{
    let mut out: Vec<usize> = Vec::with_capacity(row.len());
    let mut a: usize = 0;
    while a < row.len()
        invariant
            a <= row@.len(),
            out@ == row@.take(a as int),
        decreases row@.len() - a,
    {
        out.push(row[a]);
        assert(out@ =~= row@.take(a + 1));
        a += 1;
    }
    assert(out@ =~= row@);
    out
}

impl Occ {
    /// The sequence is over the alphabet, there is one row for position zero
    /// and one for every further multiple of the interval up to the length,
    /// and each row holds the exact counts at its position.
    #[verifier::type_invariant]
    pub closed spec fn wf(&self) -> bool {
        &&& self.alphabet.wf()
        &&& self.sampling >= 1
        &&& over_alphabet(self.bwt@, self.alphabet@)
        &&& self.rows@.len() == self.bwt@.len() / (self.sampling as nat) + 1
        &&& forall|i: int|
            0 <= i < self.rows@.len() ==> row_counts(
                (#[trigger] self.rows@[i])@,
                self.bwt@,
                self.alphabet.ordered(),
                i * self.sampling,
            )
    }

    /// Builds the table in one pass over `bwt`, keeping running counts and
    /// storing them after every `sampling` symbols.
    ///
    /// Fails with `InvalidInput` exactly when `sampling` is zero or a symbol
    /// of `bwt` is outside the alphabet.
    pub fn new(bwt: Vec<u8>, sampling: usize, alphabet: &Alphabet) -> (res: Result<Occ, IndexError>)
        ensures
            sampling >= 1 && over_alphabet(bwt@, alphabet@) ==> res is Ok && res->Ok_0@ == (OccView {
                bwt: bwt@,
                sampling: sampling as nat,
                alphabet: alphabet@,
            }),
            !(sampling >= 1 && over_alphabet(bwt@, alphabet@)) ==> res is Err && res->Err_0
                == IndexError::InvalidInput,
    {
        if sampling == 0 {
            return Err(IndexError::InvalidInput);
        }
        proof {
            use_type_invariant(alphabet);
            alphabet.lemma_ranks();
        }
        let n: usize = bwt.len();
        let sigma: usize = alphabet.len();
        let ghost o = alphabet.ordered();
        let mut current: Vec<usize> = Vec::new();
        let mut a: usize = 0;
        while a < sigma
            invariant
                a <= sigma,
                current@.len() == a,
                forall|k: int| 0 <= k < a ==> #[trigger] current@[k] == 0,
            decreases sigma - a,
        {
            current.push(0);
            a += 1;
        }
        let mut rows: Vec<Vec<usize>> = Vec::new();
        rows.push(copy_counts(&current));
        let mut since: usize = 0;
        let mut p: usize = 0;
        assert(row_counts(rows@[0]@, bwt@, o, 0 * sampling));
        while p < n
            invariant
                alphabet.wf(),
                o == alphabet.ordered(),
                sigma == o.len(),
                n == bwt@.len(),
                sampling >= 1,
                p <= n,
                rows@.len() >= 1,
                since < sampling,
                (rows@.len() - 1) * sampling + since == p,
                row_counts(current@, bwt@, o, p as int),
                forall|k: int| 0 <= k < p ==> alphabet@.contains(#[trigger] bwt@[k]),
                forall|i: int|
                    0 <= i < rows@.len() ==> row_counts(
                        (#[trigger] rows@[i])@,
                        bwt@,
                        o,
                        i * sampling,
                    ),
            decreases n - p,
        {
            let symbol: u8 = bwt[p];
            match alphabet.rank_of(symbol) {
                None => {
                    return Err(IndexError::InvalidInput);
                },
                Some(r) => {
                    proof {
                        alphabet.lemma_ranks();
                        lemma_count_bound(bwt@, symbol, p as int);
                        assert forall|k: int| 0 <= k < sigma && k != r implies o[k] != symbol by {
                            assert(alphabet.rank(o[k]) == k);
                        }
                    }
                    let seen: usize = current[r];
                    current.set(r, seen + 1);
                },
            }
            since += 1;
            p += 1;
            if since == sampling {
                let ghost before = rows@;
                assert((before.len() - 1) * sampling + sampling == before.len() * sampling)
                    by (nonlinear_arith);
                rows.push(copy_counts(&current));
                since = 0;
                assert forall|i: int| 0 <= i < rows@.len() implies row_counts(
                    (#[trigger] rows@[i])@,
                    bwt@,
                    o,
                    i * sampling,
                ) by {
                    if i < before.len() {
                        assert(rows@[i] == before[i]);
                    }
                }
            }
        }
        proof {
            lemma_fundamental_div_mod_converse_div(
                n as int,
                sampling as int,
                rows@.len() - 1,
                since as int,
            );
        }
        let table = Occ { bwt, sampling, alphabet: alphabet.copy(), rows };
        Ok(table)
    }

    /// The number of occurrences of `symbol` among the first `pos` symbols of
    /// the sequence; a `pos` past the end counts the whole sequence.
    pub fn rank(&self, symbol: u8, pos: usize) -> (count: usize)
        ensures
            count == count_eq(self@.bwt, symbol, pos as int),
            count <= self@.bwt.len(),
    {
        proof {
            use_type_invariant(self);
            self.alphabet.lemma_ranks();
        }
        let n: usize = self.bwt.len();
        let end: usize = if pos > n {
            n
        } else {
            pos
        };
        match self.alphabet.rank_of(symbol) {
            None => {
                proof {
                    lemma_count_eq_absent(self.bwt@, symbol, pos as int);
                }
                0
            },
            Some(a) => {
                let i: usize = end / self.sampling;
                proof {
                    lemma_div_is_ordered(end as int, n as int, self.sampling as int);
                    lemma_fundamental_div_mod(end as int, self.sampling as int);
                    assert(i * self.sampling == self.sampling * i) by (nonlinear_arith);
                    assert(row_counts(
                        self.rows@[i as int]@,
                        self.bwt@,
                        self.alphabet.ordered(),
                        i * self.sampling,
                    ));
                }
                let start: usize = i * self.sampling;
                let row: &Vec<usize> = &self.rows[i];
                let mut count: usize = row[a];
                let mut j: usize = start;
                while j < end
                    invariant
                        start <= j <= end <= n,
                        n == self.bwt@.len(),
                        count == count_eq(self.bwt@, symbol, j as int),
                    decreases end - j,
                {
                    proof {
                        lemma_count_bound(self.bwt@, symbol, j as int);
                    }
                    if self.bwt[j] == symbol {
                        count += 1;
                    }
                    j += 1;
                }
                proof {
                    lemma_count_bound(self.bwt@, symbol, end as int);
                    if pos > n {
                        lemma_count_past_end(self.bwt@, symbol, pos as int);
                    }
                }
                count
            },
        }
    }

    /// The sequence that the table counts in.
    pub fn bwt(&self) -> (s: &Vec<u8>)
        ensures
            s@ == self@.bwt,
    {
        &self.bwt
    }

    /// The length of the sequence.
    pub fn len(&self) -> (n: usize)
        ensures
            n == self@.bwt.len(),
    {
        self.bwt.len()
    }

    /// The distance between two checkpoints.
    pub fn sampling(&self) -> (k: usize)
        ensures
            k == self@.sampling,
            k >= 1,
    {
        proof {
            use_type_invariant(self);
        }
        self.sampling
    }

    /// The number of stored checkpoints: one for the start and one for every
    /// full interval.
    pub fn checkpoints(&self) -> (c: usize)
        ensures
            c == self@.bwt.len() / self@.sampling + 1,
    {
        proof {
            use_type_invariant(self);
        }
        self.rows.len()
    }
}

} // verus!
