//! The FM-index of a text and backward search over it.

use vstd::prelude::*;
use crate::alphabet::Alphabet;
use crate::bwt::{bwt, bwt_of, offsets_in_range};
use crate::counts::{
    count_eq, count_less, over_alphabet, lemma_count_eq_monotone, lemma_count_eq_span,
    lemma_less_plus_rank,
};
use crate::error::IndexError;
use crate::interval::{BackwardSearchResult, Interval, SearchOutcome};
use crate::less::{less_table, Less};
use crate::lf::lemma_lf;
use crate::matching::{
    has_foreign_symbol, lemma_complete_iff, lemma_search_meaning, occurs, occurs_at, tail,
};
use crate::occ::Occ;
use crate::rows::lemma_sentinel_row;
use crate::text::{is_permutation, is_suffix_array, suffix_array};

verus! {

/// A text can be indexed over an alphabet when it is non-empty, every symbol
/// but the last belongs to the alphabet, and the last, the sentinel, is
/// strictly smaller than every symbol of the alphabet.
pub open spec fn indexable(t: Seq<u8>, alphabet: Set<u8>) -> bool {
    &&& t.len() > 0
    &&& forall|i: int| 0 <= i < t.len() - 1 ==> alphabet.contains(#[trigger] t[i])
    &&& forall|a: u8| alphabet.contains(a) ==> t[t.len() - 1] < a
}

/// One transition of the search by the rank tables: the interval of the rows
/// whose suffix starts with `c` followed by what the rows of `iv` start with,
/// the text being read as a cycle.
pub open spec fn extend(bwt: Seq<u8>, iv: (int, int), c: u8) -> (int, int) {
    (
        (count_less(bwt, c, bwt.len() as int) + count_eq(bwt, c, iv.0)) as int,
        (count_less(bwt, c, bwt.len() as int) + count_eq(bwt, c, iv.1)) as int,
    )
}

/// The interval after the last `m` symbols of `pattern` were consumed, the
/// last symbol first, starting from all rows.
///
/// The sentinel ends the text and stands nowhere else, so it can match only
/// as the last symbol of the pattern. Consumed first it is looked up in the
/// rank tables like any other symbol. Consumed after other symbols it
/// empties the interval: there the rank tables alone would report the
/// match that runs over the end of the text into its beginning.
pub open spec fn narrowed(bwt: Seq<u8>, sentinel: u8, pattern: Seq<u8>, m: nat) -> (int, int)
    decreases m,
{
    if m == 0 {
        (0, bwt.len() as int)
    } else {
        let previous = narrowed(bwt, sentinel, pattern, (m - 1) as nat);
        let c = pattern[pattern.len() - m];
        if c == sentinel && m > 1 {
            (previous.0, previous.0)
        } else {
            extend(bwt, previous, c)
        }
    }
}

/// A symbol that a search can look up: a member of the alphabet, or the
/// sentinel.
pub open spec fn searchable(alphabet: Set<u8>, sentinel: u8, c: u8) -> bool {
    alphabet.contains(c) || c == sentinel
}

/// The search as a state machine, in the state where the last `m` symbols of
/// the pattern matched. With no symbol left the match is complete. A next
/// symbol that is neither in the alphabet nor the sentinel ends the search
/// with nothing. A next symbol that empties the interval ends it with the
/// last non-empty interval and `m`, or with nothing when `m` is zero.
pub open spec fn run(
    bwt: Seq<u8>,
    alphabet: Set<u8>,
    sentinel: u8,
    pattern: Seq<u8>,
    m: nat,
) -> SearchOutcome
    decreases pattern.len() - m,
{
    let here = narrowed(bwt, sentinel, pattern, m);
    if m >= pattern.len() {
        SearchOutcome::Complete { lower: here.0, upper: here.1 }
    } else {
        let next = narrowed(bwt, sentinel, pattern, m + 1);
        if !searchable(alphabet, sentinel, pattern[pattern.len() - 1 - m]) {
            SearchOutcome::Absent
        } else if next.0 >= next.1 {
            if m > 0 {
                SearchOutcome::Partial { lower: here.0, upper: here.1, matched: m }
            } else {
                SearchOutcome::Absent
            }
        } else {
            run(bwt, alphabet, sentinel, pattern, m + 1)
        }
    }
}

/// What a backward search for `pattern` returns. The empty pattern matches
/// nothing.
pub open spec fn search_outcome(
    bwt: Seq<u8>,
    alphabet: Set<u8>,
    sentinel: u8,
    pattern: Seq<u8>,
) -> SearchOutcome {
    if pattern.len() == 0 {
        SearchOutcome::Absent
    } else {
        run(bwt, alphabet, sentinel, pattern, 0)
    }
}

/// What an FM-index stands for: the text, its suffix array, the alphabet it
/// was declared over (the sentinel, which the tables hold as well, is no
/// member of it), and the sampling interval of its occurrence table.
pub struct FMIndexView {
    pub text: Seq<u8>,
    pub suffix_array: Seq<usize>,
    pub alphabet: Set<u8>,
    pub sampling: nat,
}

impl FMIndexView {
    /// The transformed text that the index searches in.
    pub open spec fn bwt(self) -> Seq<u8> {
        bwt_of(self.text, self.suffix_array)
    }

    /// The sentinel: the last symbol of the text.
    pub open spec fn sentinel(self) -> u8 {
        self.text[self.text.len() - 1]
    }

    /// What a backward search for `pattern` returns over this index.
    pub open spec fn outcome(self, pattern: Seq<u8>) -> SearchOutcome {
        search_outcome(self.bwt(), self.alphabet, self.sentinel(), pattern)
    }

    /// The text can be indexed over the alphabet, and the suffix array is
    /// that of the text.
    pub open spec fn wf(self) -> bool {
        &&& indexable(self.text, self.alphabet)
        &&& is_suffix_array(self.text, self.suffix_array)
        &&& self.sampling >= 1
    }
}

/// The transformed text of a text with its less table and occurrence table.
pub struct FMIndex {
    less: Less,
    occ: Occ,
    sentinel: u8,
    text: Ghost<Seq<u8>>,
    suffix_array: Ghost<Seq<usize>>,
}

impl View for FMIndex {
    type V = FMIndexView;

    closed spec fn view(&self) -> FMIndexView {
        FMIndexView {
            text: self.text@,
            suffix_array: self.suffix_array@,
            alphabet: self.occ@.alphabet.remove(self.sentinel),
            sampling: self.occ@.sampling,
        }
    }
}

/// The transform of an indexable text is over the alphabet with the sentinel
/// added.
proof fn lemma_bwt_over_alphabet(t: Seq<u8>, sa: Seq<usize>, alphabet: Set<u8>)
    requires
        indexable(t, alphabet),
        sa.len() == t.len(),
        offsets_in_range(sa, t.len()),
    ensures
        over_alphabet(bwt_of(t, sa), alphabet.insert(t[t.len() - 1])),
{
    let b = bwt_of(t, sa);
    assert forall|r: int| 0 <= r < b.len() implies alphabet.insert(t[t.len() - 1]).contains(
        #[trigger] b[r],
    ) by {
        if sa[r] != 0 {
            assert(alphabet.contains(t[sa[r] - 1]));
        }
    }
}

/// The intervals of a search stay inside the rows and in order.
pub proof fn lemma_narrowed_bounds(bwt: Seq<u8>, sentinel: u8, pattern: Seq<u8>, m: nat)
    ensures
        0 <= narrowed(bwt, sentinel, pattern, m).0 <= narrowed(bwt, sentinel, pattern, m).1
            <= bwt.len(),
    decreases m,
{
    if m > 0 {
        let prev = narrowed(bwt, sentinel, pattern, (m - 1) as nat);
        let c = pattern[pattern.len() - m];
        lemma_narrowed_bounds(bwt, sentinel, pattern, (m - 1) as nat);
        lemma_count_eq_monotone(bwt, c, prev.0, prev.1);
        lemma_less_plus_rank(bwt, c, prev.1);
    }
}

/// A transition never widens the interval: the search narrows it
/// monotonically.
pub proof fn lemma_narrowed_shrinks(bwt: Seq<u8>, sentinel: u8, pattern: Seq<u8>, m: nat)
    ensures
        narrowed(bwt, sentinel, pattern, m + 1).1 - narrowed(bwt, sentinel, pattern, m + 1).0
            <= narrowed(bwt, sentinel, pattern, m).1 - narrowed(bwt, sentinel, pattern, m).0,
{
    let prev = narrowed(bwt, sentinel, pattern, m);
    let c = pattern[pattern.len() - (m + 1)];
    lemma_narrowed_bounds(bwt, sentinel, pattern, m);
    lemma_count_eq_span(bwt, c, prev.0, prev.1);
    assert(narrowed(bwt, sentinel, pattern, m + 1) == if c == sentinel && m + 1 > 1 {
        (prev.0, prev.0)
    } else {
        extend(bwt, prev, c)
    });
}

impl FMIndex {
    /// The tables belong to the transform of the text, which is indexable
    /// over the alphabet that the tables were built with, less the sentinel.
    #[verifier::type_invariant]
    pub closed spec fn wf(&self) -> bool {
        &&& self@.wf()
        &&& self.sentinel == self.text@[self.text@.len() - 1]
        &&& self.occ@.alphabet.contains(self.sentinel)
        &&& self.occ@.bwt == self@.bwt()
        &&& self.less@ == less_table(self.occ@.bwt, self.occ@.alphabet)
    }

    /// The length of the indexed text, sentinel included.
    pub fn len(&self) -> (n: usize)
        ensures
            n == self@.text.len(),
            n > 0,
    {
        proof {
            use_type_invariant(self);
        }
        self.occ.len()
    }

    /// The sentinel of the indexed text.
    pub fn sentinel(&self) -> (s: u8)
        ensures
            self@.text.len() > 0,
            s == self@.text[self@.text.len() - 1],
    {
        proof {
            use_type_invariant(self);
        }
        self.sentinel
    }

    /// The transformed text.
    pub fn bwt(&self) -> (b: &Vec<u8>)
        ensures
            b@ == self@.bwt(),
    {
        proof {
            use_type_invariant(self);
        }
        self.occ.bwt()
    }

    /// Rebuilds the indexed text from the transformed text alone: starting
    /// in the row of the sentinel, the last-to-first mapping visits the rows
    /// in the order of decreasing text offset, and each row holds the symbol
    /// before its offset.
    pub fn reconstruct_text(&self) -> (text: Vec<u8>)
        ensures
            text@ == self@.text,
    {
        proof {
            use_type_invariant(self);
            lemma_sentinel_row(self@.text, self@.suffix_array);
            lemma_bwt_over_alphabet(self@.text, self@.suffix_array, self@.alphabet);
            assert(self@.alphabet.insert(self.sentinel) =~= self.occ@.alphabet);
        }
        let n: usize = self.occ.len();
        let ghost t = self@.text;
        let ghost sa = self@.suffix_array;
        let ghost b = self@.bwt();
        let mut out: Vec<u8> = Vec::with_capacity(n);
        let mut k: usize = 0;
        while k < n
            invariant
                k <= n,
                out@.len() == k,
                forall|q: int| 0 <= q < k ==> #[trigger] out@[q] == self.sentinel,
            decreases n - k,
        {
            out.push(self.sentinel);
            k += 1;
        }
        let mut i: usize = n - 1;
        let mut r: usize = 0;
        while i > 0
            invariant
                self.wf(),
                t == self@.text,
                sa == self@.suffix_array,
                b == self@.bwt(),
                over_alphabet(b, self.occ@.alphabet),
                n == t.len(),
                out@.len() == n,
                i < n,
                r < n,
                sa[r as int] == i,
                forall|q: int| i <= q < n ==> #[trigger] out@[q] == t[q],
            decreases i,
        {
            let c: u8 = self.occ.bwt()[r];
            let below: usize = self.less.get(c).unwrap();
            proof {
                lemma_lf(t, sa, r as int);
                lemma_less_plus_rank(b, c, r as int);
            }
            out.set(i - 1, c);
            r = below + self.occ.rank(c, r);
            i -= 1;
        }
        assert(out@ =~= t);
        out
    }

    /// Searches for `pattern`, consuming it from its last symbol to its first
    /// and narrowing the interval of matching rows by two rank queries per
    /// symbol.
    ///
    /// The result is that of the state machine `search_outcome`. In terms of
    /// the text, sentinel included: the match is complete exactly when the
    /// pattern is not empty and stands somewhere in the text; the rows of a
    /// returned interval are the rows whose suffix begins with the matched
    /// part of the pattern; and the part that a partial match reports cannot
    /// be extended by one symbol anywhere in the text. A pattern that would
    /// match only by running over the end of the text into its beginning
    /// does not stand in the text, and is not found.
    #[verifier::loop_isolation(false)]
    pub fn backward_search(&self, pattern: &[u8]) -> (res: BackwardSearchResult)
        ensures
            self@.wf(),
            res@ == self@.outcome(pattern@),
            pattern@.len() == 0 ==> res is Absent,
            res is Complete <==> pattern@.len() > 0 && occurs(self@.text, pattern@),
            match res@ {
                SearchOutcome::Complete { lower, upper } => {
                    &&& 0 <= lower < upper <= self@.text.len()
                    &&& forall|r: int|
                        0 <= r < self@.text.len() ==> (lower <= r < upper <==> occurs_at(
                            self@.text,
                            pattern@,
                            #[trigger] self@.suffix_array[r] as int,
                        ))
                },
                SearchOutcome::Partial { lower, upper, matched } => {
                    &&& 0 < matched < pattern@.len()
                    &&& 0 <= lower < upper <= self@.text.len()
                    &&& forall|r: int|
                        0 <= r < self@.text.len() ==> (lower <= r < upper <==> occurs_at(
                            self@.text,
                            tail(pattern@, matched),
                            #[trigger] self@.suffix_array[r] as int,
                        ))
                    &&& !occurs(self@.text, tail(pattern@, matched + 1))
                },
                SearchOutcome::Absent => {
                    ||| pattern@.len() == 0
                    ||| !occurs(self@.text, tail(pattern@, 1))
                    ||| has_foreign_symbol(self@.alphabet, self@.sentinel(), pattern@)
                },
            },
    {
        proof {
            use_type_invariant(self);
            lemma_search_meaning(self@, pattern@);
            lemma_complete_iff(self@, pattern@);
        }
        let n: usize = self.occ.len();
        let m: usize = pattern.len();
        if m == 0 {
            return BackwardSearchResult::Absent;
        }
        let ghost b = self@.bwt();
        let ghost alphabet = self@.alphabet;
        let ghost s = self@.sentinel();
        let mut lower: usize = 0;
        let mut upper: usize = n;
        let mut matched: usize = 0;
        while matched < m
            invariant
                self.wf(),
                b == self@.bwt(),
                alphabet == self@.alphabet,
                s == self@.sentinel(),
                s == self.sentinel,
                n == b.len(),
                m == pattern@.len(),
                matched <= m,
                lower <= upper <= n,
                (lower as int, upper as int) == narrowed(b, s, pattern@, matched as nat),
                run(b, alphabet, s, pattern@, 0) == run(b, alphabet, s, pattern@, matched as nat),
            decreases m - matched,
        {
            let c: u8 = pattern[m - 1 - matched];
            if c == self.sentinel && matched > 0 {
                return BackwardSearchResult::Partial(Interval::span(lower, upper), matched);
            }
            let below: usize = match self.less.get(c) {
                None => {
                    return BackwardSearchResult::Absent;
                },
                Some(x) => x,
            };
            proof {
                lemma_less_plus_rank(b, c, lower as int);
                lemma_less_plus_rank(b, c, upper as int);
                lemma_count_eq_monotone(b, c, lower as int, upper as int);
                assert(narrowed(b, s, pattern@, (matched + 1) as nat) == extend(
                    b,
                    narrowed(b, s, pattern@, matched as nat),
                    c,
                ));
            }
            let new_lower: usize = below + self.occ.rank(c, lower);
            let new_upper: usize = below + self.occ.rank(c, upper);
            if new_lower >= new_upper {
                if matched > 0 {
                    return BackwardSearchResult::Partial(Interval::span(lower, upper), matched);
                } else {
                    return BackwardSearchResult::Absent;
                }
            }
            lower = new_lower;
            upper = new_upper;
            matched += 1;
        }
        BackwardSearchResult::Complete(Interval::span(lower, upper))
    }
}

/// Builds the index of `text` over `alphabet`, with an occurrence table that
/// keeps a checkpoint every `sampling` rows, and returns it with the suffix
/// array of the text.
///
/// The last symbol of the text is its sentinel. Construction fails with
/// `InvalidInput`, and builds nothing, exactly when the text is empty, a
/// symbol before the sentinel is outside the alphabet, the sentinel is not
/// strictly smaller than every symbol of the alphabet, or `sampling` is zero.
pub fn build_index(text: &[u8], alphabet: &Alphabet, sampling: usize) -> (res: Result<
    (FMIndex, Vec<usize>),
    IndexError,
>)
    ensures
        indexable(text@, alphabet@) && sampling >= 1 ==> res is Ok && res->Ok_0.0@ == (FMIndexView {
            text: text@,
            suffix_array: res->Ok_0.1@,
            alphabet: alphabet@,
            sampling: sampling as nat,
        }) && is_suffix_array(text@, res->Ok_0.1@) && is_permutation(res->Ok_0.1@),
        !(indexable(text@, alphabet@) && sampling >= 1) ==> res is Err && res->Err_0
            == IndexError::InvalidInput,
{
    proof {
        use_type_invariant(alphabet);
        alphabet.lemma_ranks();
    }
    let n: usize = text.len();
    if n == 0 || sampling == 0 {
        return Err(IndexError::InvalidInput);
    }
    let sentinel: u8 = text[n - 1];
    match alphabet.min_symbol() {
        None => {
            assert forall|a: u8| alphabet@.contains(a) implies sentinel < a by {
                assert(0 <= alphabet.rank(a) < alphabet.ordered().len());
            }
        },
        Some(least) => {
            if least <= sentinel {
                assert(alphabet@.contains(alphabet.ordered()[0]));
                return Err(IndexError::InvalidInput);
            }
            assert forall|a: u8| alphabet@.contains(a) implies sentinel < a by {
                let r = alphabet.rank(a);
                assert(alphabet.ordered()[r] == a);
                if r > 0 {
                    assert(alphabet.ordered()[0] < alphabet.ordered()[r]);
                }
            }
        },
    }
    let mut i: usize = 0;
    while i < n - 1
        invariant
            n == text@.len(),
            n > 0,
            i <= n - 1,
            forall|k: int| 0 <= k < i ==> alphabet@.contains(#[trigger] text@[k]),
        decreases n - i,
    {
        if !alphabet.contains(text[i]) {
            return Err(IndexError::InvalidInput);
        }
        i += 1;
    }
    assert(indexable(text@, alphabet@));
    let sa: Vec<usize> = match suffix_array(text) {
        Ok(sa) => sa,
        Err(e) => {
            return Err(e);
        },
    };
    let transformed: Vec<u8> = match bwt(text, sa.as_slice()) {
        Ok(b) => b,
        Err(e) => {
            return Err(e);
        },
    };
    let extended: Alphabet = alphabet.with_symbol(sentinel);
    proof {
        lemma_bwt_over_alphabet(text@, sa@, alphabet@);
    }
    let less: Less = match Less::new(transformed.as_slice(), &extended) {
        Ok(t) => t,
        Err(e) => {
            return Err(e);
        },
    };
    let occ: Occ = match Occ::new(transformed, sampling, &extended) {
        Ok(t) => t,
        Err(e) => {
            return Err(e);
        },
    };
    let index = FMIndex { less, occ, sentinel, text: Ghost(text@), suffix_array: Ghost(sa@) };
    assert(index@.alphabet =~= alphabet@);
    Ok((index, sa))
}

} // verus!
