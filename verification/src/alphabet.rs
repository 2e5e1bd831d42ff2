//! Alphabets: finite sets of byte symbols with a dense numbering.

use vstd::prelude::*;

verus! {

/// A set of byte symbols.
///
/// The symbols are kept in ascending order; the position of a symbol in that
/// order is its rank, and per-symbol tables are indexed by rank.
pub struct Alphabet {
    symbols: Vec<u8>,
    ranks: Vec<usize>,
}

impl View for Alphabet {
    type V = Set<u8>;

    closed spec fn view(&self) -> Set<u8> {
        Set::new(|b: u8| self.ranks@[b as int] < self.symbols@.len())
    }
}

impl Alphabet {
    /// The symbols are strictly ascending, and `ranks` maps each byte to its
    /// position among them, or to a value past the end when it is absent.
    #[verifier::type_invariant]
    pub closed spec fn wf(&self) -> bool {
        &&& self.ranks@.len() == 256
        &&& self.symbols@.len() <= 256
        &&& forall|i: int, j: int|
            0 <= i < j < self.symbols@.len() ==> self.symbols@[i] < self.symbols@[j]
        &&& forall|i: int|
            0 <= i < self.symbols@.len() ==> #[trigger] self.ranks@[self.symbols@[i] as int] == i
        &&& forall|b: int|
            0 <= b < 256 && #[trigger] self.ranks@[b] < self.symbols@.len()
                ==> self.symbols@[self.ranks@[b] as int] == b
    }

    /// The symbols in ascending order.
    pub closed spec fn ordered(&self) -> Seq<u8> {
        self.symbols@
    }

    /// The rank of `b`: its position in `ordered()` when it is a member.
    pub closed spec fn rank(&self, b: u8) -> int {
        self.ranks@[b as int] as int
    }

    /// What the ranks and the ascending order have to do with membership.
    pub proof fn lemma_ranks(&self)
        requires
            self.wf(),
        ensures
            self.ordered().len() <= 256,
            forall|b: u8| self@.contains(b) <==> 0 <= #[trigger] self.rank(b) < self.ordered().len(),
            forall|b: u8| self@.contains(b) ==> self.ordered()[#[trigger] self.rank(b)] == b,
            forall|i: int|
                0 <= i < self.ordered().len() ==> self@.contains(#[trigger] self.ordered()[i])
                    && self.rank(self.ordered()[i]) == i,
            forall|i: int, j: int|
                0 <= i < j < self.ordered().len() ==> self.ordered()[i] < self.ordered()[j],
    {
        assert forall|i: int| 0 <= i < self.ordered().len() implies self@.contains(
            #[trigger] self.ordered()[i],
        ) && self.rank(self.ordered()[i]) == i by {
            assert(self.ranks@[self.symbols@[i] as int] == i);
        }
    }

    /// The ascending list holds each member once, so its length is the
    /// number of members.
    pub proof fn lemma_size(&self)
        requires
            self.wf(),
        ensures
            self@.finite(),
            self@.len() == self.ordered().len(),
    {
        self.lemma_ranks();
        let o = self.ordered();
        assert(o.no_duplicates()) by {
            assert forall|i: int, j: int| 0 <= i < o.len() && 0 <= j < o.len() && i != j implies o[i]
                != o[j] by {
                if i < j {
                    assert(o[i] < o[j]);
                } else {
                    assert(o[j] < o[i]);
                }
            }
        }
        o.unique_seq_to_set();
        assert(o.to_set() =~= self@) by {
            assert forall|b: u8| self@.contains(b) implies o.to_set().contains(b) by {
                assert(o[self.rank(b)] == b);
            }
        }
    }

    /// The rank of a member is the number of members below it.
    pub proof fn lemma_rank_counts(&self, b: u8)
        requires
            self.wf(),
            self@.contains(b),
        ensures
            self@.filter(|x: u8| x < b).finite(),
            self.rank(b) == self@.filter(|x: u8| x < b).len(),
    {
        self.lemma_ranks();
        let o = self.ordered();
        let k = self.rank(b);
        let lower = o.take(k);
        assert(lower.no_duplicates()) by {
            assert forall|i: int, j: int|
                0 <= i < lower.len() && 0 <= j < lower.len() && i != j implies lower[i]
                != lower[j] by {
                if i < j {
                    assert(o[i] < o[j]);
                } else {
                    assert(o[j] < o[i]);
                }
            }
        }
        lower.unique_seq_to_set();
        assert(lower.to_set() =~= self@.filter(|x: u8| x < b)) by {
            assert forall|x: u8| self@.contains(x) && x < b implies lower.to_set().contains(
                x,
            ) by {
                let r = self.rank(x);
                assert(o[r] == x);
                if r >= k {
                    if r > k {
                        assert(o[k] < o[r]);
                    }
                }
                assert(lower[r] == x);
            }
            assert forall|x: u8| lower.to_set().contains(x) implies self@.contains(x) && x
                < b by {
                let i = choose|i: int| 0 <= i < lower.len() && lower[i] == x;
                assert(o[i] == x);
                assert(o[i] < o[k]);
            }
        }
    }

    /// The alphabet of exactly the bytes that `member` marks.
    fn from_membership(member: &Vec<bool>) -> (a: Alphabet)
        requires
            member@.len() == 256,
        ensures
            a.wf(),
            forall|b: u8| a@.contains(b) <==> member@[b as int],
    {
        let mut symbols: Vec<u8> = Vec::new();
        let mut ranks: Vec<usize> = Vec::new();
        let mut b: usize = 0;
        while b < 256
            invariant
                b <= 256,
                member@.len() == 256,
                ranks@.len() == b,
                symbols@.len() <= b,
                forall|i: int| 0 <= i < symbols@.len() ==> (#[trigger] symbols@[i] as int) < b,
                forall|i: int, j: int| 0 <= i < j < symbols@.len() ==> symbols@[i] < symbols@[j],
                forall|i: int|
                    0 <= i < symbols@.len() ==> #[trigger] ranks@[symbols@[i] as int] == i,
                forall|c: int|
                    0 <= c < b ==> (member@[c] <==> #[trigger] ranks@[c] < symbols@.len()),
                forall|c: int| 0 <= c < b && !member@[c] ==> #[trigger] ranks@[c] == 256,
                forall|c: int|
                    0 <= c < b && #[trigger] ranks@[c] < symbols@.len() ==> symbols@[ranks@[c] as int]
                        == c,
            decreases 256 - b,
        {
            if member[b] {
                ranks.push(symbols.len());
                symbols.push(b as u8);
            } else {
                ranks.push(256);
            }
            b += 1;
        }
        Alphabet { symbols, ranks }
    }

    /// The alphabet of the symbols that occur in `symbols`; repetitions and
    /// order do not matter.
    pub fn new(symbols: &[u8]) -> (a: Alphabet)
        ensures
            a.wf(),
            forall|b: u8| a@.contains(b) <==> symbols@.contains(b),
    {
        let mut member: Vec<bool> = Vec::new();
        let mut b: usize = 0;
        while b < 256
            invariant
                b <= 256,
                member@.len() == b,
                forall|c: int| 0 <= c < b ==> !#[trigger] member@[c],
            decreases 256 - b,
        {
            member.push(false);
            b += 1;
        }
        let mut i: usize = 0;
        while i < symbols.len()
            invariant
                i <= symbols.len(),
                member@.len() == 256,
                forall|c: u8|
                    #[trigger] member@[c as int] <==> exists|k: int|
                        0 <= k < i && symbols@[k] == c,
            decreases symbols.len() - i,
        {
            let s: u8 = symbols[i];
            member.set(s as usize, true);
            i += 1;
        }
        Self::from_membership(&member)
    }

    /// The alphabet of the four nucleotides of DNA in upper and in lower
    /// case: `ACGTacgt`.
    pub fn dna() -> (a: Alphabet)
        ensures
            a.wf(),
            forall|b: u8|
                a@.contains(b) <==> (b == 65 || b == 67 || b == 71 || b == 84 || b == 97 || b == 99
                    || b == 103 || b == 116),
    {
        let symbols: [u8; 8] = [65, 67, 71, 84, 97, 99, 103, 116];
        let a = Alphabet::new(symbols.as_slice());
        proof {
            let s = symbols@;
            assert(s[0] == 65 && s[1] == 67 && s[2] == 71 && s[3] == 84);
            assert(s[4] == 97 && s[5] == 99 && s[6] == 103 && s[7] == 116);
            assert forall|b: u8|
                (b == 65 || b == 67 || b == 71 || b == 84 || b == 97 || b == 99 || b == 103 || b
                    == 116) implies a@.contains(b) by {
                assert(s.contains(b));
            }
        }
        a
    }

    /// This alphabet with `symbol` added.
    pub fn with_symbol(&self, symbol: u8) -> (a: Alphabet)
        ensures
            a.wf(),
            a@ == self@.insert(symbol),
    {
        proof {
            use_type_invariant(self);
        }
        let mut member: Vec<bool> = Vec::new();
        let mut b: usize = 0;
        while b < 256
            invariant
                b <= 256,
                self.wf(),
                member@.len() == b,
                forall|c: int|
                    0 <= c < b ==> (#[trigger] member@[c] <==> self.ranks@[c] < self.symbols@.len()),
            decreases 256 - b,
        {
            member.push(self.ranks[b] < self.symbols.len());
            b += 1;
        }
        member.set(symbol as usize, true);
        let a = Self::from_membership(&member);
        assert(a@ =~= self@.insert(symbol));
        a
    }

    /// An independent copy with the same symbols and ranks.
    pub fn copy(&self) -> (a: Alphabet)
        ensures
            a.wf(),
            a@ == self@,
            a.ordered() == self.ordered(),
            forall|b: u8| a.rank(b) == self.rank(b),
    {
        proof {
            use_type_invariant(self);
        }
        let mut symbols: Vec<u8> = Vec::new();
        let mut i: usize = 0;
        while i < self.symbols.len()
            invariant
                i <= self.symbols@.len(),
                symbols@ == self.symbols@.take(i as int),
            decreases self.symbols@.len() - i,
        {
            symbols.push(self.symbols[i]);
            assert(symbols@ =~= self.symbols@.take(i + 1));
            i += 1;
        }
        let mut ranks: Vec<usize> = Vec::new();
        let mut b: usize = 0;
        while b < 256
            invariant
                b <= 256,
                self.ranks@.len() == 256,
                ranks@ == self.ranks@.take(b as int),
            decreases 256 - b,
        {
            ranks.push(self.ranks[b]);
            assert(ranks@ =~= self.ranks@.take(b + 1));
            b += 1;
        }
        assert(symbols@ =~= self.symbols@);
        assert(ranks@ =~= self.ranks@);
        let a = Alphabet { symbols, ranks };
        assert(a@ =~= self@);
        a
    }

    /// Whether `symbol` belongs to the alphabet.
    pub fn contains(&self, symbol: u8) -> (r: bool)
        ensures
            r == self@.contains(symbol),
    {
        proof {
            use_type_invariant(self);
        }
        self.ranks[symbol as usize] < self.symbols.len()
    }

    /// The number of symbols.
    pub fn len(&self) -> (n: usize)
        ensures
            n == self@.len(),
            n == self.ordered().len(),
            n <= 256,
    {
        proof {
            use_type_invariant(self);
            self.lemma_size();
        }
        self.symbols.len()
    }

    /// Whether the alphabet has no symbol.
    pub fn is_empty(&self) -> (r: bool)
        ensures
            r == (self@.len() == 0),
            r == (self.ordered().len() == 0),
    {
        proof {
            use_type_invariant(self);
            self.lemma_size();
        }
        self.symbols.len() == 0
    }

    /// The rank of `symbol`, if it is a member: the number of members below
    /// it, which is its position in the ascending order.
    pub fn rank_of(&self, symbol: u8) -> (r: Option<usize>)
        ensures
            r is Some <==> self@.contains(symbol),
            r is Some ==> r->Some_0 == self@.filter(|x: u8| x < symbol).len(),
            r is Some ==> r->Some_0 == self.rank(symbol),
    {
        proof {
            use_type_invariant(self);
        }
        let r: usize = self.ranks[symbol as usize];
        if r < self.symbols.len() {
            proof {
                self.lemma_rank_counts(symbol);
            }
            Some(r)
        } else {
            None
        }
    }

    /// The smallest symbol, if there is any.
    pub fn min_symbol(&self) -> (r: Option<u8>)
        ensures
            r is None <==> self@.len() == 0,
            r is Some ==> self@.contains(r->Some_0) && forall|x: u8|
                self@.contains(x) ==> r->Some_0 <= x,
            r is None <==> self.ordered().len() == 0,
            r is Some ==> r->Some_0 == self.ordered()[0],
    {
        proof {
            use_type_invariant(self);
            self.lemma_size();
            self.lemma_ranks();
            if self.symbols@.len() > 0 {
                assert forall|x: u8| self@.contains(x) implies self.ordered()[0] <= x by {
                    let k = self.rank(x);
                    assert(self.ordered()[k] == x);
                    if k > 0 {
                        assert(self.ordered()[0] < self.ordered()[k]);
                    }
                }
            }
        }
        if self.symbols.len() == 0 {
            None
        } else {
            Some(self.symbols[0])
        }
    }
}

} // verus!
