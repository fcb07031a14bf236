//! A bag of terms: how often each term was added, with the distinct terms
//! kept in the order in which they first came.

use vstd::hash_map::StringHashMap;
use vstd::multiset::Multiset;
use vstd::prelude::*;

verus! {

/// A term and how often it occurs.
pub struct TermCount {
    pub term: String,
    pub count: u64,
}

/// A counting bag of terms.
///
/// Its view is the multiset of the terms added so far. The distinct terms
/// are listed in the order of their first occurrence; a hash map from each
/// term to its place in that list finds a term in constant time.
pub struct Tally {
    entries: Vec<TermCount>,
    positions: StringHashMap<usize>,
    bag: Ghost<Multiset<Seq<char>>>,
}

impl View for Tally {
    type V = Multiset<Seq<char>>;

    closed spec fn view(&self) -> Multiset<Seq<char>> {
        self.bag@
    }
}

impl Tally {
    /// The distinct terms, in the order in which they were first added.
    pub closed spec fn terms(&self) -> Seq<Seq<char>> {
        self.entries@.map_values(|e: TermCount| e.term@)
    }

    /// The representation is consistent: every listed term is found at its
    /// place, is counted at least once, and has the count that the bag gives
    /// it; and every term of the bag is listed.
    pub closed spec fn wf(&self) -> bool {
        &&& forall|i: int|
            0 <= i < self.entries.len() ==> {
                &&& self.positions@.contains_key(#[trigger] self.entries[i].term@)
                &&& self.positions@[self.entries[i].term@] == i
                &&& self.entries[i].count >= 1
                &&& self.bag@.count(self.entries[i].term@) == self.entries[i].count
            }
        &&& forall|w: Seq<char>| #[trigger]
            self.positions@.contains_key(w) ==> {
                &&& self.positions@[w] < self.entries.len()
                &&& self.entries[self.positions@[w] as int].term@ == w
            }
        &&& forall|w: Seq<char>| self.bag@.count(w) > 0 ==> #[trigger] self.positions@.contains_key(w)
    }

    /// The listed terms are exactly the terms that the bag holds, each listed
    /// once.
    pub proof fn lemma_terms(&self)
        requires
            self.wf(),
        ensures
            self.terms().no_duplicates(),
            forall|w: Seq<char>| self.terms().contains(w) <==> self@.count(w) > 0,
    {
        let terms = self.terms();
        assert forall|i: int, j: int| 0 <= i < terms.len() && 0 <= j < terms.len() && i != j implies terms[i] != terms[j] by {
            assert(self.entries[i].term@ == terms[i]);
            assert(self.entries[j].term@ == terms[j]);
        }
        assert forall|w: Seq<char>| terms.contains(w) <==> self@.count(w) > 0 by {
            if terms.contains(w) {
                let i = choose|i: int| 0 <= i < terms.len() && terms[i] == w;
                assert(self.entries[i].term@ == w);
            }
            if self@.count(w) > 0 {
                assert(self.positions@.contains_key(w));
                let p = self.positions@[w] as int;
                assert(terms[p] == w);
            }
        }
    }

    /// An empty tally.
    pub fn new() -> (r: Tally)
        ensures
            r.wf(),
            r@ == Multiset::<Seq<char>>::empty(),
            r.terms() == Seq::<Seq<char>>::empty(),
    {
        let r = Tally {
            entries: Vec::new(),
            positions: StringHashMap::new(),
            bag: Ghost(Multiset::empty()),
        };
        assert(r.terms() == Seq::<Seq<char>>::empty());
        r
    }

    /// Counts one more occurrence of `term`. A term that is new to the tally
    /// goes to the end of the list of distinct terms.
    pub fn add(&mut self, term: String)
        requires
            old(self).wf(),
            old(self)@.count(term@) < u64::MAX,
        ensures
            final(self).wf(),
            final(self)@ == old(self)@.insert(term@),
            final(self).terms() == if old(self)@.count(term@) > 0 {
                old(self).terms()
            } else {
                old(self).terms().push(term@)
            },
    {
        broadcast use vstd::multiset::group_multiset_axioms;

        let ghost word = term@;
        let ghost before = *self;
        let found = match self.positions.get(term.as_str()) {
            Some(p) => Some(*p),
            None => None,
        };
        match found {
            Some(p) => {
                let count = self.entries[p].count;
                assert(before.entries[p as int].term@ == word);
                self.entries.set(p, TermCount { term, count: count + 1 });
                self.bag = Ghost(self.bag@.insert(word));
                proof {
                    assert(self.terms() == before.terms());
                    assert forall|i: int| 0 <= i < self.entries.len() implies {
                        &&& self.positions@.contains_key(#[trigger] self.entries[i].term@)
                        &&& self.positions@[self.entries[i].term@] == i
                        &&& self.entries[i].count >= 1
                        &&& self.bag@.count(self.entries[i].term@) == self.entries[i].count
                    } by {
                        assert(before.entries[i].term@ == self.entries[i].term@);
                    }
                }
            },
            None => {
                let at = self.entries.len();
                self.positions.insert(term.clone(), at);
                self.entries.push(TermCount { term, count: 1 });
                self.bag = Ghost(self.bag@.insert(word));
                proof {
                    assert(before.bag@.count(word) == 0);
                    assert(self.terms() == before.terms().push(word));
                    assert forall|i: int| 0 <= i < self.entries.len() implies {
                        &&& self.positions@.contains_key(#[trigger] self.entries[i].term@)
                        &&& self.positions@[self.entries[i].term@] == i
                        &&& self.entries[i].count >= 1
                        &&& self.bag@.count(self.entries[i].term@) == self.entries[i].count
                    } by {
                        if i < at {
                            assert(before.entries[i].term@ == self.entries[i].term@);
                        }
                    }
                    assert forall|w: Seq<char>| #[trigger]
                        self.positions@.contains_key(w) implies {
                        &&& self.positions@[w] < self.entries.len()
                        &&& self.entries[self.positions@[w] as int].term@ == w
                    } by {
                        if w != word {
                            assert(before.positions@.contains_key(w));
                        }
                    }
                }
            },
        }
    }

    /// How often `term` was added; 0 for a term that never was.
    pub fn count(&self, term: &str) -> (n: u64)
        requires
            self.wf(),
        ensures
            n == self@.count(term@),
    {
        match self.positions.get(term) {
            Some(p) => self.entries[*p].count,
            None => 0,
        }
    }

    /// The number of distinct terms.
    pub fn len(&self) -> (n: usize)
        ensures
            n == self.terms().len(),
    {
        self.entries.len()
    }

    /// The distinct term at place `i`, with its count.
    pub fn entry(&self, i: usize) -> (e: &TermCount)
        requires
            self.wf(),
            i < self.terms().len(),
        ensures
            e.term@ == self.terms()[i as int],
            e.count == self@.count(e.term@),
            e.count >= 1,
    {
        &self.entries[i]
    }
}

} // verus!
