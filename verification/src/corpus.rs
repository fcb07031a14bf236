//! Documents as bags of normalised words, and the document frequencies of a
//! corpus.

use crate::tally::{Tally, TermCount};
use crate::text::{normalized_words, split_normalized};
use vstd::multiset::Multiset;
use vstd::prelude::*;

verus! {

/// A quotient of two counts, kept exact: `numer / denom`.
#[derive(Clone, Copy, Debug, PartialEq, Eq)]
pub struct Fraction {
    pub numer: u64,
    pub denom: u64,
}

/// One document of the corpus: its identifier and the bag of its words.
pub struct Document {
    id: String,
    words: Tally,
    total: u64,
}

impl Document {
    /// The document's identifier.
    pub closed spec fn name(&self) -> Seq<char> {
        self.id@
    }

    /// The bag of the document's normalised words.
    pub closed spec fn bag(&self) -> Multiset<Seq<char>> {
        self.words@
    }

    /// The distinct words, in the order of their first occurrence.
    pub closed spec fn terms(&self) -> Seq<Seq<char>> {
        self.words.terms()
    }

    /// The tally is consistent and the stored total is the size of the bag.
    pub closed spec fn wf(&self) -> bool {
        &&& self.words.wf()
        &&& self.total == self.words@.len()
    }

    /// The distinct words are exactly the words of the bag, each listed once.
    pub proof fn lemma_terms(&self)
        requires
            self.wf(),
        ensures
            self.terms().no_duplicates(),
            forall|w: Seq<char>| self.terms().contains(w) <==> self.bag().count(w) > 0,
    {
        self.words.lemma_terms();
    }

    /// Reads a document: splits the text at whitespace, normalises each word
    /// and counts the results.
    pub fn from_text(id: String, text: &str) -> (d: Document)
        ensures
            d.wf(),
            d.name() == id@,
            d.bag() == normalized_words(text@).to_multiset(),
    {
        broadcast use vstd::multiset::group_multiset_axioms;

        let tokens = split_normalized(text);
        let mut words = Tally::new();
        let mut i: usize = 0;
        proof {
            let none = tokens.deep_view().take(0);
            none.to_multiset_ensures();
            vstd::multiset::lemma_multiset_empty_len(none.to_multiset());
        }
        while i < tokens.len()
            invariant
                i <= tokens.len(),
                words.wf(),
                words@ == tokens.deep_view().take(i as int).to_multiset(),
            decreases tokens.len() - i,
        {
            let word = tokens[i].clone();
            proof {
                let sofar = tokens.deep_view().take(i as int);
                sofar.to_multiset_ensures();
                assert(tokens.deep_view()[i as int] == word@);
                assert(tokens.deep_view().take(i + 1) == sofar.push(word@));
            }
            words.add(word);
            i += 1;
        }
        proof {
            assert(tokens.deep_view().take(i as int) == tokens.deep_view());
            tokens.deep_view().to_multiset_ensures();
        }
        Document { id, words, total: tokens.len() as u64 }
    }

    /// The document's identifier.
    pub fn id(&self) -> (r: &String)
        ensures
            r@ == self.name(),
    {
        &self.id
    }

    /// The number of words in the document, repetitions counted.
    pub fn total(&self) -> (n: u64)
        requires
            self.wf(),
        ensures
            n == self.bag().len(),
    {
        self.total
    }

    /// How often `term` occurs in the document.
    pub fn count(&self, term: &str) -> (n: u64)
        requires
            self.wf(),
        ensures
            n == self.bag().count(term@),
    {
        self.words.count(term)
    }

    /// The number of distinct words.
    pub fn distinct(&self) -> (n: usize)
        ensures
            n == self.terms().len(),
    {
        self.words.len()
    }

    /// The distinct word at place `i`, with its count.
    pub fn entry(&self, i: usize) -> (e: &TermCount)
        requires
            self.wf(),
            i < self.terms().len(),
        ensures
            e.term@ == self.terms()[i as int],
            e.count == self.bag().count(e.term@),
            e.count >= 1,
    {
        self.words.entry(i)
    }

    /// The term frequency of `term`: its count over the number of words in the
    /// document. A document without words has no term frequencies: the result
    /// is `None` exactly then, so that nothing is ever divided by zero.
    pub fn term_frequency(&self, term: &str) -> (r: Option<Fraction>)
        requires
            self.wf(),
        ensures
            r is None <==> self.bag().len() == 0,
            r matches Some(f) ==> f.numer == self.bag().count(term@) && f.denom
                == self.bag().len() && f.numer <= f.denom,
    {
        broadcast use vstd::multiset::group_multiset_axioms;

        if self.total == 0 {
            None
        } else {
            Some(Fraction { numer: self.words.count(term), denom: self.total })
        }
    }
}

/// The bags of a sequence of documents.
pub open spec fn bags(docs: Seq<Document>) -> Seq<Multiset<Seq<char>>> {
    docs.map_values(|d: Document| d.bag())
}

/// All documents of the sequence are well formed.
pub open spec fn all_wf(docs: Seq<Document>) -> bool {
    forall|i: int| 0 <= i < docs.len() ==> (#[trigger] docs[i]).wf()
}

/// The number of documents that hold `term` at least once.
pub open spec fn document_frequency(docs: Seq<Multiset<Seq<char>>>, term: Seq<char>) -> nat {
    docs.filter(|d: Multiset<Seq<char>>| d.count(term) > 0).len()
}

/// Adding a document raises the frequency of the terms it holds by one and
/// leaves the others.
pub proof fn lemma_document_frequency_push(
    docs: Seq<Multiset<Seq<char>>>,
    d: Multiset<Seq<char>>,
    term: Seq<char>,
)
    ensures
        document_frequency(docs.push(d), term) == document_frequency(docs, term) + if d.count(term)
            > 0 {
            1nat
        } else {
            0nat
        },
        document_frequency(docs, term) <= docs.len(),
{
    reveal(Seq::filter);
    assert(docs.push(d).drop_last() == docs);
    docs.lemma_filter_len(|d: Multiset<Seq<char>>| d.count(term) > 0);
}

/// A term that every document holds has a document frequency equal to the
/// number of documents: its smoothed ratio is one, and its weight, the
/// logarithm of one plus one, is exactly one.
pub proof fn lemma_frequency_of_ubiquitous_term(docs: Seq<Multiset<Seq<char>>>, term: Seq<char>)
    requires
        forall|i: int| 0 <= i < docs.len() ==> (#[trigger] docs[i]).count(term) > 0,
    ensures
        document_frequency(docs, term) == docs.len(),
        document_frequency(docs, term) + 1 == docs.len() + 1,
    decreases docs.len(),
{
    reveal(Seq::filter);
    if docs.len() > 0 {
        lemma_frequency_of_ubiquitous_term(docs.drop_last(), term);
        lemma_document_frequency_push(docs.drop_last(), docs.last(), term);
        assert(docs.drop_last().push(docs.last()) == docs);
    }
}

/// A term that no document holds has document frequency zero: to look it up
/// is no error, and it has no weight.
pub proof fn lemma_frequency_of_absent_term(docs: Seq<Multiset<Seq<char>>>, term: Seq<char>)
    requires
        forall|i: int| 0 <= i < docs.len() ==> (#[trigger] docs[i]).count(term) == 0,
    ensures
        document_frequency(docs, term) == 0,
    decreases docs.len(),
{
    reveal(Seq::filter);
    if docs.len() > 0 {
        lemma_frequency_of_absent_term(docs.drop_last(), term);
        lemma_document_frequency_push(docs.drop_last(), docs.last(), term);
        assert(docs.drop_last().push(docs.last()) == docs);
    }
}

/// The document frequencies of a corpus: for each term, the number of
/// documents that hold it, and the number of documents in all.
pub struct DocumentFrequencies {
    terms: Tally,
    documents: u64,
}

impl DocumentFrequencies {
    /// The document frequency of `term`; 0 for a term that the corpus lacks.
    pub closed spec fn frequency_of(&self, term: Seq<char>) -> nat {
        self.terms@.count(term)
    }

    /// The number of documents in the corpus.
    pub closed spec fn size(&self) -> nat {
        self.documents as nat
    }

    /// The vocabulary: the distinct terms of the corpus, in the order in which
    /// the documents first bring them.
    pub closed spec fn vocabulary(&self) -> Seq<Seq<char>> {
        self.terms.terms()
    }

    /// The tally is consistent, no term occurs in more documents than there
    /// are, and the number of documents leaves room for the smoothing.
    pub closed spec fn wf(&self) -> bool {
        &&& self.terms.wf()
        &&& self.documents < u64::MAX
        &&& forall|w: Seq<char>| self.terms@.count(w) <= self.documents
    }

    /// The vocabulary holds exactly the terms with a positive document
    /// frequency, each once.
    pub proof fn lemma_vocabulary(&self)
        requires
            self.wf(),
        ensures
            self.vocabulary().no_duplicates(),
            forall|w: Seq<char>| self.vocabulary().contains(w) <==> self.frequency_of(w) > 0,
            forall|w: Seq<char>| self.frequency_of(w) <= self.size(),
    {
        self.terms.lemma_terms();
    }

    /// Counts, for every term of the corpus, the documents that hold it. Only
    /// presence matters: how often a term occurs in a document does not.
    pub fn of_corpus(docs: &Vec<Document>) -> (r: DocumentFrequencies)
        requires
            all_wf(docs@),
            docs.len() < u64::MAX,
        ensures
            r.wf(),
            r.size() == docs.len(),
            forall|w: Seq<char>| r.frequency_of(w) == document_frequency(bags(docs@), w),
    {
        broadcast use vstd::multiset::group_multiset_axioms;

        let mut terms = Tally::new();
        let mut d: usize = 0;
        proof {
            reveal(Seq::filter);
            assert(bags(docs@).take(0) == Seq::<Multiset<Seq<char>>>::empty());
        }
        while d < docs.len()
            invariant
                d <= docs.len(),
                all_wf(docs@),
                terms.wf(),
                forall|w: Seq<char>|
                    terms@.count(w) == #[trigger] document_frequency(bags(docs@).take(d as int), w),
            decreases docs.len() - d,
        {
            let doc = &docs[d];
            let ghost seen = bags(docs@).take(d as int);
            let n = doc.distinct();
            let mut j: usize = 0;
            proof {
                doc.lemma_terms();
            }
            while j < n
                invariant
                    j <= n,
                    n == doc.terms().len(),
                    doc.wf(),
                    terms.wf(),
                    doc.terms().no_duplicates(),
                    forall|w: Seq<char>|
                        terms@.count(w) == #[trigger] document_frequency(seen, w) + if doc.terms().take(
                            j as int,
                        ).contains(w) {
                            1nat
                        } else {
                            0nat
                        },
                    seen.len() == d,
                    d < docs.len(),
                decreases n - j,
            {
                let term = doc.entry(j).term.clone();
                proof {
                    let listed = doc.terms().take(j as int);
                    assert(!listed.contains(term@)) by {
                        if listed.contains(term@) {
                            let k = choose|k: int| 0 <= k < listed.len() && listed[k] == term@;
                            assert(doc.terms()[k] == doc.terms()[j as int]);
                        }
                    }
                    lemma_document_frequency_push(seen, doc.bag(), term@);
                    assert(doc.terms().take(j + 1) == listed.push(term@));
                    assert forall|w: Seq<char>| listed.push(term@).contains(w) <==> (w == term@
                        || listed.contains(w)) by {
                        if listed.contains(w) {
                            let k = choose|k: int| 0 <= k < listed.len() && listed[k] == w;
                            assert(listed.push(term@)[k] == w);
                        }
                        if w == term@ {
                            assert(listed.push(term@)[listed.len() as int] == w);
                        }
                    }
                }
                terms.add(term);
                j += 1;
            }
            proof {
                assert(doc.terms().take(j as int) == doc.terms());
                assert(bags(docs@).take(d + 1) == seen.push(doc.bag()));
                assert forall|w: Seq<char>|
                    terms@.count(w) == #[trigger] document_frequency(
                        bags(docs@).take(d + 1),
                        w,
                    ) by {
                    lemma_document_frequency_push(seen, doc.bag(), w);
                    assert(terms@.count(w) == document_frequency(seen, w) + if doc.terms().contains(w) {
                        1nat
                    } else {
                        0nat
                    });
                }
            }
            d += 1;
        }
        proof {
            assert(bags(docs@).take(d as int) == bags(docs@));
            assert forall|w: Seq<char>| terms@.count(w) <= docs.len() by {
                lemma_document_frequency_push(bags(docs@), Multiset::empty(), w);
                assert(terms@.count(w) == document_frequency(bags(docs@), w));
            }
        }
        DocumentFrequencies { terms, documents: docs.len() as u64 }
    }

    /// The number of documents in the corpus.
    pub fn documents(&self) -> (n: u64)
        ensures
            n == self.size(),
    {
        self.documents
    }

    /// The number of documents that hold `term`. A term that the corpus lacks
    /// is no error: its frequency is 0.
    pub fn frequency(&self, term: &str) -> (n: u64)
        requires
            self.wf(),
        ensures
            n == self.frequency_of(term@),
            n <= self.size(),
    {
        self.terms.count(term)
    }

    /// The number of distinct terms in the corpus.
    pub fn len(&self) -> (n: usize)
        ensures
            n == self.vocabulary().len(),
    {
        self.terms.len()
    }

    /// The term at place `i` of the vocabulary, with its document frequency.
    pub fn entry(&self, i: usize) -> (e: &TermCount)
        requires
            self.wf(),
            i < self.vocabulary().len(),
        ensures
            e.term@ == self.vocabulary()[i as int],
            e.count == self.frequency_of(e.term@),
            1 <= e.count <= self.size(),
    {
        self.terms.entry(i)
    }

    /// The argument of the logarithm in the smoothed inverse document
    /// frequency of `term`: one more than the number of documents, over one
    /// more than the number of documents that hold the term. The weight itself
    /// is the natural logarithm of this quotient, plus one; the quotient is
    /// never below one, so the weight is never below one, and it is exactly
    /// one for a term that every document holds. A term that the corpus lacks
    /// is no error: it has no quotient, and its weight is zero.
    pub fn smoothed_ratio(&self, term: &str) -> (r: Option<Fraction>)
        requires
            self.wf(),
        ensures
            r is None <==> self.frequency_of(term@) == 0,
            r matches Some(f) ==> {
                &&& f.numer == self.size() + 1
                &&& f.denom == self.frequency_of(term@) + 1
                &&& 2 <= f.denom <= f.numer
            },
    {
        let df = self.terms.count(term);
        if df == 0 {
            None
        } else {
            Some(Fraction { numer: self.documents + 1, denom: df + 1 })
        }
    }
}

/// The exact parts of the weight that a term has in a document: its term
/// frequency, and the smoothed ratio whose logarithm, plus one, is its inverse
/// document frequency. The weight is the product of the two; without a ratio
/// it is zero.
pub struct WeightParts {
    pub term: String,
    pub frequency: Fraction,
    pub ratio: Option<Fraction>,
}

/// The parts of the weight of `term` in a document with this bag, in a
/// corpus of `size` documents of which `holding` hold the term.
pub open spec fn parts_of(
    bag: Multiset<Seq<char>>,
    term: Seq<char>,
    size: nat,
    holding: nat,
    parts: WeightParts,
) -> bool {
    &&& parts.term@ == term
    &&& parts.frequency.numer == bag.count(term)
    &&& parts.frequency.denom == bag.len()
    &&& parts.ratio == if holding == 0 {
        None
    } else {
        Some(Fraction { numer: (size + 1) as u64, denom: (holding + 1) as u64 })
    }
}

/// Lists, for every distinct word of a document, the exact parts of its
/// weight. A document without words has no weights.
pub fn weight_parts(doc: &Document, frequencies: &DocumentFrequencies) -> (r: Vec<WeightParts>)
    requires
        doc.wf(),
        frequencies.wf(),
    ensures
        r.len() == doc.terms().len(),
        forall|i: int|
            0 <= i < r.len() ==> parts_of(
                doc.bag(),
                doc.terms()[i],
                frequencies.size(),
                frequencies.frequency_of(doc.terms()[i]),
                #[trigger] r[i],
            ),
        forall|i: int|
            0 <= i < r.len() ==> 1 <= (#[trigger] r[i]).frequency.numer <= r[i].frequency.denom,
{
    broadcast use vstd::multiset::group_multiset_axioms;

    let mut r: Vec<WeightParts> = Vec::new();
    let n = doc.distinct();
    let mut i: usize = 0;
    while i < n
        invariant
            i <= n,
            n == doc.terms().len(),
            doc.wf(),
            frequencies.wf(),
            r.len() == i,
            forall|k: int|
                0 <= k < i ==> parts_of(
                    doc.bag(),
                    doc.terms()[k],
                    frequencies.size(),
                    frequencies.frequency_of(doc.terms()[k]),
                    #[trigger] r[k],
                ),
            forall|k: int|
                0 <= k < i ==> 1 <= (#[trigger] r[k]).frequency.numer <= r[k].frequency.denom,
        decreases n - i,
    {
        let entry = doc.entry(i);
        let ratio = frequencies.smoothed_ratio(entry.term.as_str());
        let frequency = Fraction { numer: entry.count, denom: doc.total() };
        r.push(WeightParts { term: entry.term.clone(), frequency, ratio });
        i += 1;
    }
    r
}

} // verus!
