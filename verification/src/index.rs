//! The inverted index: for each term its posting list, and a trie over the
//! terms for prefix search.

use crate::postings::{ascending, insert_posting, top, with_posting, Posting, PostingView};
use crate::search::{candidates, hits_of, is_walk, HitView, SearchHit, PER_TERM};
use crate::trie::{has_prefix, trie_entries, trie_insert, trie_new, trie_prefix_entries, TermTrie};
use vstd::hash_map::StringHashMap;
use vstd::prelude::*;

verus! {

/// The score of one term in one document.
pub struct TermScore {
    pub term: String,
    pub score: u64,
}

/// What a term's score is to a contract.
pub struct TermScoreView {
    pub term: Seq<char>,
    pub score: u64,
}

impl DeepView for TermScore {
    type V = TermScoreView;

    open spec fn deep_view(&self) -> TermScoreView {
        TermScoreView { term: self.term@, score: self.score }
    }
}

/// A document with the normalised scores of its terms.
pub struct ScoredDocument {
    pub id: String,
    pub scores: Vec<TermScore>,
}

/// What a scored document is to a contract.
pub struct ScoredDocumentView {
    pub id: Seq<char>,
    pub scores: Seq<TermScoreView>,
}

impl DeepView for ScoredDocument {
    type V = ScoredDocumentView;

    open spec fn deep_view(&self) -> ScoredDocumentView {
        ScoredDocumentView { id: self.id@, scores: self.scores.deep_view() }
    }
}

/// The abstract index: each term with its ascending posting list.
pub type IndexView = Map<Seq<char>, Seq<PostingView>>;

/// The posting list of a term; empty for a term that the index lacks.
pub open spec fn postings_of(index: IndexView, term: Seq<char>) -> Seq<PostingView> {
    if index.contains_key(term) {
        index[term]
    } else {
        Seq::empty()
    }
}

/// The index after one posting has gone into the list of `term`.
pub open spec fn with_entry(index: IndexView, term: Seq<char>, p: PostingView) -> IndexView {
    index.insert(term, with_posting(postings_of(index, term), p))
}

/// The index after the scores of one document have gone in, in their order.
pub open spec fn with_scores(index: IndexView, id: Seq<char>, scores: Seq<TermScoreView>) -> IndexView
    decreases scores.len(),
{
    if scores.len() == 0 {
        index
    } else {
        with_entry(
            with_scores(index, id, scores.drop_last()),
            scores.last().term,
            PostingView { score: scores.last().score, doc: id },
        )
    }
}

/// The index of a corpus: the documents go in one after the other. Where two
/// documents have the same score for a term, the later one has the place.
pub open spec fn index_of(docs: Seq<ScoredDocumentView>) -> IndexView
    decreases docs.len(),
{
    if docs.len() == 0 {
        Map::empty()
    } else {
        with_scores(index_of(docs.drop_last()), docs.last().id, docs.last().scores)
    }
}

/// Every term of the index has a posting list that ascends and is not empty.
pub open spec fn lists_sound(index: IndexView) -> bool {
    forall|term: Seq<char>| #[trigger]
        index.contains_key(term) ==> ascending(index[term]) && index[term].len() >= 1
}

/// A posting list that ascends still does after a posting has gone into the
/// index, and the term of that posting has a list that is not empty.
pub proof fn lemma_with_entry_sound(index: IndexView, term: Seq<char>, p: PostingView)
    requires
        lists_sound(index),
    ensures
        lists_sound(with_entry(index, term, p)),
        with_entry(index, term, p).dom() == index.dom().insert(term),
{
    crate::postings::lemma_with_posting(postings_of(index, term), p);
    assert(with_entry(index, term, p).dom() =~= index.dom().insert(term));
}

/// The terms of the index are the terms that some document has a score for,
/// and every one of them has a posting list that ascends and is not empty.
pub proof fn lemma_index_sound(docs: Seq<ScoredDocumentView>)
    ensures
        lists_sound(index_of(docs)),
        forall|term: Seq<char>|
            index_of(docs).contains_key(term) <==> exists|d: int, j: int|
                0 <= d < docs.len() && 0 <= j < docs[d].scores.len() && (
                #[trigger] docs[d].scores[j]).term == term,
    decreases docs.len(),
{
    if docs.len() > 0 {
        let before = index_of(docs.drop_last());
        let last = docs.last();
        lemma_index_sound(docs.drop_last());
        lemma_scores_sound(before, last.id, last.scores);
        let now = index_of(docs);
        assert(now == with_scores(before, last.id, last.scores));
        assert forall|term: Seq<char>| now.contains_key(term) implies exists|d: int, j: int|
            0 <= d < docs.len() && 0 <= j < docs[d].scores.len() && (
            #[trigger] docs[d].scores[j]).term == term by {
            if before.contains_key(term) {
                let (d, j) = choose|d: int, j: int|
                    0 <= d < docs.drop_last().len() && 0 <= j < docs.drop_last()[d].scores.len()
                        && (#[trigger] docs.drop_last()[d].scores[j]).term == term;
                assert(docs.drop_last()[d] == docs[d]);
                assert(docs[d].scores[j].term == term);
            } else {
                let j = choose|j: int|
                    0 <= j < last.scores.len() && (#[trigger] last.scores[j]).term == term;
                let d = docs.len() - 1;
                assert(docs[d].scores[j].term == term);
            }
        }
        assert forall|term: Seq<char>|
            (exists|d: int, j: int|
                0 <= d < docs.len() && 0 <= j < docs[d].scores.len() && (
                #[trigger] docs[d].scores[j]).term == term) implies now.contains_key(term) by {
            let (d, j) = choose|d: int, j: int|
                0 <= d < docs.len() && 0 <= j < docs[d].scores.len() && (
                #[trigger] docs[d].scores[j]).term == term;
            if d < docs.len() - 1 {
                assert(docs.drop_last()[d] == docs[d]);
                assert(docs.drop_last()[d].scores[j].term == term);
                assert(before.contains_key(term));
            } else {
                assert(last.scores[j].term == term);
            }
        }
    }
}

/// The scores of one document add their terms to the index and leave its
/// lists sound.
proof fn lemma_scores_sound(index: IndexView, id: Seq<char>, scores: Seq<TermScoreView>)
    requires
        lists_sound(index),
    ensures
        lists_sound(with_scores(index, id, scores)),
        forall|term: Seq<char>|
            with_scores(index, id, scores).contains_key(term) <==> (index.contains_key(term)
                || exists|j: int| 0 <= j < scores.len() && (#[trigger] scores[j]).term == term),
    decreases scores.len(),
{
    if scores.len() > 0 {
        let before = with_scores(index, id, scores.drop_last());
        let last = scores.last();
        lemma_scores_sound(index, id, scores.drop_last());
        lemma_with_entry_sound(before, last.term, PostingView { score: last.score, doc: id });
        assert forall|term: Seq<char>|
            with_scores(index, id, scores).contains_key(term) <==> (index.contains_key(term)
                || exists|j: int| 0 <= j < scores.len() && (#[trigger] scores[j]).term == term) by {
            if with_scores(index, id, scores).contains_key(term) && !index.contains_key(term) {
                if term == last.term {
                    assert(scores[scores.len() - 1].term == term);
                } else {
                    assert(before.contains_key(term));
                    let j = choose|j: int|
                        0 <= j < scores.drop_last().len() && (
                        #[trigger] scores.drop_last()[j]).term == term;
                    assert(scores[j].term == term);
                }
            }
            if exists|j: int| 0 <= j < scores.len() && (#[trigger] scores[j]).term == term {
                let j = choose|j: int| 0 <= j < scores.len() && (#[trigger] scores[j]).term == term;
                if j < scores.len() - 1 {
                    assert(scores.drop_last()[j].term == term);
                }
            }
        }
    }
}

/// A term with its posting list.
pub struct TermPostings {
    pub term: String,
    pub postings: Vec<Posting>,
}

/// The slots agree with the lists: the slot of a term holds that term, and
/// every list is found under its term. Every list ascends and is not empty.
pub open spec fn slots_sound(slots: Map<Seq<char>, usize>, lists: Seq<TermPostings>) -> bool {
    &&& forall|term: Seq<char>| #[trigger]
        slots.contains_key(term) ==> slots[term] < lists.len() && lists[slots[term] as int].term@
            == term
    &&& forall|i: int|
        0 <= i < lists.len() ==> {
            &&& slots.contains_key(#[trigger] lists[i].term@)
            &&& slots[lists[i].term@] == i
            &&& ascending(lists[i].postings.deep_view())
            &&& lists[i].postings.len() >= 1
        }
}

/// The index that slots and lists stand for.
pub open spec fn slots_view(slots: Map<Seq<char>, usize>, lists: Seq<TermPostings>) -> IndexView {
    Map::new(
        |term: Seq<char>| slots.contains_key(term),
        |term: Seq<char>| lists[slots[term] as int].postings.deep_view(),
    )
}

/// The posting lists while they are gathered, with a hash map from each term
/// to the slot of its list.
struct PostingTable {
    lists: Vec<TermPostings>,
    slots: StringHashMap<usize>,
}

impl PostingTable {
    spec fn wf(&self) -> bool {
        slots_sound(self.slots@, self.lists@)
    }

    spec fn index(&self) -> IndexView {
        slots_view(self.slots@, self.lists@)
    }

    fn new() -> (r: PostingTable)
        ensures
            r.wf(),
            r.index() == Map::<Seq<char>, Seq<PostingView>>::empty(),
    {
        let r = PostingTable { lists: Vec::new(), slots: StringHashMap::new() };
        assert(r.index() =~= Map::<Seq<char>, Seq<PostingView>>::empty());
        r
    }

    fn add(&mut self, term: String, p: Posting)
        requires
            old(self).wf(),
        ensures
            final(self).wf(),
            final(self).index() == with_entry(old(self).index(), term@, p@),
    {
        let ghost before = *self;
        let ghost word = term@;
        let found = match self.slots.get(term.as_str()) {
            Some(slot) => Some(*slot),
            None => None,
        };
        match found {
            Some(slot) => {
                assert(before.lists[slot as int].term@ == word);
                insert_posting(&mut self.lists[slot].postings, p);
                proof {
                    assert(self.lists.len() == before.lists.len());
                    assert forall|i: int| 0 <= i < self.lists.len() && i != slot implies self.lists[i]
                        == before.lists[i] by {}
                    assert(self.lists[slot as int].term == before.lists[slot as int].term);
                    assert forall|i: int| 0 <= i < self.lists.len() implies {
                        &&& self.slots@.contains_key(#[trigger] self.lists[i].term@)
                        &&& self.slots@[self.lists[i].term@] == i
                        &&& ascending(self.lists[i].postings.deep_view())
                        &&& self.lists[i].postings.len() >= 1
                    } by {
                        assert(self.lists[i].term@ == before.lists[i].term@);
                    }
                    assert forall|t: Seq<char>| #[trigger] self.slots@.contains_key(t) implies self.slots@[t]
                        < self.lists.len() && self.lists[self.slots@[t] as int].term@ == t by {
                        assert(before.lists[self.slots@[t] as int].term@ == t);
                    }
                    assert(self.wf());
                    assert(self.index() =~= with_entry(before.index(), word, p@));
                }
            },
            None => {
                let at = self.lists.len();
                let mut postings: Vec<Posting> = Vec::new();
                assert(postings.deep_view() == postings_of(before.index(), word));
                insert_posting(&mut postings, p);
                self.slots.insert(term.clone(), at);
                self.lists.push(TermPostings { term, postings });
                proof {
                    let slots = self.slots@;
                    let lists = self.lists@;
                    assert(slots == before.slots@.insert(word, at));
                    assert(lists == before.lists@.push(lists[at as int]));
                    assert(lists[at as int].term@ == word);
                    assert forall|i: int| 0 <= i < lists.len() implies {
                        &&& slots.contains_key(#[trigger] lists[i].term@)
                        &&& slots[lists[i].term@] == i
                        &&& ascending(lists[i].postings.deep_view())
                        &&& lists[i].postings.len() >= 1
                    } by {
                        if i < at {
                            assert(lists[i] == before.lists@[i]);
                            assert(before.slots@.contains_key(before.lists@[i].term@));
                            assert(lists[i].term@ != word);
                        }
                    }
                    assert forall|t: Seq<char>| #[trigger] slots.contains_key(t) implies slots[t]
                        < lists.len() && lists[slots[t] as int].term@ == t by {
                        if t != word {
                            assert(before.slots@.contains_key(t));
                            assert(lists[slots[t] as int] == before.lists@[slots[t] as int]);
                        }
                    }
                    assert(slots_sound(slots, lists));
                    assert(self.wf());
                    assert forall|t: Seq<char>| t != word && before.slots@.contains_key(t) implies (
                    #[trigger] self.index()[t]) == before.index()[t] by {
                        assert(self.lists[before.slots@[t] as int] == before.lists[before.slots@[t] as int]);
                    }
                    assert(self.index()[word] == self.lists[at as int].postings.deep_view());
                    assert(self.index() =~= with_entry(before.index(), word, p@));
                }
            },
        }
    }
}

/// The inverted index of a corpus. It is built once and only read after that.
pub struct SearchIndex {
    trie: TermTrie,
    lists: Vec<TermPostings>,
}

impl View for SearchIndex {
    type V = IndexView;

    closed spec fn view(&self) -> IndexView {
        slots_view(trie_entries(self.trie), self.lists@)
    }
}

impl SearchIndex {
    /// The trie and the lists agree, and every list ascends and is not empty.
    pub closed spec fn wf(&self) -> bool {
        slots_sound(trie_entries(self.trie), self.lists@)
    }

    /// Every term of a well-formed index has at least one document, and its
    /// postings ascend by score.
    pub proof fn lemma_lists_sound(&self)
        requires
            self.wf(),
        ensures
            lists_sound(self@),
    {
    }

    /// Builds the index of a corpus: every score of every document becomes a
    /// posting under its term, and every term goes into the trie.
    pub fn build(docs: &Vec<ScoredDocument>) -> (r: SearchIndex)
        ensures
            r.wf(),
            r@ == index_of(docs.deep_view()),
    {
        let mut table = PostingTable::new();
        let mut d: usize = 0;
        while d < docs.len()
            invariant
                d <= docs.len(),
                table.wf(),
                table.index() == index_of(docs.deep_view().take(d as int)),
            decreases docs.len() - d,
        {
            let doc = &docs[d];
            let ghost seen = index_of(docs.deep_view().take(d as int));
            let mut j: usize = 0;
            while j < doc.scores.len()
                invariant
                    j <= doc.scores.len(),
                    table.wf(),
                    table.index() == with_scores(seen, doc.id@, doc.scores.deep_view().take(j as int)),
                decreases doc.scores.len() - j,
            {
                let entry = &doc.scores[j];
                proof {
                    let scores = doc.scores.deep_view();
                    assert(scores.take(j + 1).drop_last() == scores.take(j as int));
                    assert(scores.take(j + 1).last() == entry.deep_view());
                }
                table.add(entry.term.clone(), Posting { score: entry.score, doc: doc.id.clone() });
                j += 1;
            }
            proof {
                let all = docs.deep_view();
                assert(doc.scores.deep_view().take(j as int) == doc.scores.deep_view());
                assert(all.take(d + 1).drop_last() == all.take(d as int));
                assert(all.take(d + 1).last() == doc.deep_view());
            }
            d += 1;
        }
        assert(docs.deep_view().take(d as int) == docs.deep_view());
        let PostingTable { lists, slots } = table;
        let mut trie = trie_new();
        let mut i: usize = 0;
        while i < lists.len()
            invariant
                i <= lists.len(),
                slots_sound(slots@, lists@),
                forall|t: Seq<char>|
                    trie_entries(trie).contains_key(t) <==> (slots@.contains_key(t) && slots@[t] < i),
                forall|t: Seq<char>| #[trigger]
                    trie_entries(trie).contains_key(t) ==> trie_entries(trie)[t] == slots@[t],
            decreases lists.len() - i,
        {
            let term = lists[i].term.clone();
            trie_insert(&mut trie, term, i);
            i += 1;
        }
        assert(trie_entries(trie) =~= slots@);
        SearchIndex { trie, lists }
    }

    /// Gathers the candidates for a prefix: the trie hands out the terms that
    /// begin with it, and each gives its best postings.
    pub fn candidates_for(&self, prefix: &str) -> (r: Vec<SearchHit>)
        requires
            self.wf(),
        ensures
            exists|walk: Seq<Seq<char>>|
                is_walk(self@, prefix@, walk) && r.deep_view() == #[trigger] candidates(self@, walk),
    {
        let found = trie_prefix_entries(&self.trie, prefix);
        let ghost walk = Seq::new(found.len() as nat, |i: int| found[i].0@);
        let mut r: Vec<SearchHit> = Vec::new();
        let mut i: usize = 0;
        assert(walk.take(0) =~= Seq::<Seq<char>>::empty());
        while i < found.len()
            invariant
                i <= found.len(),
                self.wf(),
                walk == Seq::new(found.len() as nat, |i: int| found[i].0@),
                forall|k: int|
                    0 <= k < found.len() ==> {
                        &&& trie_entries(self.trie).contains_key(#[trigger] found[k].0@)
                        &&& trie_entries(self.trie)[found[k].0@] == found[k].1
                    },
                r.deep_view() == candidates(self@, walk.take(i as int)),
            decreases found.len() - i,
        {
            let term = &found[i].0;
            let slot = found[i].1;
            let ghost before = r.deep_view();
            assert(trie_entries(self.trie).contains_key(found[i as int].0@));
            let best = top(&self.lists[slot].postings, PER_TERM);
            proof {
                assert(walk.take(i + 1).drop_last() == walk.take(i as int));
                assert(walk.take(i + 1).last() == term@);
                assert(postings_of(self@, term@) == self.lists[slot as int].postings.deep_view());
            }
            let ghost wanted = hits_of(term@, postings_of(self@, term@));
            let mut j: usize = 0;
            while j < best.len()
                invariant
                    j <= best.len(),
                    best.deep_view().len() == wanted.len(),
                    forall|k: int|
                        0 <= k < best.len() ==> wanted[k] == (HitView {
                            doc: (#[trigger] best[k]).doc@,
                            term: term@,
                            score: best[k].score,
                        }),
                    r.deep_view() == before + wanted.take(j as int),
                decreases best.len() - j,
            {
                let ghost sofar = r.deep_view();
                r.push(SearchHit { doc: best[j].doc.clone(), term: term.clone(), score: best[j].score });
                assert(r.deep_view() == sofar.push(wanted[j as int]));
                assert(wanted.take(j + 1) == wanted.take(j as int).push(wanted[j as int]));
                j += 1;
            }
            assert(wanted.take(j as int) == wanted);
            i += 1;
        }
        proof {
            assert(walk.take(i as int) == walk);
            assert forall|term: Seq<char>| #[trigger]
                walk.contains(term) <==> (self@.contains_key(term) && has_prefix(term, prefix@)) by {
                if walk.contains(term) {
                    let k = choose|k: int| 0 <= k < walk.len() && walk[k] == term;
                    assert(found[k].0@ == term);
                }
                if self@.contains_key(term) && has_prefix(term, prefix@) {
                    let k = choose|k: int| 0 <= k < found.len() && #[trigger] found[k].0@ == term;
                    assert(walk[k] == term);
                }
            }
            assert(is_walk(self@, prefix@, walk));
        }
        r
    }

    /// The number of terms in the index.
    pub fn len(&self) -> (n: usize)
        requires
            self.wf(),
        ensures
            n == self@.dom().len(),
    {
        proof {
            self.lemma_len();
        }
        self.lists.len()
    }

    proof fn lemma_len(&self)
        requires
            self.wf(),
        ensures
            self@.dom().finite(),
            self@.dom().len() == self.lists.len(),
    {
        lemma_slots_len(trie_entries(self.trie), self.lists@);
    }
}

/// Sound slots have as many terms as there are lists.
proof fn lemma_slots_len(slots: Map<Seq<char>, usize>, lists: Seq<TermPostings>)
    requires
        slots_sound(slots, lists),
    ensures
        slots.dom().finite(),
        slots.dom().len() == lists.len(),
        slots_view(slots, lists).dom() == slots.dom(),
    decreases lists.len(),
{
    assert(slots_view(slots, lists).dom() =~= slots.dom());
    if lists.len() == 0 {
        assert(slots.dom() =~= Set::empty());
    } else {
        let last = lists.last().term@;
        let rest = slots.remove(last);
        let shorter = lists.drop_last();
        assert(slots_sound(rest, shorter)) by {
            assert forall|i: int| 0 <= i < shorter.len() implies {
                &&& rest.contains_key(#[trigger] shorter[i].term@)
                &&& rest[shorter[i].term@] == i
                &&& ascending(shorter[i].postings.deep_view())
                &&& shorter[i].postings.len() >= 1
            } by {
                assert(shorter[i] == lists[i]);
                assert(slots[lists[i].term@] == i);
            }
            assert forall|t: Seq<char>| #[trigger] rest.contains_key(t) implies rest[t]
                < shorter.len() && shorter[rest[t] as int].term@ == t by {
                assert(slots.contains_key(t));
                assert(lists[slots[t] as int].term@ == t);
            }
        }
        lemma_slots_len(rest, lists.drop_last());
        assert(slots.dom() =~= rest.dom().insert(last));
    }
}

} // verus!
