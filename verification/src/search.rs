//! The prefix query: candidates from every matching term, ranked with exact
//! matches first, and cut to the best hundred.

use crate::index::{index_of, lists_sound, postings_of, IndexView, SearchIndex};
use crate::postings::{top_postings, PostingView};
use crate::text::{normalize, normalized};
use crate::trie::has_prefix;
use vstd::prelude::*;

verus! {

/// How many postings each matching term may give.
pub const PER_TERM: usize = 9;

/// How many results a query may have.
pub const MAX_RESULTS: usize = 100;

/// One result: a document, the term under which it was found, and its score
/// for that term.
pub struct SearchHit {
    pub doc: String,
    pub term: String,
    pub score: u64,
}

/// What a result is to a contract.
pub struct HitView {
    pub doc: Seq<char>,
    pub term: Seq<char>,
    pub score: u64,
}

impl DeepView for SearchHit {
    type V = HitView;

    open spec fn deep_view(&self) -> HitView {
        HitView { doc: self.doc@, term: self.term@, score: self.score }
    }
}

impl Clone for SearchHit {
    fn clone(&self) -> (r: SearchHit)
        ensures
            r.deep_view() == self.deep_view(),
    {
        SearchHit { doc: self.doc.clone(), term: self.term.clone(), score: self.score }
    }
}

/// What a query gives: the ranked results, or the word that nothing matched.
pub enum SearchOutcome {
    NoMatches,
    Hits(Vec<SearchHit>),
}

/// What an outcome is to a contract.
pub enum OutcomeView {
    NoMatches,
    Hits(Seq<HitView>),
}

impl DeepView for SearchOutcome {
    type V = OutcomeView;

    open spec fn deep_view(&self) -> OutcomeView {
        match self {
            SearchOutcome::NoMatches => OutcomeView::NoMatches,
            SearchOutcome::Hits(hits) => OutcomeView::Hits(hits.deep_view()),
        }
    }
}

/// The candidates that one term gives: its highest-scoring postings, at most
/// `PER_TERM` of them, highest first.
pub open spec fn hits_of(term: Seq<char>, list: Seq<PostingView>) -> Seq<HitView> {
    top_postings(list, PER_TERM as nat).map_values(
        |p: PostingView| HitView { doc: p.doc, term: term, score: p.score },
    )
}

/// The candidates of a walk over matching terms: those of each term, in the
/// order of the walk.
pub open spec fn candidates(index: IndexView, walk: Seq<Seq<char>>) -> Seq<HitView>
    decreases walk.len(),
{
    if walk.len() == 0 {
        Seq::empty()
    } else {
        candidates(index, walk.drop_last()) + hits_of(
            walk.last(),
            postings_of(index, walk.last()),
        )
    }
}

/// `walk` lists the terms of the index that begin with `prefix`: all of
/// them, each once, in some order.
pub open spec fn is_walk(index: IndexView, prefix: Seq<char>, walk: Seq<Seq<char>>) -> bool {
    &&& walk.no_duplicates()
    &&& forall|term: Seq<char>| #[trigger]
        walk.contains(term) <==> (index.contains_key(term) && has_prefix(term, prefix))
}

/// `a` ranks strictly above `b` for `query`: `a` is under the very term of the
/// query and `b` is not; or neither or both are, and `a` has the higher score.
pub open spec fn outranks(a: HitView, b: HitView, query: Seq<char>) -> bool {
    ||| a.term == query && b.term != query
    ||| ((a.term == query) == (b.term == query) && a.score > b.score)
}

/// The place at which `hit` enters a ranked list: behind the leading hits,
/// from `from` on, that outrank it.
pub open spec fn rank_place(ranked: Seq<HitView>, hit: HitView, query: Seq<char>, from: int) -> int
    decreases ranked.len() - from,
{
    if 0 <= from < ranked.len() && outranks(ranked[from], hit, query) {
        rank_place(ranked, hit, query, from + 1)
    } else {
        from
    }
}

/// The candidates in ranking order. This is the order that a stable sort by
/// exactness, then score, both rising, gives when it is read backwards: exact
/// matches before all others, within each group the higher score first, and of
/// two candidates that neither outranks the other, the later one first.
pub open spec fn ranked(cands: Seq<HitView>, query: Seq<char>) -> Seq<HitView>
    decreases cands.len(),
{
    if cands.len() == 0 {
        Seq::empty()
    } else {
        let rest = ranked(cands.drop_last(), query);
        rest.insert(rank_place(rest, cands.last(), query, 0), cands.last())
    }
}

/// The place at which `hit` enters a rising list: behind the leading hits,
/// from `from` on, that it does not rank below.
pub open spec fn rising_place(sorted: Seq<HitView>, hit: HitView, query: Seq<char>, from: int) -> int
    decreases sorted.len() - from,
{
    if 0 <= from < sorted.len() && !outranks(sorted[from], hit, query) {
        rising_place(sorted, hit, query, from + 1)
    } else {
        from
    }
}

/// The candidates after a stable sort into rising order: others before exact
/// matches, within each group the lower score first, and of two candidates
/// that neither outranks the other, the earlier one first.
pub open spec fn sorted_rising(cands: Seq<HitView>, query: Seq<char>) -> Seq<HitView>
    decreases cands.len(),
{
    if cands.len() == 0 {
        Seq::empty()
    } else {
        let rest = sorted_rising(cands.drop_last(), query);
        rest.insert(rising_place(rest, cands.last(), query, 0), cands.last())
    }
}

/// The first `n` items of a sequence; all of it if it has fewer.
pub open spec fn first_n<A>(s: Seq<A>, n: int) -> Seq<A> {
    if s.len() <= n {
        s
    } else {
        s.take(n)
    }
}

/// The results of a query with these candidates: the best `MAX_RESULTS` in
/// ranking order.
pub open spec fn results(cands: Seq<HitView>, query: Seq<char>) -> Seq<HitView> {
    first_n(ranked(cands, query), MAX_RESULTS as int)
}

/// The outcome of a query with these candidates.
pub open spec fn outcome_of(cands: Seq<HitView>, query: Seq<char>) -> OutcomeView {
    if cands.len() == 0 {
        OutcomeView::NoMatches
    } else {
        OutcomeView::Hits(results(cands, query))
    }
}

/// No hit ranks above one that stands before it.
pub open spec fn in_rank_order(hits: Seq<HitView>, query: Seq<char>) -> bool {
    forall|i: int, j: int| 0 <= i < j < hits.len() ==> !outranks(hits[j], hits[i], query)
}

/// The hits before the place of `hit` outrank it, and the hit at that place
/// does not.
pub proof fn lemma_rank_place(ranked: Seq<HitView>, hit: HitView, query: Seq<char>, from: int)
    requires
        0 <= from <= ranked.len(),
    ensures
        from <= rank_place(ranked, hit, query, from) <= ranked.len(),
        forall|i: int|
            from <= i < rank_place(ranked, hit, query, from) ==> outranks(
                #[trigger] ranked[i],
                hit,
                query,
            ),
        rank_place(ranked, hit, query, from) < ranked.len() ==> !outranks(
            ranked[rank_place(ranked, hit, query, from)],
            hit,
            query,
        ),
    decreases ranked.len() - from,
{
    if from < ranked.len() && outranks(ranked[from], hit, query) {
        lemma_rank_place(ranked, hit, query, from + 1);
    }
}

/// Ranking only reorders: the ranked list holds each candidate as often as
/// the candidates do, and is in rank order.
pub proof fn lemma_ranked(cands: Seq<HitView>, query: Seq<char>)
    ensures
        ranked(cands, query).to_multiset() == cands.to_multiset(),
        ranked(cands, query).len() == cands.len(),
        in_rank_order(ranked(cands, query), query),
    decreases cands.len(),
{
    broadcast use vstd::seq_lib::group_to_multiset_ensures;

    if cands.len() == 0 {
    } else {
        let rest = ranked(cands.drop_last(), query);
        let hit = cands.last();
        let at = rank_place(rest, hit, query, 0);
        lemma_ranked(cands.drop_last(), query);
        lemma_rank_place(rest, hit, query, 0);
        vstd::seq_lib::to_multiset_insert(rest, at, hit);
        assert(cands.drop_last().push(hit) == cands);
        let r = rest.insert(at, hit);
        assert forall|i: int, j: int| 0 <= i < j < r.len() implies !outranks(r[j], r[i], query) by {
            if j < at {
                assert(r[i] == rest[i] && r[j] == rest[j]);
            } else if j == at {
                assert(r[i] == rest[i]);
            } else if i < at {
                assert(r[i] == rest[i] && r[j] == rest[j - 1]);
            } else if i == at {
                assert(r[j] == rest[j - 1]);
                assert(!outranks(rest[at], hit, query));
                assert(j - 1 > at ==> !outranks(rest[j - 1], rest[at], query));
            } else {
                assert(r[i] == rest[i - 1] && r[j] == rest[j - 1]);
            }
        }
    }
}

/// The hits before the rising place of `hit` do not outrank it, and the hit
/// at that place does.
proof fn lemma_rising_place(sorted: Seq<HitView>, hit: HitView, query: Seq<char>, from: int)
    requires
        0 <= from <= sorted.len(),
    ensures
        from <= rising_place(sorted, hit, query, from) <= sorted.len(),
        forall|i: int|
            from <= i < rising_place(sorted, hit, query, from) ==> !outranks(
                #[trigger] sorted[i],
                hit,
                query,
            ),
        rising_place(sorted, hit, query, from) < sorted.len() ==> outranks(
            sorted[rising_place(sorted, hit, query, from)],
            hit,
            query,
        ),
    decreases sorted.len() - from,
{
    if from < sorted.len() && !outranks(sorted[from], hit, query) {
        lemma_rising_place(sorted, hit, query, from + 1);
    }
}

/// The ranking order is the stable rising sort, read backwards.
pub proof fn lemma_ranked_is_sorted_reversed(cands: Seq<HitView>, query: Seq<char>)
    ensures
        ranked(cands, query) == sorted_rising(cands, query).reverse(),
    decreases cands.len(),
{
    if cands.len() == 0 {
        assert(Seq::<HitView>::empty().reverse() =~= Seq::<HitView>::empty());
    } else {
        let hit = cands.last();
        let rising = sorted_rising(cands.drop_last(), query);
        let falling = ranked(cands.drop_last(), query);
        lemma_ranked_is_sorted_reversed(cands.drop_last(), query);
        lemma_ranked(cands.drop_last(), query);
        let n = rising.len() as int;
        let a = rising_place(rising, hit, query, 0);
        let p = rank_place(falling, hit, query, 0);
        lemma_rising_place(rising, hit, query, 0);
        lemma_rank_place(falling, hit, query, 0);
        assert forall|j: int| a <= j < n implies outranks(rising[j], hit, query) by {
            if j > a {
                assert(falling[n - 1 - j] == rising[j]);
                assert(falling[n - 1 - a] == rising[a]);
                assert(!outranks(falling[n - 1 - a], falling[n - 1 - j], query));
            }
        }
        if p < n - a {
            assert(falling[p] == rising[n - 1 - p]);
        }
        if p > n - a {
            assert(falling[n - a] == rising[a - 1]);
        }
        assert(p == n - a);
        assert(falling.insert(p, hit) =~= rising.insert(a, hit).reverse());
    }
}

/// A result under the very term of the query stands before every result under
/// a term that only begins with it, whatever their scores.
pub proof fn lemma_exact_matches_first(cands: Seq<HitView>, query: Seq<char>, i: int, j: int)
    requires
        0 <= i < results(cands, query).len(),
        0 <= j < results(cands, query).len(),
        results(cands, query)[i].term == query,
        results(cands, query)[j].term != query,
    ensures
        i < j,
{
    lemma_ranked(cands, query);
    let all = ranked(cands, query);
    assert(results(cands, query)[i] == all[i]);
    assert(results(cands, query)[j] == all[j]);
    if j < i {
        assert(outranks(all[i], all[j], query));
    }
}

/// A query never has more than `MAX_RESULTS` results, nor more than it has
/// candidates; and no term gives more than `PER_TERM` candidates.
pub proof fn lemma_result_bounds(cands: Seq<HitView>, query: Seq<char>)
    ensures
        results(cands, query).len() <= MAX_RESULTS,
        results(cands, query).len() <= cands.len(),
        forall|term: Seq<char>, list: Seq<PostingView>|
            (#[trigger] hits_of(term, list)).len() <= PER_TERM && hits_of(term, list).len()
                <= list.len(),
{
    lemma_ranked(cands, query);
}

/// A query has no matches exactly when no term of the index begins with it:
/// a term that does has at least one posting to give.
pub proof fn lemma_no_matches(index: IndexView, prefix: Seq<char>, walk: Seq<Seq<char>>)
    requires
        lists_sound(index),
        is_walk(index, prefix, walk),
    ensures
        outcome_of(candidates(index, walk), prefix) is NoMatches <==> forall|term: Seq<char>|
            index.contains_key(term) ==> !has_prefix(term, prefix),
{
    if walk.len() == 0 {
        assert forall|term: Seq<char>| index.contains_key(term) implies !has_prefix(
            term,
            prefix,
        ) by {
            assert(!walk.contains(term));
        }
    } else {
        let term = walk.last();
        assert(walk.contains(term));
        assert(index.contains_key(term));
        assert(hits_of(term, postings_of(index, term)).len() >= 1);
    }
}

/// The index of an empty corpus has no terms, and every query on it has no
/// matches.
pub proof fn lemma_empty_corpus(prefix: Seq<char>, walk: Seq<Seq<char>>)
    requires
        is_walk(index_of(Seq::empty()), prefix, walk),
    ensures
        index_of(Seq::empty()) == Map::<Seq<char>, Seq<PostingView>>::empty(),
        outcome_of(candidates(index_of(Seq::empty()), walk), prefix) is NoMatches,
{
    lemma_no_matches(index_of(Seq::empty()), prefix, walk);
}

/// The place of a hit in the first `n` of a list is its place in the whole
/// list, or `n` if that lies further back.
proof fn lemma_rank_place_prefix(ranked: Seq<HitView>, hit: HitView, query: Seq<char>, n: int, from: int)
    requires
        0 <= from <= n <= ranked.len(),
    ensures
        rank_place(ranked.take(n), hit, query, from) == if rank_place(ranked, hit, query, from)
            < n {
            rank_place(ranked, hit, query, from)
        } else {
            n
        },
    decreases n - from,
{
    if from < n {
        assert(ranked.take(n)[from] == ranked[from]);
        if outranks(ranked[from], hit, query) {
            lemma_rank_place_prefix(ranked, hit, query, n, from + 1);
        }
    } else {
        lemma_rank_place(ranked, hit, query, from);
    }
}

/// What lies behind the first `n` of a ranked list has no part in the first
/// `n` after another hit has gone in.
proof fn lemma_insert_truncated(ranked: Seq<HitView>, hit: HitView, query: Seq<char>, n: int)
    requires
        0 < n,
    ensures
        first_n(ranked.insert(rank_place(ranked, hit, query, 0), hit), n) == first_n(
            first_n(ranked, n).insert(rank_place(first_n(ranked, n), hit, query, 0), hit),
            n,
        ),
{
    lemma_rank_place(ranked, hit, query, 0);
    if ranked.len() > n {
        lemma_rank_place_prefix(ranked, hit, query, n, 0);
        let at = rank_place(ranked, hit, query, 0);
        let head = ranked.take(n);
        if at < n {
            assert(ranked.insert(at, hit).take(n) =~= head.insert(at, hit).take(n));
        } else {
            assert(ranked.insert(at, hit).take(n) =~= head);
            assert(head.insert(n, hit).take(n) =~= head);
        }
    }
}

/// Tells whether `a` ranks strictly above `b` for `query`.
pub fn ranks_above(a: &SearchHit, b: &SearchHit, query: &String) -> (r: bool)
    ensures
        r == outranks(a.deep_view(), b.deep_view(), query@),
{
    let a_exact = a.term == *query;
    let b_exact = b.term == *query;
    (a_exact && !b_exact) || (a_exact == b_exact && a.score > b.score)
}

/// Ranks the candidates of a query and keeps the best `MAX_RESULTS`.
pub fn rank(cands: &Vec<SearchHit>, query: &str) -> (r: Vec<SearchHit>)
    ensures
        r.deep_view() == results(cands.deep_view(), query@),
{
    let wanted = query.to_owned();
    let mut best: Vec<SearchHit> = Vec::new();
    let mut i: usize = 0;
    assert(cands.deep_view().take(0) =~= Seq::<HitView>::empty());
    while i < cands.len()
        invariant
            i <= cands.len(),
            wanted@ == query@,
            best.deep_view() == results(cands.deep_view().take(i as int), query@),
        decreases cands.len() - i,
    {
        let hit = &cands[i];
        let ghost sofar = cands.deep_view().take(i as int);
        let ghost all = ranked(sofar, query@);
        let ghost head = best.deep_view();
        let mut at: usize = 0;
        proof {
            lemma_ranked(sofar, query@);
            assert(cands.deep_view().take(i + 1).drop_last() == sofar);
            assert(cands.deep_view().take(i + 1).last() == hit.deep_view());
            lemma_insert_truncated(all, hit.deep_view(), query@, MAX_RESULTS as int);
            lemma_rank_place(head, hit.deep_view(), query@, 0);
        }
        while at < best.len() && ranks_above(&best[at], hit, &wanted)
            invariant
                at <= best.len(),
                wanted@ == query@,
                best.deep_view() == head,
                rank_place(head, hit.deep_view(), query@, 0) == rank_place(
                    head,
                    hit.deep_view(),
                    query@,
                    at as int,
                ),
            decreases best.len() - at,
        {
            assert(head[at as int] == best[at as int].deep_view());
            at += 1;
        }
        assert(at < best.len() ==> head[at as int] == best[at as int].deep_view());
        if at < MAX_RESULTS {
            best.insert(at, hit.clone());
            assert(best.deep_view() =~= head.insert(at as int, hit.deep_view()));
            if best.len() > MAX_RESULTS {
                best.truncate(MAX_RESULTS);
                assert(best.deep_view() =~= head.insert(at as int, hit.deep_view()).take(
                    MAX_RESULTS as int,
                ));
            }
        } else {
            assert(head.insert(at as int, hit.deep_view()).take(MAX_RESULTS as int) =~= head);
        }
        i += 1;
    }
    assert(cands.deep_view().take(i as int) == cands.deep_view());
    best
}

/// The outcome of a query with these candidates: no matches if there are
/// none, else the ranked results.
pub fn conclude(cands: &Vec<SearchHit>, query: &str) -> (r: SearchOutcome)
    ensures
        r.deep_view() == outcome_of(cands.deep_view(), query@),
{
    if cands.len() == 0 {
        SearchOutcome::NoMatches
    } else {
        SearchOutcome::Hits(rank(cands, query))
    }
}

/// Answers a query. The query is normalised like a word of a document; every
/// term of the index that begins with it gives its best postings; the
/// candidates are ranked and cut to the best `MAX_RESULTS`. The order in which
/// the trie hands out the matching terms decides between candidates that
/// neither outranks the other.
pub fn search(index: &SearchIndex, query: &str) -> (r: SearchOutcome)
    requires
        index.wf(),
    ensures
        exists|walk: Seq<Seq<char>>|
            is_walk(index@, normalized(query@), walk) && r.deep_view() == outcome_of(
                #[trigger] candidates(index@, walk),
                normalized(query@),
            ),
        r is NoMatches <==> forall|term: Seq<char>|
            index@.contains_key(term) ==> !has_prefix(term, normalized(query@)),
        r matches SearchOutcome::Hits(hits) ==> 1 <= hits.len() <= MAX_RESULTS,
{
    let wanted = normalize(query);
    let cands = index.candidates_for(wanted.as_str());
    proof {
        index.lemma_lists_sound();
        let walk = choose|walk: Seq<Seq<char>>|
            is_walk(index@, wanted@, walk) && cands.deep_view() == #[trigger] candidates(
                index@,
                walk,
            );
        lemma_no_matches(index@, wanted@, walk);
        lemma_result_bounds(cands.deep_view(), wanted@);
    }
    conclude(&cands, wanted.as_str())
}

} // verus!
