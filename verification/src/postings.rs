//! Posting lists: for one term, the documents that hold it, ordered by score.

use vstd::prelude::*;

verus! {

/// A document under the score that it has for a term.
///
/// A score is a 64-bit key: the integer order of the keys is the order of
/// the scores.
pub struct Posting {
    pub score: u64,
    pub doc: String,
}

/// What a posting is to a contract.
pub struct PostingView {
    pub score: u64,
    pub doc: Seq<char>,
}

impl View for Posting {
    type V = PostingView;

    open spec fn view(&self) -> PostingView {
        PostingView { score: self.score, doc: self.doc@ }
    }
}

impl DeepView for Posting {
    type V = PostingView;

    open spec fn deep_view(&self) -> PostingView {
        self@
    }
}

impl Clone for Posting {
    fn clone(&self) -> (r: Posting)
        ensures
            r@ == self@,
    {
        Posting { score: self.score, doc: self.doc.clone() }
    }
}

/// The scores rise strictly along the list: the list is an ordered mapping
/// from score to document, with no score twice.
pub open spec fn ascending(list: Seq<PostingView>) -> bool {
    forall|i: int, j: int| 0 <= i < j < list.len() ==> list[i].score < list[j].score
}

/// The list after `p` has gone in: the postings with a lower score, then `p`,
/// then those with a higher score. A posting that had the same score is gone:
/// of two documents with one score, the later one stays.
pub open spec fn with_posting(list: Seq<PostingView>, p: PostingView) -> Seq<PostingView> {
    list.filter(|e: PostingView| e.score < p.score).push(p) + list.filter(
        |e: PostingView| e.score > p.score,
    )
}

/// The `n` highest-scoring postings of an ascending list, highest first; all
/// of them if the list has fewer.
pub open spec fn top_postings(list: Seq<PostingView>, n: nat) -> Seq<PostingView> {
    Seq::new(
        if list.len() < n {
            list.len()
        } else {
            n
        },
        |i: int| list[list.len() - 1 - i],
    )
}

/// Where a predicate holds of exactly the first `k` items, filtering by it
/// keeps those.
pub proof fn lemma_filter_is_take<A>(s: Seq<A>, pred: spec_fn(A) -> bool, k: int)
    requires
        0 <= k <= s.len(),
        forall|i: int| 0 <= i < k ==> pred(#[trigger] s[i]),
        forall|i: int| k <= i < s.len() ==> !pred(#[trigger] s[i]),
    ensures
        s.filter(pred) == s.take(k),
    decreases s.len(),
{
    reveal(Seq::filter);
    if s.len() > 0 {
        if k == s.len() {
            lemma_filter_is_take(s.drop_last(), pred, k - 1);
            assert(s.drop_last().take(k - 1).push(s.last()) == s.take(k));
        } else {
            lemma_filter_is_take(s.drop_last(), pred, k);
            assert(s.drop_last().take(k) == s.take(k));
        }
    } else {
        assert(s.take(k) == s);
    }
}

/// Where a predicate holds of exactly the items from place `k` on, filtering
/// by it keeps those.
pub proof fn lemma_filter_is_skip<A>(s: Seq<A>, pred: spec_fn(A) -> bool, k: int)
    requires
        0 <= k <= s.len(),
        forall|i: int| 0 <= i < k ==> !pred(#[trigger] s[i]),
        forall|i: int| k <= i < s.len() ==> pred(#[trigger] s[i]),
    ensures
        s.filter(pred) == s.skip(k),
    decreases s.len(),
{
    reveal(Seq::filter);
    if s.len() > 0 {
        if k == s.len() {
            lemma_filter_is_skip(s.drop_last(), pred, k - 1);
            assert(s.drop_last().skip(k - 1) == s.skip(k));
        } else {
            lemma_filter_is_skip(s.drop_last(), pred, k);
            assert(s.drop_last().skip(k).push(s.last()) == s.skip(k));
        }
    } else {
        assert(s.skip(k) == s);
    }
}

/// A list stays ascending when a posting goes in; the new posting is in it,
/// and so is every old posting with another score, and nothing else.
pub proof fn lemma_with_posting(list: Seq<PostingView>, p: PostingView)
    requires
        ascending(list),
    ensures
        ascending(with_posting(list, p)),
        with_posting(list, p).contains(p),
        forall|e: PostingView|
            with_posting(list, p).contains(e) <==> (e == p || (list.contains(e) && e.score
                != p.score)),
{
    let below = |e: PostingView| e.score < p.score;
    let above = |e: PostingView| e.score > p.score;
    let r = with_posting(list, p);
    let k = lower_bound(list, p.score, 0);
    lemma_lower_bound(list, p.score, 0);
    let k2 = if k < list.len() && list[k].score == p.score {
        k + 1
    } else {
        k
    };
    lemma_filter_is_take(list, below, k);
    lemma_filter_is_skip(list, above, k2);
    assert(r == list.take(k).push(p) + list.skip(k2));
    assert(r[k] == p);
    assert forall|e: PostingView| r.contains(e) <==> (e == p || (list.contains(e) && e.score
        != p.score)) by {
        if r.contains(e) {
            let i = choose|i: int| 0 <= i < r.len() && r[i] == e;
            if i < k {
                assert(list[i] == e);
            } else if i > k {
                assert(list[k2 + (i - k - 1)] == e);
            }
        }
        if list.contains(e) && e.score != p.score {
            let i = choose|i: int| 0 <= i < list.len() && list[i] == e;
            if i < k {
                assert(r[i] == e);
            } else {
                assert(r[k + 1 + (i - k2)] == e);
            }
        }
    }
}

/// The first place at or after `from` whose score is not below `score`, or
/// the length of the list.
pub open spec fn lower_bound(list: Seq<PostingView>, score: u64, from: int) -> int
    decreases list.len() - from,
{
    if 0 <= from < list.len() && list[from].score < score {
        lower_bound(list, score, from + 1)
    } else {
        from
    }
}

/// In an ascending list, the scores before the lower bound are below `score`
/// and those from it on are not.
pub proof fn lemma_lower_bound(list: Seq<PostingView>, score: u64, from: int)
    requires
        ascending(list),
        0 <= from <= list.len(),
        forall|i: int| 0 <= i < from ==> (#[trigger] list[i]).score < score,
    ensures
        from <= lower_bound(list, score, from) <= list.len(),
        forall|i: int|
            0 <= i < lower_bound(list, score, from) ==> (#[trigger] list[i]).score < score,
        forall|i: int|
            lower_bound(list, score, from) <= i < list.len() ==> (#[trigger] list[i]).score
                >= score,
    decreases list.len() - from,
{
    if from < list.len() && list[from].score < score {
        lemma_lower_bound(list, score, from + 1);
    }
}

/// Puts a posting into an ascending list at the place that its score gives
/// it. A posting that had the same score is replaced.
pub fn insert_posting(list: &mut Vec<Posting>, p: Posting)
    requires
        ascending(old(list).deep_view()),
    ensures
        final(list).deep_view() == with_posting(old(list).deep_view(), p@),
        ascending(final(list).deep_view()),
        final(list).len() >= 1,
{
    let ghost before = list.deep_view();
    let ghost below = |e: PostingView| e.score < p.score;
    let ghost above = |e: PostingView| e.score > p.score;
    let mut k: usize = 0;
    while k < list.len() && list[k].score < p.score
        invariant
            k <= list.len(),
            list.deep_view() == before,
            lower_bound(before, p.score, 0) == lower_bound(before, p.score, k as int),
        decreases list.len() - k,
    {
        assert(before[k as int].score == list[k as int].score);
        k += 1;
    }
    proof {
        assert(k < list.len() ==> before[k as int].score == list[k as int].score);
        lemma_lower_bound(before, p.score, 0);
        lemma_with_posting(before, p@);
        lemma_filter_is_take(before, below, k as int);
    }
    if k < list.len() && list[k].score == p.score {
        proof {
            lemma_filter_is_skip(before, above, k + 1);
        }
        list.set(k, p);
        assert(list.deep_view() == before.take(k as int).push(p@) + before.skip(k + 1));
    } else {
        proof {
            lemma_filter_is_skip(before, above, k as int);
        }
        list.insert(k, p);
        assert(list.deep_view() == before.take(k as int).push(p@) + before.skip(k as int));
    }
}

/// The `n` highest-scoring postings of an ascending list, highest first.
pub fn top(list: &Vec<Posting>, n: usize) -> (r: Vec<Posting>)
    ensures
        r.deep_view() == top_postings(list.deep_view(), n as nat),
{
    let mut r: Vec<Posting> = Vec::new();
    let len = list.len();
    let take = if len < n {
        len
    } else {
        n
    };
    let mut i: usize = 0;
    while i < take
        invariant
            i <= take <= len,
            len == list.len(),
            take == if len < n {
                len
            } else {
                n
            },
            r.len() == i,
            forall|j: int| 0 <= j < i ==> (#[trigger] r[j])@ == list[len - 1 - j]@,
        decreases take - i,
    {
        r.push(list[len - 1 - i].clone());
        i += 1;
    }
    assert(r.deep_view() =~= top_postings(list.deep_view(), n as nat));
    r
}

} // verus!
