//! The prefix-searchable set of terms: a QP-trie from each term to the slot
//! of its posting list.
//!
//! The trie is the work of the `qp_trie` crate. What this module says of it is
//! believed, not proved.

use qp_trie::wrapper::BString;
use qp_trie::Trie;
use vstd::prelude::*;
use vstd::utf8::{encode_scalar, encode_utf8};

verus! {

/// `qp_trie::Trie`, a map keyed by byte strings. Nothing of its inside is
/// known here.
#[verifier::external_type_specification]
#[verifier::external_body]
#[verifier::reject_recursive_types(K)]
#[verifier::reject_recursive_types(V)]
pub struct ExTrie<K, V>(Trie<K, V>);

/// `qp_trie::wrapper::BString`, a string that the trie takes as a key by its
/// UTF-8 bytes.
#[verifier::external_type_specification]
#[verifier::external_body]
pub struct ExBString(BString);

/// The trie of the index: from a term to the slot of its posting list.
pub type TermTrie = Trie<BString, usize>;

/// What a trie holds: the slot under each term. A term is given by its
/// characters; the trie keys it by the UTF-8 bytes of the same string.
pub uninterp spec fn trie_entries(t: Trie<BString, usize>) -> Map<Seq<char>, usize>;

/// The UTF-8 bytes of `term` begin with the UTF-8 bytes of `prefix`. A term
/// begins with itself and with the empty string.
pub open spec fn has_prefix(term: Seq<char>, prefix: Seq<char>) -> bool {
    encode_utf8(prefix).is_prefix_of(encode_utf8(term))
}

/// A term begins with every string that its characters begin with, itself
/// and the empty string among them.
pub proof fn lemma_has_prefix(term: Seq<char>, prefix: Seq<char>)
    requires
        prefix.is_prefix_of(term),
    ensures
        has_prefix(term, prefix),
        has_prefix(term, term),
        has_prefix(term, Seq::empty()),
    decreases prefix.len(),
{
    assert(encode_utf8(term).subrange(0, encode_utf8(term).len() as int) == encode_utf8(term));
    if prefix.len() > 0 {
        assert(prefix[0] == term.subrange(0, prefix.len() as int)[0]);
        assert(prefix.drop_first() == term.drop_first().subrange(0, prefix.len() - 1));
        lemma_has_prefix(term.drop_first(), prefix.drop_first());
        let head = encode_scalar(term[0] as u32);
        let short = encode_utf8(prefix.drop_first());
        let long = encode_utf8(term.drop_first());
        assert(head + short == (head + long).subrange(0, (head.len() + short.len()) as int));
    }
}

/// `Trie::new` makes a trie that holds nothing.
#[verifier::external_body]
pub(crate) fn trie_new() -> (t: TermTrie)
    ensures
        (trie_entries(t) == Map::<Seq<char>, usize>::empty()),
{
    Trie::new()
}

/// `Trie::insert` puts `slot` under `term`, in place of a slot that the term
/// had, and leaves every other term as it was. It returns the slot that the
/// term had, if it had one.
#[verifier::external_body]
pub(crate) fn trie_insert(t: &mut TermTrie, term: String, slot: usize) -> (prev: Option<usize>)
    ensures
        trie_entries(*final(t)) == trie_entries(*old(t)).insert(term@, slot),
        prev == if trie_entries(*old(t)).contains_key(term@) {
            Some(trie_entries(*old(t))[term@])
        } else {
            None::<usize>
        },
{
    t.insert(BString::from(term), slot)
}

/// `Trie::iter_prefix` walks the entries whose key begins with the bytes of
/// `prefix`: all of them, each once, in an order that the trie decides. The
/// keys come back as strings and the slots as numbers.
#[verifier::external_body]
pub(crate) fn trie_prefix_entries(t: &TermTrie, prefix: &str) -> (r: Vec<(String, usize)>)
    ensures
        (forall|i: int|
            0 <= i < r.len() ==> {
                &&& trie_entries(*t).contains_key(#[trigger] r[i].0@)
                &&& trie_entries(*t)[r[i].0@] == r[i].1
                &&& has_prefix(r[i].0@, prefix@)
            }),
        (forall|i: int, j: int| 0 <= i < j < r.len() ==> r[i].0@ != r[j].0@),
        (forall|term: Seq<char>|
            trie_entries(*t).contains_key(term) && has_prefix(term, prefix@) ==> exists|i: int|
                0 <= i < r.len() && #[trigger] r[i].0@ == term),
{
    let mut r = Vec::new();
    for (key, slot) in t.iter_prefix(&BString::from(prefix)) {
        r.push((key.as_str().to_owned(), *slot));
    }
    r
}

} // verus!
