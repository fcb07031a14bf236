//! Word normalisation and whitespace tokenisation.

use vstd::prelude::*;

verus! {

/// The fixed set of ASCII punctuation that normalisation removes. Letters,
/// digits and every character outside this set are kept.
pub open spec fn in_punctuation_set(c: char) -> bool {
    ||| c == '!' || c == '"' || c == '#' || c == '$' || c == '%' || c == '&' || c == '\''
    ||| c == '(' || c == ')' || c == '*' || c == '+' || c == ',' || c == '-' || c == '.'
    ||| c == '/' || c == ':' || c == ';' || c == '<' || c == '=' || c == '>' || c == '?'
    ||| c == '@' || c == '[' || c == '\\' || c == ']' || c == '^' || c == '_' || c == '`'
    ||| c == '{' || c == '|' || c == '}' || c == '~'
}

/// What `str::to_lowercase` returns for a string with these characters.
pub uninterp spec fn lowercase_of(s: Seq<char>) -> Seq<char>;

/// A string without its punctuation: the characters outside the punctuation
/// set, in their order.
pub open spec fn without_punctuation(s: Seq<char>) -> Seq<char> {
    s.filter(|c: char| !in_punctuation_set(c))
}

/// The normal form of a word: lowercased, then stripped of punctuation.
pub open spec fn normalized(s: Seq<char>) -> Seq<char> {
    without_punctuation(lowercase_of(s))
}

/// The Unicode `White_Space` code points: the characters that separate words.
pub open spec fn in_whitespace_set(c: char) -> bool {
    ||| ('\u{9}' <= c && c <= '\u{D}')
    ||| c == ' '
    ||| c == '\u{85}'
    ||| c == '\u{A0}'
    ||| c == '\u{1680}'
    ||| ('\u{2000}' <= c && c <= '\u{200A}')
    ||| c == '\u{2028}'
    ||| c == '\u{2029}'
    ||| c == '\u{202F}'
    ||| c == '\u{205F}'
    ||| c == '\u{3000}'
}

/// The index of the first whitespace character at or after `from`, or the
/// length of the text if there is none.
pub open spec fn word_end(text: Seq<char>, from: int) -> int
    decreases text.len() - from,
{
    if from < 0 || from >= text.len() || in_whitespace_set(text[from]) {
        from
    } else {
        word_end(text, from + 1)
    }
}

/// The words of `text` that start at or after `from`: leading whitespace is
/// skipped, and a word runs up to the next whitespace character or the end.
pub open spec fn words_from(text: Seq<char>, from: int) -> Seq<Seq<char>>
    decreases text.len() - from,
    via words_from_decreases
{
    if from < 0 || from >= text.len() {
        Seq::empty()
    } else if in_whitespace_set(text[from]) {
        words_from(text, from + 1)
    } else {
        seq![text.subrange(from, word_end(text, from))] + words_from(
            text,
            word_end(text, from),
        )
    }
}

#[via_fn]
proof fn words_from_decreases(text: Seq<char>, from: int) {
    if 0 <= from < text.len() && !in_whitespace_set(text[from]) {
        lemma_word_end_bounds(text, from + 1);
    }
}

/// The words of a text: its maximal runs of characters that are not
/// whitespace, in their order.
pub open spec fn words(text: Seq<char>) -> Seq<Seq<char>> {
    words_from(text, 0)
}

/// The words of a text, each in its normal form. A word made of punctuation
/// alone gives the empty string, which counts as a word like any other.
pub open spec fn normalized_words(text: Seq<char>) -> Seq<Seq<char>> {
    words(text).map_values(|w: Seq<char>| normalized(w))
}

/// A word ends no earlier than it starts and no later than the text does, and
/// holds no whitespace.
pub proof fn lemma_word_end_bounds(text: Seq<char>, from: int)
    requires
        0 <= from <= text.len(),
    ensures
        from <= word_end(text, from) <= text.len(),
        forall|k: int| from <= k < word_end(text, from) ==> !in_whitespace_set(#[trigger] text[k]),
        word_end(text, from) < text.len() ==> in_whitespace_set(text[word_end(text, from)]),
    decreases text.len() - from,
{
    if from < text.len() && !in_whitespace_set(text[from]) {
        lemma_word_end_bounds(text, from + 1);
    }
}

/// A string in normal form: lowercasing leaves it as it is, and it holds no
/// punctuation.
pub open spec fn is_normal_form(s: Seq<char>) -> bool {
    &&& lowercase_of(s) == s
    &&& forall|i: int| 0 <= i < s.len() ==> !in_punctuation_set(#[trigger] s[i])
}

/// Stripping leaves no punctuation behind, and leaves a string without
/// punctuation as it is: to strip twice is to strip once.
pub proof fn lemma_strip_idempotent(s: Seq<char>)
    ensures
        forall|i: int|
            0 <= i < without_punctuation(s).len() ==> !in_punctuation_set(
                #[trigger] without_punctuation(s)[i],
            ),
        (forall|i: int| 0 <= i < s.len() ==> !in_punctuation_set(#[trigger] s[i]))
            ==> without_punctuation(s) == s,
        without_punctuation(without_punctuation(s)) == without_punctuation(s),
    decreases s.len(),
{
    reveal(Seq::filter);
    let keep = |c: char| !in_punctuation_set(c);
    if s.len() > 0 {
        lemma_strip_idempotent(s.drop_last());
        if forall|i: int| 0 <= i < s.len() ==> !in_punctuation_set(#[trigger] s[i]) {
            assert forall|i: int| 0 <= i < s.drop_last().len() implies !in_punctuation_set(
                #[trigger] s.drop_last()[i],
            ) by {
                assert(s.drop_last()[i] == s[i]);
            }
            assert(s.drop_last().push(s.last()) == s);
        }
    }
    let t = without_punctuation(s);
    lemma_clean_unchanged(t);
}

/// A string without punctuation is what stripping gives for itself.
proof fn lemma_clean_unchanged(t: Seq<char>)
    requires
        forall|i: int| 0 <= i < t.len() ==> !in_punctuation_set(#[trigger] t[i]),
    ensures
        without_punctuation(t) == t,
    decreases t.len(),
{
    reveal(Seq::filter);
    if t.len() > 0 {
        assert forall|i: int| 0 <= i < t.drop_last().len() implies !in_punctuation_set(
            #[trigger] t.drop_last()[i],
        ) by {
            assert(t.drop_last()[i] == t[i]);
        }
        lemma_clean_unchanged(t.drop_last());
        assert(t.drop_last().push(t.last()) == t);
    }
}

/// Normalising a string in normal form gives the same string. The normal
/// form of any string holds no punctuation; so normalising is idempotent on
/// every string whose normal form lowercasing leaves unchanged.
pub proof fn lemma_normalize_idempotent(s: Seq<char>)
    ensures
        is_normal_form(s) ==> normalized(s) == s,
        is_normal_form(normalized(s)) <==> lowercase_of(normalized(s)) == normalized(s),
        is_normal_form(normalized(s)) ==> normalized(normalized(s)) == normalized(s),
{
    lemma_strip_idempotent(s);
    lemma_strip_idempotent(lowercase_of(s));
    lemma_strip_idempotent(normalized(s));
}

/// Every word has at least one character, and none of them is whitespace.
pub proof fn lemma_words_sound(text: Seq<char>, from: int)
    requires
        0 <= from <= text.len(),
    ensures
        forall|i: int|
            0 <= i < words_from(text, from).len() ==> (#[trigger] words_from(text, from)[i]).len()
                > 0,
        forall|i: int, k: int|
            0 <= i < words_from(text, from).len() && 0 <= k < words_from(text, from)[i].len()
                ==> !in_whitespace_set(#[trigger] words_from(text, from)[i][k]),
    decreases text.len() - from,
{
    if from < text.len() {
        if in_whitespace_set(text[from]) {
            lemma_words_sound(text, from + 1);
            assert(words_from(text, from) == words_from(text, from + 1));
        } else {
            let end = word_end(text, from);
            lemma_word_end_bounds(text, from);
            lemma_word_end_bounds(text, from + 1);
            assert(end == word_end(text, from + 1));
            assert(from < end <= text.len());
            lemma_words_sound(text, end);
            let word = text.subrange(from, end);
            let all = words_from(text, from);
            assert(all == seq![word] + words_from(text, end));
            assert(all[0] == word);
            assert forall|i: int| 0 <= i < all.len() implies (#[trigger] all[i]).len() > 0 by {
                if i > 0 {
                    assert(all[i] == words_from(text, end)[i - 1]);
                }
            }
            assert forall|i: int, k: int|
                0 <= i < all.len() && 0 <= k < all[i].len() implies !in_whitespace_set(
                #[trigger] all[i][k],
            ) by {
                if i > 0 {
                    assert(all[i] == words_from(text, end)[i - 1]);
                } else {
                    assert(all[0][k] == text[from + k]);
                }
            }
        }
    } else {
        assert(words_from(text, from).len() == 0);
    }
}

/// Tells whether `c` is a whitespace character.
pub fn is_whitespace(c: char) -> (b: bool)
    ensures
        b == in_whitespace_set(c),
{
    ('\u{9}' <= c && c <= '\u{D}') || c == ' ' || c == '\u{85}' || c == '\u{A0}' || c == '\u{1680}'
        || ('\u{2000}' <= c && c <= '\u{200A}') || c == '\u{2028}' || c == '\u{2029}'
        || c == '\u{202F}' || c == '\u{205F}' || c == '\u{3000}'
}

/// Tells whether `c` belongs to the punctuation set.
pub fn is_punctuation(c: char) -> (b: bool)
    ensures
        b == in_punctuation_set(c),
{
    c == '!' || c == '"' || c == '#' || c == '$' || c == '%' || c == '&' || c == '\''
        || c == '(' || c == ')' || c == '*' || c == '+' || c == ',' || c == '-' || c == '.'
        || c == '/' || c == ':' || c == ';' || c == '<' || c == '=' || c == '>' || c == '?'
        || c == '@' || c == '[' || c == '\\' || c == ']' || c == '^' || c == '_' || c == '`'
        || c == '{' || c == '|' || c == '}' || c == '~'
}

/// `String::push` appends one character to the end of the string.
pub assume_specification[ String::push ](s: &mut String, ch: char)
    ensures
        final(s)@ == old(s)@.push(ch),
;

/// Calls `str::to_lowercase`, which maps the string to its lowercase form
/// by the Unicode tables; the contract only names that result.
#[verifier::external_body]
fn lowercase(s: &str) -> (r: String)
    ensures
        r@ == lowercase_of(s@),
{
    s.to_lowercase()
}

/// The characters of `s` as a vector.
pub fn chars_of(s: &str) -> (v: Vec<char>)
    ensures
        v@ == s@,
{
    let mut v: Vec<char> = Vec::new();
    for c in it: s.chars()
        invariant
            v@ == it.seq().take(it.index() as int),
            it.seq() == s@,
    {
        v.push(c);
    }
    v
}

/// Removes every punctuation character from `s`, keeping the others in order.
pub fn strip_punctuation(s: &str) -> (r: String)
    ensures
        r@ == without_punctuation(s@),
{
    let chars = chars_of(s);
    let mut r = String::new();
    let mut i: usize = 0;
    while i < chars.len()
        invariant
            i <= chars.len(),
            chars@ == s@,
            r@ == without_punctuation(s@.take(i as int)),
        decreases chars.len() - i,
    {
        let c = chars[i];
        proof {
            reveal(Seq::filter);
            assert(s@.take(i + 1).drop_last() == s@.take(i as int));
        }
        if !is_punctuation(c) {
            r.push(c);
        }
        i += 1;
    }
    assert(s@.take(i as int) == s@);
    r
}

/// Normalises a word or a query: lowercases it, then removes punctuation.
pub fn normalize(s: &str) -> (r: String)
    ensures
        r@ == normalized(s@),
{
    let lowered = lowercase(s);
    strip_punctuation(lowered.as_str())
}

/// Splits a text into its words at whitespace.
pub fn split_words(text: &str) -> (r: Vec<String>)
    ensures
        r.deep_view() == words(text@),
{
    let chars = chars_of(text);
    let mut r: Vec<String> = Vec::new();
    let mut i: usize = 0;
    while i < chars.len()
        invariant
            i <= chars.len(),
            chars@ == text@,
            r.deep_view() + words_from(text@, i as int) == words(text@),
        decreases chars.len() - i,
    {
        if is_whitespace(chars[i]) {
            i += 1;
        } else {
            let ghost start = i;
            let ghost before = r.deep_view();
            let mut word = String::new();
            proof {
                lemma_word_end_bounds(text@, start as int);
            }
            while i < chars.len() && !is_whitespace(chars[i])
                invariant
                    start <= i <= chars.len(),
                    chars@ == text@,
                    word@ == text@.subrange(start as int, i as int),
                    word_end(text@, start as int) == word_end(text@, i as int),
                decreases chars.len() - i,
            {
                word.push(chars[i]);
                i += 1;
                assert(text@.subrange(start as int, i as int) == text@.subrange(
                    start as int,
                    i - 1,
                ).push(text@[i - 1]));
            }
            r.push(word);
            proof {
                assert(i == word_end(text@, start as int));
                assert(r.deep_view() == before.push(word@));
                assert(before.push(word@) + words_from(text@, i as int) == before + words_from(
                    text@,
                    start as int,
                ));
            }
        }
    }
    assert(r.deep_view() + Seq::<Seq<char>>::empty() == r.deep_view());
    r
}

/// Splits a text into its words and puts each into its normal form.
pub fn split_normalized(text: &str) -> (r: Vec<String>)
    ensures
        r.deep_view() == normalized_words(text@),
{
    let raw = split_words(text);
    let mut r: Vec<String> = Vec::new();
    let mut i: usize = 0;
    while i < raw.len()
        invariant
            i <= raw.len(),
            raw.deep_view() == words(text@),
            r.deep_view() == normalized_words(text@).take(i as int),
        decreases raw.len() - i,
    {
        let ghost before = r.deep_view();
        let word = normalize(raw[i].as_str());
        r.push(word);
        proof {
            assert(raw.deep_view()[i as int] == raw[i as int]@);
            assert(r.deep_view() == before.push(word@));
            assert(normalized_words(text@).take(i + 1) == normalized_words(text@).take(
                i as int,
            ).push(normalized_words(text@)[i as int]));
        }
        i += 1;
    }
    assert(normalized_words(text@).take(i as int) == normalized_words(text@));
    r
}

} // verus!
