use tfidf_search::corpus::{weight_parts, Document, DocumentFrequencies, Fraction};
use tfidf_search::tally::Tally;

fn doc(id: &str, text: &str) -> Document {
    Document::from_text(id.to_string(), text)
}

#[test]
fn tally_counts_and_keeps_first_order() {
    let mut t = Tally::new();
    assert_eq!(t.len(), 0);
    assert_eq!(t.count("a"), 0);
    t.add("b".to_string());
    t.add("a".to_string());
    t.add("b".to_string());
    assert_eq!(t.len(), 2);
    assert_eq!(t.count("a"), 1);
    assert_eq!(t.count("b"), 2);
    assert_eq!(t.count("c"), 0);
    assert_eq!(t.entry(0).term, "b");
    assert_eq!(t.entry(0).count, 2);
    assert_eq!(t.entry(1).term, "a");
    assert_eq!(t.entry(1).count, 1);
}

#[test]
fn document_counts_normalised_words() {
    let d = doc("doc1", "Apple apple, BANANA");
    assert_eq!(d.id(), "doc1");
    assert_eq!(d.total(), 3);
    assert_eq!(d.distinct(), 2);
    assert_eq!(d.count("apple"), 2);
    assert_eq!(d.count("banana"), 1);
    assert_eq!(d.count("Apple"), 0);
    assert_eq!(d.count("cherry"), 0);
    assert_eq!(d.entry(0).term, "apple");
    assert_eq!(d.entry(0).count, 2);
    assert_eq!(d.entry(1).term, "banana");
    assert_eq!(d.entry(1).count, 1);
}

#[test]
fn document_counts_the_empty_word() {
    let d = doc("d", "a -- b ... a");
    assert_eq!(d.total(), 5);
    assert_eq!(d.distinct(), 3);
    assert_eq!(d.count(""), 2);
    assert_eq!(d.count("a"), 2);
    assert_eq!(d.count("b"), 1);
}

#[test]
fn term_frequency_is_count_over_total() {
    let d = doc("doc1", "apple apple banana");
    assert_eq!(d.term_frequency("apple"), Some(Fraction { numer: 2, denom: 3 }));
    assert_eq!(d.term_frequency("banana"), Some(Fraction { numer: 1, denom: 3 }));
    assert_eq!(d.term_frequency("cherry"), Some(Fraction { numer: 0, denom: 3 }));
}

#[test]
fn term_frequency_of_an_empty_document_is_none() {
    let d = doc("empty", "  \n ");
    assert_eq!(d.total(), 0);
    assert_eq!(d.distinct(), 0);
    assert_eq!(d.term_frequency("apple"), None);
    assert_eq!(d.term_frequency(""), None);
}

#[test]
fn document_frequency_counts_documents_not_occurrences() {
    let docs = vec![doc("doc1", "apple apple banana"), doc("doc2", "banana cherry")];
    let df = DocumentFrequencies::of_corpus(&docs);
    assert_eq!(df.documents(), 2);
    assert_eq!(df.len(), 3);
    assert_eq!(df.frequency("apple"), 1);
    assert_eq!(df.frequency("banana"), 2);
    assert_eq!(df.frequency("cherry"), 1);
    assert_eq!(df.entry(0).term, "apple");
    assert_eq!(df.entry(0).count, 1);
    assert_eq!(df.entry(1).term, "banana");
    assert_eq!(df.entry(1).count, 2);
    assert_eq!(df.entry(2).term, "cherry");
    assert_eq!(df.entry(2).count, 1);
}

#[test]
fn smoothed_ratio_adds_one_above_and_below() {
    let docs = vec![doc("doc1", "apple apple banana"), doc("doc2", "banana cherry")];
    let df = DocumentFrequencies::of_corpus(&docs);
    assert_eq!(df.smoothed_ratio("apple"), Some(Fraction { numer: 3, denom: 2 }));
    assert_eq!(df.smoothed_ratio("cherry"), Some(Fraction { numer: 3, denom: 2 }));
    assert_eq!(df.smoothed_ratio("banana"), Some(Fraction { numer: 3, denom: 3 }));
}

#[test]
fn weight_parts_lists_every_distinct_word() {
    let docs = vec![doc("doc1", "apple apple banana"), doc("doc2", "banana cherry")];
    let df = DocumentFrequencies::of_corpus(&docs);
    let parts = weight_parts(&docs[0], &df);
    assert_eq!(parts.len(), 2);
    assert_eq!(parts[0].term, "apple");
    assert_eq!(parts[0].frequency, Fraction { numer: 2, denom: 3 });
    assert_eq!(parts[0].ratio, Some(Fraction { numer: 3, denom: 2 }));
    assert_eq!(parts[1].term, "banana");
    assert_eq!(parts[1].frequency, Fraction { numer: 1, denom: 3 });
    assert_eq!(parts[1].ratio, Some(Fraction { numer: 3, denom: 3 }));
    let other = weight_parts(&docs[1], &df);
    assert_eq!(other.len(), 2);
    assert_eq!(other[0].term, "banana");
    assert_eq!(other[0].frequency, Fraction { numer: 1, denom: 2 });
    assert_eq!(other[1].term, "cherry");
    assert_eq!(other[1].ratio, Some(Fraction { numer: 3, denom: 2 }));
}

#[test]
fn weight_parts_of_a_word_outside_the_corpus_have_no_ratio() {
    let docs = vec![doc("doc1", "apple banana")];
    let df = DocumentFrequencies::of_corpus(&docs);
    let stranger = doc("doc3", "durian apple");
    let parts = weight_parts(&stranger, &df);
    assert_eq!(parts.len(), 2);
    assert_eq!(parts[0].term, "durian");
    assert_eq!(parts[0].frequency, Fraction { numer: 1, denom: 2 });
    assert_eq!(parts[0].ratio, None);
    assert_eq!(parts[1].ratio, Some(Fraction { numer: 2, denom: 2 }));
    assert!(weight_parts(&doc("empty", " "), &df).is_empty());
}

#[test]
fn term_in_every_document_has_ratio_one() {
    let docs = vec![
        doc("a", "the cat"),
        doc("b", "The dog and the bird"),
        doc("c", "THE end."),
    ];
    let df = DocumentFrequencies::of_corpus(&docs);
    assert_eq!(df.frequency("the"), 3);
    assert_eq!(df.frequency("the"), df.documents());
    let ratio = df.smoothed_ratio("the").unwrap();
    assert_eq!(ratio, Fraction { numer: 4, denom: 4 });
    let weight = (ratio.numer as f64 / ratio.denom as f64).ln() + 1.0;
    assert_eq!(weight, 1.0);
}

#[test]
fn absent_term_has_frequency_zero() {
    let docs = vec![doc("doc1", "apple apple banana"), doc("doc2", "banana cherry")];
    let df = DocumentFrequencies::of_corpus(&docs);
    assert_eq!(df.frequency("durian"), 0);
    assert_eq!(df.frequency(""), 0);
    assert_eq!(df.smoothed_ratio("durian"), None);
    assert_eq!(docs[0].count("durian"), 0);
}

#[test]
fn empty_corpus_has_no_terms() {
    let docs: Vec<Document> = Vec::new();
    let df = DocumentFrequencies::of_corpus(&docs);
    assert_eq!(df.documents(), 0);
    assert_eq!(df.len(), 0);
    assert_eq!(df.frequency("apple"), 0);
    assert_eq!(df.smoothed_ratio("apple"), None);
}

#[test]
fn empty_document_counts_as_a_document() {
    let docs = vec![doc("a", "x"), doc("b", "")];
    let df = DocumentFrequencies::of_corpus(&docs);
    assert_eq!(df.documents(), 2);
    assert_eq!(df.frequency("x"), 1);
    assert_eq!(df.smoothed_ratio("x"), Some(Fraction { numer: 3, denom: 2 }));
}
