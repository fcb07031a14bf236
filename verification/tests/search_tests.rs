use tfidf_search::corpus::{weight_parts, Document, DocumentFrequencies, Fraction};
use tfidf_search::index::{ScoredDocument, SearchIndex, TermScore};
use tfidf_search::postings::{insert_posting, top, Posting};
use tfidf_search::score::{key_bits, score_key};
use tfidf_search::search::{
    conclude, rank, ranks_above, search, SearchHit, SearchOutcome, MAX_RESULTS, PER_TERM,
};

fn key(x: f64) -> u64 {
    score_key(x.to_bits()).unwrap()
}

fn value(k: u64) -> f64 {
    f64::from_bits(key_bits(k))
}

fn scored(id: &str, scores: &[(&str, f64)]) -> ScoredDocument {
    ScoredDocument {
        id: id.to_string(),
        scores: scores
            .iter()
            .map(|(term, score)| TermScore { term: term.to_string(), score: key(*score) })
            .collect(),
    }
}

fn hit(doc: &str, term: &str, score: f64) -> SearchHit {
    SearchHit { doc: doc.to_string(), term: term.to_string(), score: key(score) }
}

fn hits(outcome: SearchOutcome) -> Vec<(String, String, f64)> {
    match outcome {
        SearchOutcome::NoMatches => Vec::new(),
        SearchOutcome::Hits(hits) => {
            hits.into_iter().map(|h| (h.doc, h.term, value(h.score))).collect()
        }
    }
}

fn triples(hits: Vec<SearchHit>) -> Vec<(String, String, f64)> {
    hits.into_iter().map(|h| (h.doc, h.term, value(h.score))).collect()
}

fn triple(doc: &str, term: &str, score: f64) -> (String, String, f64) {
    (doc.to_string(), term.to_string(), score)
}

fn postings(list: &Vec<Posting>) -> Vec<(f64, String)> {
    list.iter().map(|p| (value(p.score), p.doc.clone())).collect()
}

// The weights of a corpus: term frequency times smoothed inverse document
// frequency, each document's vector scaled to length one.
fn weigh(texts: &[(&str, &str)]) -> Vec<ScoredDocument> {
    let docs: Vec<Document> =
        texts.iter().map(|(id, text)| Document::from_text(id.to_string(), text)).collect();
    let df = DocumentFrequencies::of_corpus(&docs);
    let mut out = Vec::new();
    for doc in docs.iter() {
        let mut raw: Vec<(String, f64)> = Vec::new();
        for parts in weight_parts(doc, &df) {
            let idf = match parts.ratio {
                Some(ratio) => quotient(ratio).ln() + 1.0,
                None => 0.0,
            };
            raw.push((parts.term, quotient(parts.frequency) * idf));
        }
        let norm = raw.iter().map(|(_, w)| w * w).sum::<f64>().sqrt();
        out.push(ScoredDocument {
            id: doc.id().clone(),
            scores: raw
                .into_iter()
                .map(|(term, w)| TermScore { term, score: key(w / norm) })
                .collect(),
        });
    }
    out
}

fn quotient(f: Fraction) -> f64 {
    f.numer as f64 / f.denom as f64
}

fn fruit_corpus() -> Vec<ScoredDocument> {
    weigh(&[("doc1", "apple apple banana"), ("doc2", "banana cherry")])
}

#[test]
fn normalised_weights_have_length_one() {
    for doc in fruit_corpus().iter() {
        let sum: f64 = doc.scores.iter().map(|s| value(s.score) * value(s.score)).sum();
        assert!((sum - 1.0).abs() < 1e-12, "{}", sum);
    }
}

#[test]
fn query_for_an_exact_term_with_one_document() {
    let index = SearchIndex::build(&fruit_corpus());
    let found = hits(search(&index, "apple"));
    assert_eq!(found.len(), 1);
    assert_eq!(found[0].0, "doc1");
    assert_eq!(found[0].1, "apple");
    let idf = (3.0f64 / 2.0).ln() + 1.0;
    let apple = 2.0 / 3.0 * idf;
    let banana = 1.0 / 3.0 * 1.0;
    let expected = apple / (apple * apple + banana * banana).sqrt();
    assert!((found[0].2 - expected).abs() < 1e-12);
    assert!((found[0].2 - 0.9421556).abs() < 1e-6);
}

#[test]
fn query_for_a_term_in_both_documents() {
    let index = SearchIndex::build(&fruit_corpus());
    let found = hits(search(&index, "banana"));
    assert_eq!(found.len(), 2);
    assert_eq!((found[0].0.as_str(), found[0].1.as_str()), ("doc2", "banana"));
    assert_eq!((found[1].0.as_str(), found[1].1.as_str()), ("doc1", "banana"));
    assert!(found[0].2 > found[1].2);
    assert!((found[0].2 - 0.5797386).abs() < 1e-6);
    assert!((found[1].2 - 0.3351757).abs() < 1e-6);
}

#[test]
fn query_is_normalised_before_the_search() {
    let index = SearchIndex::build(&fruit_corpus());
    let found = hits(search(&index, "B.A.N.A.N.A!"));
    assert_eq!(found.len(), 2);
    assert_eq!(found[0].1, "banana");
    let shouted = hits(search(&index, "APPLE"));
    assert_eq!(shouted.len(), 1);
    assert_eq!(shouted[0].0, "doc1");
}

#[test]
fn prefix_query_ranks_by_score_alone() {
    let docs = vec![
        scored("d1", &[("apple", 0.5), ("apply", 0.7), ("banana", 0.9)]),
        scored("d2", &[("apple", 0.8), ("apricot", 0.6), ("ape", 0.3)]),
    ];
    let index = SearchIndex::build(&docs);
    let found = hits(search(&index, "ap"));
    assert_eq!(
        found,
        vec![
            triple("d2", "apple", 0.8),
            triple("d1", "apply", 0.7),
            triple("d2", "apricot", 0.6),
            triple("d1", "apple", 0.5),
            triple("d2", "ape", 0.3),
        ]
    );
}

#[test]
fn prefix_query_on_the_fruit_corpus() {
    let index = SearchIndex::build(&fruit_corpus());
    let found = hits(search(&index, "ap"));
    assert_eq!(found.len(), 1);
    assert_eq!((found[0].0.as_str(), found[0].1.as_str()), ("doc1", "apple"));
    let wider = hits(search(&index, "b"));
    assert_eq!(wider.len(), 2);
    assert!(wider.iter().all(|h| h.1 == "banana"));
}

#[test]
fn exact_matches_stand_before_longer_terms() {
    let docs = vec![
        scored("d1", &[("app", 0.1), ("apple", 0.9)]),
        scored("d2", &[("app", 0.2), ("application", 0.95)]),
        scored("d3", &[("apple", 0.4)]),
    ];
    let index = SearchIndex::build(&docs);
    let found = hits(search(&index, "app"));
    assert_eq!(
        found,
        vec![
            triple("d2", "app", 0.2),
            triple("d1", "app", 0.1),
            triple("d2", "application", 0.95),
            triple("d1", "apple", 0.9),
            triple("d3", "apple", 0.4),
        ]
    );
}

#[test]
fn empty_corpus_gives_no_matches() {
    let index = SearchIndex::build(&Vec::new());
    assert_eq!(index.len(), 0);
    assert!(matches!(search(&index, "apple"), SearchOutcome::NoMatches));
    assert!(matches!(search(&index, ""), SearchOutcome::NoMatches));
    let weighed = weigh(&[]);
    assert!(weighed.is_empty());
}

#[test]
fn query_without_a_matching_term_gives_no_matches() {
    let index = SearchIndex::build(&fruit_corpus());
    assert!(matches!(search(&index, "durian"), SearchOutcome::NoMatches));
    assert!(matches!(search(&index, "apples"), SearchOutcome::NoMatches));
    assert!(matches!(search(&index, "pple"), SearchOutcome::NoMatches));
}

#[test]
fn empty_query_matches_every_term() {
    let index = SearchIndex::build(&fruit_corpus());
    assert_eq!(index.len(), 3);
    let found = hits(search(&index, "?!"));
    assert_eq!(found.len(), 4);
    for pair in found.windows(2) {
        assert!(pair[0].2 >= pair[1].2);
    }
}

#[test]
fn prefix_is_taken_by_bytes() {
    let docs = vec![scored("d1", &[("\u{e9}cole", 0.5), ("\u{e8}re", 0.4), ("ecole", 0.3)])];
    let index = SearchIndex::build(&docs);
    let found = hits(search(&index, "\u{c9}"));
    assert_eq!(found, vec![triple("d1", "\u{e9}cole", 0.5)]);
}

#[test]
fn each_term_gives_at_most_nine() {
    let mut docs = Vec::new();
    for i in 0..20 {
        docs.push(scored(&format!("d{}", i), &[("term", (i as f64 + 1.0) / 32.0)]));
    }
    let index = SearchIndex::build(&docs);
    let found = hits(search(&index, "term"));
    assert_eq!(found.len(), PER_TERM);
    for (k, h) in found.iter().enumerate() {
        assert_eq!(h.0, format!("d{}", 19 - k));
        assert_eq!(h.2, (20.0 - k as f64) / 32.0);
    }
}

#[test]
fn results_stop_at_one_hundred() {
    let mut docs = Vec::new();
    for i in 0..30 {
        let mut scores = Vec::new();
        for t in 0..15 {
            scores.push(TermScore {
                term: format!("word{:02}", t),
                score: key((i * 15 + t + 1) as f64 / 1024.0),
            });
        }
        docs.push(ScoredDocument { id: format!("d{}", i), scores });
    }
    let index = SearchIndex::build(&docs);
    let found = hits(search(&index, "word"));
    assert_eq!(found.len(), MAX_RESULTS);
    for pair in found.windows(2) {
        assert!(pair[0].2 > pair[1].2);
    }
    assert_eq!(found[0], triple("d29", "word14", 450.0 / 1024.0));
    assert_eq!(found[99], triple("d23", "word05", 351.0 / 1024.0));
    let exact = hits(search(&index, "word03"));
    assert_eq!(exact.len(), PER_TERM);
    assert_eq!(exact[0], triple("d29", "word03", 439.0 / 1024.0));
}

#[test]
fn of_two_documents_with_one_score_the_later_stays() {
    let docs = vec![
        scored("first", &[("tie", 0.5), ("solo", 0.25)]),
        scored("second", &[("tie", 0.5)]),
        scored("third", &[("tie", 0.75)]),
    ];
    let index = SearchIndex::build(&docs);
    let found = hits(search(&index, "tie"));
    assert_eq!(found, vec![triple("third", "tie", 0.75), triple("second", "tie", 0.5)]);
}

#[test]
fn insert_posting_keeps_the_list_ascending() {
    let mut list: Vec<Posting> = Vec::new();
    insert_posting(&mut list, Posting { score: key(0.5), doc: "a".to_string() });
    insert_posting(&mut list, Posting { score: key(0.25), doc: "b".to_string() });
    insert_posting(&mut list, Posting { score: key(0.75), doc: "c".to_string() });
    insert_posting(&mut list, Posting { score: key(0.5), doc: "d".to_string() });
    assert_eq!(
        postings(&list),
        vec![(0.25, "b".to_string()), (0.5, "d".to_string()), (0.75, "c".to_string())]
    );
}

#[test]
fn top_takes_from_the_high_end() {
    let mut list: Vec<Posting> = Vec::new();
    for i in 1..=5 {
        insert_posting(&mut list, Posting { score: key(i as f64), doc: format!("d{}", i) });
    }
    assert_eq!(postings(&top(&list, 2)), vec![(5.0, "d5".to_string()), (4.0, "d4".to_string())]);
    assert_eq!(postings(&top(&list, 9)).len(), 5);
    assert_eq!(postings(&top(&list, 9))[4], (1.0, "d1".to_string()));
    assert!(top(&list, 0).is_empty());
    assert!(top(&Vec::new(), 9).is_empty());
}

#[test]
fn ranks_above_puts_exactness_before_score() {
    let query = "app".to_string();
    let exact_low = hit("d1", "app", 0.1);
    let exact_high = hit("d2", "app", 0.2);
    let longer_high = hit("d3", "apple", 0.9);
    let longer_low = hit("d4", "apply", 0.3);
    assert!(ranks_above(&exact_low, &longer_high, &query));
    assert!(!ranks_above(&longer_high, &exact_low, &query));
    assert!(ranks_above(&exact_high, &exact_low, &query));
    assert!(!ranks_above(&exact_low, &exact_high, &query));
    assert!(ranks_above(&longer_high, &longer_low, &query));
    assert!(!ranks_above(&longer_low, &longer_high, &query));
    assert!(!ranks_above(&exact_low, &exact_low, &query));
    assert!(!ranks_above(&longer_low, &hit("d5", "apt", 0.3), &query));
}

#[test]
fn rank_is_the_stable_sort_read_backwards() {
    let cands = vec![
        hit("a", "apple", 0.5),
        hit("b", "app", 0.2),
        hit("c", "apply", 0.5),
        hit("d", "app", 0.7),
        hit("e", "apt", 0.9),
        hit("f", "apple", 0.5),
    ];
    let mut expected = triples(cands.iter().map(|h| h.clone()).collect());
    expected.sort_by(|x, y| {
        let (xe, ye) = (x.1 == "app", y.1 == "app");
        xe.cmp(&ye).then(x.2.partial_cmp(&y.2).unwrap())
    });
    expected.reverse();
    assert_eq!(triples(rank(&cands, "app")), expected);
    assert_eq!(
        triples(rank(&cands, "app")),
        vec![
            triple("d", "app", 0.7),
            triple("b", "app", 0.2),
            triple("e", "apt", 0.9),
            triple("f", "apple", 0.5),
            triple("c", "apply", 0.5),
            triple("a", "apple", 0.5),
        ]
    );
}

#[test]
fn rank_keeps_the_best_hundred() {
    let mut cands = Vec::new();
    for i in 0..250 {
        cands.push(hit(&format!("d{}", i), "term", ((i * 37) % 251) as f64));
    }
    let mut expected = triples(cands.iter().map(|h| h.clone()).collect());
    expected.sort_by(|x, y| x.2.partial_cmp(&y.2).unwrap());
    expected.reverse();
    expected.truncate(100);
    let best = triples(rank(&cands, "term"));
    assert_eq!(best.len(), 100);
    assert_eq!(best, expected);
}

#[test]
fn conclude_tells_no_matches_from_hits() {
    assert!(matches!(conclude(&Vec::new(), "x"), SearchOutcome::NoMatches));
    let one = vec![hit("d", "x", 0.5)];
    match conclude(&one, "x") {
        SearchOutcome::Hits(found) => assert_eq!(triples(found), vec![triple("d", "x", 0.5)]),
        SearchOutcome::NoMatches => panic!("one candidate gives one hit"),
    }
}

#[test]
fn candidates_come_term_by_term() {
    let docs = vec![
        scored("d1", &[("cat", 0.5), ("car", 0.25)]),
        scored("d2", &[("cat", 0.75)]),
    ];
    let index = SearchIndex::build(&docs);
    let mut found = triples(index.candidates_for("ca"));
    assert_eq!(found.len(), 3);
    let cats: Vec<f64> = found.iter().filter(|h| h.1 == "cat").map(|h| h.2).collect();
    assert_eq!(cats, vec![0.75, 0.5]);
    found.sort_by(|x, y| x.2.partial_cmp(&y.2).unwrap());
    assert_eq!(
        found,
        vec![triple("d1", "car", 0.25), triple("d1", "cat", 0.5), triple("d2", "cat", 0.75)]
    );
    assert!(index.candidates_for("dog").is_empty());
}
