use librarian::doc::DocId;
use librarian::engine::SearchEngine;
use librarian::gram::{idf, Index, IDF_UNIT};
use librarian::rank::rank;

fn score_of(scores: &[(DocId, u128)], id: DocId) -> Option<u128> {
    scores.iter().find(|(d, _)| *d == id).map(|(_, s)| *s)
}

#[test]
fn idf_weight_values() {
    assert_eq!(idf(1, 1), 0);
    assert_eq!(idf(5, 10), 0);
    assert_eq!(idf(2, 1), IDF_UNIT);
    assert_eq!(idf(4, 1), 2 * IDF_UNIT);
    assert_eq!(idf(3, 1), IDF_UNIT + IDF_UNIT / 2);
    assert_eq!(idf(3, 2), IDF_UNIT / 2);
}

#[test]
fn gram_scores_are_exact() {
    let mut index = Index::new(3);
    index.insert(DocId(0), b"abcabc");
    index.insert(DocId(1), b"abc");
    index.insert(DocId(2), b"xyz");
    assert_eq!(index.total_docs(), 3);
    let scores = index.search(b"abc");
    assert_eq!(scores.len(), 2);
    // weight of a gram held by 2 of 3 documents: half a unit
    let w: u128 = IDF_UNIT / 2;
    assert_eq!(score_of(&scores, DocId(0)), Some(w));
    assert_eq!(score_of(&scores, DocId(1)), Some(3 * w / 4));
    assert_eq!(score_of(&scores, DocId(2)), None);
}

#[test]
fn short_query_scores_nothing() {
    let mut index = Index::new(3);
    index.insert(DocId(0), b"abc");
    assert!(index.search(b"ab").is_empty());
    assert!(index.search(b"").is_empty());
}

#[test]
fn empty_index_scores_nothing() {
    let index = Index::new(3);
    assert!(index.search(b"abcdef").is_empty());
    assert_eq!(index.total_docs(), 0);
}

#[test]
fn denser_document_scores_higher() {
    let mut index = Index::new(3);
    index.insert(DocId(0), b"xyz xyz");
    index.insert(DocId(1), b"xyz");
    index.insert(DocId(2), b"qqq");
    let scores = index.search(b"xyz");
    let s0 = score_of(&scores, DocId(0)).unwrap();
    let s1 = score_of(&scores, DocId(1)).unwrap();
    assert!(s0 > s1);
    let ranked = rank(&scores, 10);
    assert_eq!(ranked[0].0, DocId(0));
    assert_eq!(ranked[1].0, DocId(1));
}

#[test]
fn gram_held_by_every_document_weighs_nothing() {
    let mut index = Index::new(3);
    index.insert(DocId(0), b"abc");
    index.insert(DocId(1), b"abc");
    let scores = index.search(b"abc");
    assert_eq!(score_of(&scores, DocId(0)), Some(0));
    assert_eq!(score_of(&scores, DocId(1)), Some(0));
}

#[test]
fn insert_many_counts_one_document() {
    let mut index = Index::new(3);
    index.insert_many(DocId(7), &vec![b"knuth".to_vec(), b"knuth".to_vec()]);
    assert_eq!(index.total_docs(), 1);
    index.insert(DocId(8), b"other");
    let scores = index.search(b"knu");
    assert!(score_of(&scores, DocId(7)).unwrap() > 0);
    assert_eq!(score_of(&scores, DocId(8)), None);
}

#[test]
fn remove_takes_document_out() {
    let mut index = Index::new(3);
    index.insert(DocId(0), b"abcabc");
    index.insert(DocId(1), b"abc");
    index.remove(DocId(0));
    assert_eq!(index.total_docs(), 1);
    let scores = index.search(b"abc");
    assert_eq!(score_of(&scores, DocId(0)), None);
    assert_eq!(score_of(&scores, DocId(1)), Some(0));
}

#[test]
fn rank_orders_by_score_then_identity() {
    let cands = vec![(DocId(3), 5u128), (DocId(1), 9), (DocId(2), 5), (DocId(0), 1)];
    let ranked = rank(&cands, 10);
    assert_eq!(ranked, vec![(DocId(1), 9), (DocId(2), 5), (DocId(3), 5), (DocId(0), 1)]);
    let top = rank(&cands, 2);
    assert_eq!(top, vec![(DocId(1), 9), (DocId(2), 5)]);
    assert!(rank(&cands, 0).is_empty());
}

#[test]
fn engine_sums_fields_and_ignores_case() {
    let mut engine = SearchEngine::new();
    let doc = librarian::doc::Doc {
        title: String::from("Knuth Volume"),
        authors: vec![String::from("Donald KNUTH")],
        keywords: vec![],
        extension: String::from("pdf"),
        show: true,
        hash: librarian::DocHash([0u8; 32]),
    };
    let other = librarian::doc::Doc {
        title: String::from("Other"),
        authors: vec![String::from("Someone")],
        keywords: vec![String::from("misc")],
        extension: String::from("pdf"),
        show: true,
        hash: librarian::DocHash([1u8; 32]),
    };
    let third = librarian::doc::Doc {
        title: String::from("Third"),
        authors: vec![],
        keywords: vec![],
        extension: String::from("pdf"),
        show: true,
        hash: librarian::DocHash([2u8; 32]),
    };
    engine.insert(DocId(0), &doc);
    engine.insert(DocId(1), &other);
    engine.insert(DocId(2), &third);
    let all = engine.scores("KNUTH");
    let title_only = {
        let mut t = Index::new(3);
        t.insert(DocId(0), b"knuth volume");
        t.insert(DocId(1), b"other");
        t.insert(DocId(2), b"third");
        score_of(&t.search(b"knuth"), DocId(0)).unwrap()
    };
    assert!(score_of(&all, DocId(0)).unwrap() > title_only);
    let found = engine.search("knuth", 5);
    assert_eq!(found.len(), 1);
    assert_eq!(found[0].0, DocId(0));
}
