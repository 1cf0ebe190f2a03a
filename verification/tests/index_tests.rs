use inverted_index::builder::add_file_to_doc_index;
use inverted_index::builder::add_file_to_index;
use inverted_index::doc_index::IndexError;
use inverted_index::doc_index::InvertedIndex;
use inverted_index::document::DocumentId;
use inverted_index::positional_index::PositionalIndex;
use inverted_index::query::parse_logic_expr;
use inverted_index::two_word_index::TwoWordIndex;

#[test]
fn boolean_and_not() {
    // Documents: d1 holds a; d2 holds a and b; d3 holds b.
    let mut idx = InvertedIndex::new();
    idx.add_term(String::from("a"), DocumentId(1));
    idx.add_term(String::from("a"), DocumentId(2));
    idx.add_term(String::from("b"), DocumentId(2));
    idx.add_term(String::from("b"), DocumentId(3));
    let ast = parse_logic_expr("a & !b").unwrap();
    let r = idx.query(&ast).unwrap();
    assert!(r.contains(1));
    assert!(!r.contains(2));
    assert!(!r.contains(3));
    assert_eq!(r.len(), 1);
}

#[test]
fn boolean_or_subtract() {
    let mut idx = InvertedIndex::new();
    idx.add_term(String::from("a"), DocumentId(1));
    idx.add_term(String::from("b"), DocumentId(2));
    idx.add_term(String::from("c"), DocumentId(2));
    let or = idx.query(&parse_logic_expr("a | b").unwrap()).unwrap();
    assert!(or.contains(1) && or.contains(2));
    let sub = idx.query(&parse_logic_expr("b \\ c").unwrap()).unwrap();
    assert_eq!(sub.len(), 0);
}

#[test]
fn doc_index_rejects_near() {
    let mut idx = InvertedIndex::new();
    idx.add_term(String::from("a"), DocumentId(1));
    let r = idx.query(&parse_logic_expr("a > a").unwrap());
    assert_eq!(r.err(), Some(IndexError::Unsupported));
}

#[test]
fn doc_index_merge_unites() {
    let (mut x, _) = add_file_to_doc_index(DocumentId(0), "sun moon").unwrap();
    let (y, _) = add_file_to_doc_index(DocumentId(1), "moon star").unwrap();
    x.merge(&y);
    let moon = x.term_positions("moon");
    assert!(moon.contains(0) && moon.contains(1));
    assert_eq!(x.unique_word_count(), 3);
}

#[test]
fn phrase_next_matches_adjacent_only() {
    // d0: "a b c" has a immediately before b; d1: "b a" does not.
    let (p0, _, _) = add_file_to_index(DocumentId(0), "a b c").unwrap();
    let (mut p1, _, _) = add_file_to_index(DocumentId(1), "b a").unwrap();
    let (p2, _, _) = add_file_to_index(DocumentId(2), "a x b").unwrap();
    p1.merge(&p0);
    p1.merge(&p2);
    let ast = parse_logic_expr("a > b").unwrap();
    let r = p1.query(&ast);
    assert!(r.contains(0));
    assert!(!r.contains(1));
    assert!(!r.contains(2));
}

#[test]
fn near_within_distance() {
    let (idx, _, _) = add_file_to_index(DocumentId(0), "a x b").unwrap();
    let near1 = idx.query(&parse_logic_expr("a {1} b").unwrap());
    assert!(!near1.contains(0));
    let near2 = idx.query(&parse_logic_expr("a {2} b").unwrap());
    assert!(near2.contains(0));
}

#[test]
fn positional_not_uses_universe() {
    let (mut p0, _, _) = add_file_to_index(DocumentId(0), "a b").unwrap();
    let (p1, _, _) = add_file_to_index(DocumentId(1), "b c").unwrap();
    p0.merge(&p1);
    let r = p0.query(&parse_logic_expr("!a").unwrap());
    assert!(!r.contains(0));
    assert!(r.contains(1));
}

#[test]
fn positional_counts() {
    let (idx, _, _) = add_file_to_index(DocumentId(4), "tea pot tea").unwrap();
    assert_eq!(idx.unique_word_count(), 2);
    let tp = idx.get_term_positions("tea");
    let docs = tp.documents();
    assert!(docs.contains(4));
    assert_eq!(tp.positions_count(), 2);
    let ps = tp.positions(4).unwrap();
    assert!(ps.contains(0) && ps.contains(2) && !ps.contains(1));
    assert!(tp.positions(9).is_none());
}

#[test]
fn two_word_index_records_adjacent_pairs() {
    let mut two = TwoWordIndex::new();
    two.add_term(String::from("a"), DocumentId(0));
    two.add_term(String::from("b"), DocumentId(0));
    two.add_term(String::from("a"), DocumentId(0));
    assert_eq!(two.unique_word_count(), 2);
    let ab = two.get_term_documents("a_b");
    assert!(ab.contains(0));
    let ba = two.get_term_documents("b_a");
    assert!(ba.contains(0));
    let ac = two.get_term_documents("a_c");
    assert_eq!(ac.len(), 0);
}

#[test]
fn two_word_index_ignores_document_changes() {
    let mut two = TwoWordIndex::new();
    two.add_term(String::from("a"), DocumentId(0));
    two.add_term(String::from("b"), DocumentId(1));
    let ab = two.get_term_documents("a_b");
    assert_eq!(ab.len(), 0);
}

#[test]
fn two_word_query_answers_phrase_next() {
    let (_, two0, _) = add_file_to_index(DocumentId(0), "a b c").unwrap();
    let (_, mut two1, _) = add_file_to_index(DocumentId(1), "b a").unwrap();
    two1.merge(&two0);
    let ast = parse_logic_expr("a > b").unwrap();
    let r = two1.query(&ast).unwrap();
    assert!(r.contains(0));
    assert!(!r.contains(1));
}

#[test]
fn two_word_query_rejects_single_terms() {
    let two = TwoWordIndex::new();
    let r = two.query(&parse_logic_expr("a").unwrap());
    assert_eq!(r.err(), Some(IndexError::Unsupported));
    let far = two.query(&parse_logic_expr("a {2} b").unwrap());
    assert_eq!(far.err(), Some(IndexError::Unsupported));
}

#[test]
fn near_and_bigram_agree() {
    // The phrase-next operator and the two-word key lookup answer alike.
    let texts = ["a b c", "b a", "c a b", "a x b"];
    for (i, text) in texts.iter().enumerate() {
        let (pos, two, _) = add_file_to_index(DocumentId(i), text).unwrap();
        let ast = parse_logic_expr("a > b").unwrap();
        let from_pos = pos.query(&ast).contains(i);
        let from_two = two.query(&ast).unwrap().contains(i);
        assert_eq!(from_pos, from_two);
    }
}

#[test]
fn merge_order_gives_same_positional_answers() {
    let (a, _, _) = add_file_to_index(DocumentId(0), "x y").unwrap();
    let (b, _, _) = add_file_to_index(DocumentId(1), "y z").unwrap();
    let mut ab = PositionalIndex::new();
    ab.merge(&a);
    ab.merge(&b);
    let mut ba = PositionalIndex::new();
    ba.merge(&b);
    ba.merge(&a);
    for q in ["x", "y", "z", "x | y", "y & z", "!x"] {
        let ast = parse_logic_expr(q).unwrap();
        let ra = ab.query(&ast);
        let rb = ba.query(&ast);
        for d in 0..2 {
            assert_eq!(ra.contains(d), rb.contains(d));
        }
    }
}

#[test]
fn empty_document_is_skipped() {
    assert!(add_file_to_index(DocumentId(0), "").is_none());
    let idx = InvertedIndex::new();
    assert_eq!(idx.unique_word_count(), 0);
}
