use inverted_index::document::DocumentId;
use inverted_index::segments::Book;
use inverted_index::segments::PlainTextSegmenter;
use inverted_index::segments::SegmentKind;
use inverted_index::segments::Segmenter;
use inverted_index::segments::Segments;
use inverted_index::segments::TermPosition;
use inverted_index::segments::segment_book;
use inverted_index::segment_index::SegmentIndex;
use inverted_index::segment_index::calculate_weight_tenths;
use inverted_index::segment_index::rank_documents;
use inverted_index::query::parse_logic_expr;
use inverted_index::tfidf::TfIdfIndex;

#[test]
fn segment_kinds_in_ordinal_order() {
    let vs = SegmentKind::values();
    assert_eq!(vs.len(), 5);
    for (i, k) in vs.iter().enumerate() {
        assert_eq!(k.ordinal() as usize, i);
    }
}

#[test]
fn segment_weights_in_tenths() {
    assert_eq!(SegmentKind::Filename.weight_tenths(), 2);
    assert_eq!(SegmentKind::Title.weight_tenths(), 4);
    assert_eq!(SegmentKind::Authors.weight_tenths(), 1);
    assert_eq!(SegmentKind::Body.weight_tenths(), 2);
    assert_eq!(SegmentKind::Epigraph.weight_tenths(), 1);
}

#[test]
fn segments_group_runs_by_kind() {
    let mut s = Segments::new();
    s.add(SegmentKind::Body, String::from("first"));
    s.add(SegmentKind::Title, String::from("the title"));
    s.add(SegmentKind::Body, String::from("second"));
    let body = s.get(SegmentKind::Body).unwrap();
    assert_eq!(body.len(), 2);
    assert_eq!(body[0], "first");
    assert_eq!(body[1], "second");
    let title = s.get(SegmentKind::Title).unwrap();
    assert_eq!(title.len(), 1);
    assert!(s.get(SegmentKind::Epigraph).is_none());
    assert_eq!(s.iter().len(), 2);
}

#[test]
fn plain_text_is_one_body_run() {
    let seg = PlainTextSegmenter::new(String::from("all the text"));
    let s = seg.segment().unwrap();
    let body = s.get(SegmentKind::Body).unwrap();
    assert_eq!(body.len(), 1);
    assert_eq!(body[0], "all the text");
}

#[test]
fn book_segments_by_region() {
    let book = Book {
        title: String::from("a book"),
        authors: vec![String::from("first author"), String::from("second author")],
        paragraphs: vec![String::from("opening"), String::from("closing")],
    };
    let path = vec![String::from("data"), String::from("book.fb2")];
    let s = segment_book(book, path);
    assert_eq!(s.get(SegmentKind::Title).unwrap().len(), 1);
    assert_eq!(s.get(SegmentKind::Authors).unwrap().len(), 2);
    assert_eq!(s.get(SegmentKind::Body).unwrap().len(), 2);
    let files = s.get(SegmentKind::Filename).unwrap();
    assert_eq!(files.len(), 2);
    assert_eq!(files[1], "book.fb2");
}

#[test]
fn term_position_carries_document_and_kind() {
    let p = TermPosition { document: DocumentId(3), segment_kind: SegmentKind::Title };
    assert_eq!(p.document.id(), 3);
    assert_eq!(p.segment_kind.ordinal(), 1);
}

#[test]
fn tfidf_counts_terms_per_document() {
    let mut idx = TfIdfIndex::new();
    idx.add_term(String::from("tea"), DocumentId(0));
    idx.add_term(String::from("tea"), DocumentId(0));
    idx.add_term(String::from("pot"), DocumentId(0));
    idx.add_term(String::from("tea"), DocumentId(1));
    assert_eq!(idx.term_count(), 2);
    assert_eq!(idx.document_term_count(DocumentId(0)), 3);
    assert_eq!(idx.document_term_count(DocumentId(1)), 1);
    assert_eq!(idx.document_term_count(DocumentId(9)), 0);
    let tea = idx.term_documents("tea");
    assert!(tea.contains(0) && tea.contains(1));
    let pot = idx.term_documents("pot");
    assert!(pot.contains(0) && !pot.contains(1));
    let mut terms = idx.terms();
    terms.sort();
    assert_eq!(terms, vec!["pot", "tea"]);
}

#[test]
fn tfidf_merge_sums_counts() {
    let mut a = TfIdfIndex::new();
    a.add_term(String::from("tea"), DocumentId(0));
    let mut b = TfIdfIndex::new();
    b.add_term(String::from("tea"), DocumentId(0));
    b.add_term(String::from("tea"), DocumentId(1));
    a.merge(&b);
    assert_eq!(a.document_term_count(DocumentId(0)), 2);
    assert_eq!(a.document_term_count(DocumentId(1)), 1);
    assert_eq!(a.term_count(), 1);
}

#[test]
fn segment_index_distinguishes_regions() {
    let mut idx = SegmentIndex::new();
    let in_title = TermPosition { document: DocumentId(0), segment_kind: SegmentKind::Title };
    let in_body = TermPosition { document: DocumentId(0), segment_kind: SegmentKind::Body };
    idx.add_term(String::from("tea"), in_title);
    idx.add_term(String::from("tea"), in_body);
    idx.add_term(String::from("tea"), in_body);
    assert_eq!(idx.unique_word_count(), 1);
    let hits = idx.term_positions("tea");
    assert_eq!(hits.len(), 2);
    assert!(hits.contains(in_title));
    assert!(hits.contains(in_body));
}

#[test]
fn segment_index_merge_unites_locations() {
    let mut a = SegmentIndex::new();
    a.add_term(
        String::from("tea"),
        TermPosition { document: DocumentId(0), segment_kind: SegmentKind::Body },
    );
    let mut b = SegmentIndex::new();
    b.add_term(
        String::from("tea"),
        TermPosition { document: DocumentId(1), segment_kind: SegmentKind::Title },
    );
    b.add_term(
        String::from("pot"),
        TermPosition { document: DocumentId(1), segment_kind: SegmentKind::Body },
    );
    a.merge(&b);
    assert_eq!(a.unique_word_count(), 2);
    assert_eq!(a.term_positions("tea").len(), 2);
}

#[test]
fn segment_index_answers_terms_only() {
    let mut idx = SegmentIndex::new();
    idx.add_term(
        String::from("tea"),
        TermPosition { document: DocumentId(0), segment_kind: SegmentKind::Body },
    );
    let term = idx.query(&parse_logic_expr("tea").unwrap()).unwrap();
    assert_eq!(term.len(), 1);
    assert!(idx.query(&parse_logic_expr("tea & pot").unwrap()).is_err());
}

#[test]
fn weights_sum_in_tenths() {
    let kinds = vec![SegmentKind::Title, SegmentKind::Body, SegmentKind::Authors];
    assert_eq!(calculate_weight_tenths(&kinds), 7);
    let none: Vec<SegmentKind> = Vec::new();
    assert_eq!(calculate_weight_tenths(&none), 0);
}

#[test]
fn tfidf_counts_term_per_document() {
    let mut idx = TfIdfIndex::new();
    idx.add_term(String::from("tea"), DocumentId(0));
    idx.add_term(String::from("tea"), DocumentId(0));
    idx.add_term(String::from("pot"), DocumentId(0));
    idx.add_term(String::from("tea"), DocumentId(1));
    assert_eq!(idx.term_document_count("tea", DocumentId(0)), 2);
    assert_eq!(idx.term_document_count("tea", DocumentId(1)), 1);
    assert_eq!(idx.term_document_count("pot", DocumentId(1)), 0);
    assert_eq!(idx.term_document_count("cup", DocumentId(0)), 0);
}

#[test]
fn tfidf_mergeable_within_bounds() {
    let mut a = TfIdfIndex::new();
    a.add_term(String::from("tea"), DocumentId(0));
    let mut b = TfIdfIndex::new();
    b.add_term(String::from("tea"), DocumentId(0));
    b.add_term(String::from("pot"), DocumentId(1));
    assert!(a.mergeable(&b));
    a.merge(&b);
    assert_eq!(a.term_document_count("tea", DocumentId(0)), 2);
    assert_eq!(a.term_document_count("pot", DocumentId(1)), 1);
}

#[test]
fn ranked_documents_sum_kind_weights() {
    let mut idx = SegmentIndex::new();
    idx.add_term(
        String::from("tea"),
        TermPosition { document: DocumentId(0), segment_kind: SegmentKind::Title },
    );
    idx.add_term(
        String::from("tea"),
        TermPosition { document: DocumentId(0), segment_kind: SegmentKind::Body },
    );
    idx.add_term(
        String::from("tea"),
        TermPosition { document: DocumentId(0), segment_kind: SegmentKind::Body },
    );
    idx.add_term(
        String::from("tea"),
        TermPosition { document: DocumentId(2), segment_kind: SegmentKind::Authors },
    );
    let hits = idx.term_positions("tea");
    let ranked = rank_documents(&hits);
    // one row per document, ascending by id; title 0.4 + body 0.2 = 0.6 tenths-wise
    assert_eq!(ranked.len(), 2);
    assert_eq!(ranked[0].0, DocumentId(0));
    assert_eq!(ranked[0].1, 6);
    assert_eq!(ranked[1].0, DocumentId(2));
    assert_eq!(ranked[1].1, 1);
}

#[test]
fn ranked_documents_empty_for_unknown_term() {
    let idx = SegmentIndex::new();
    let hits = idx.term_positions("tea");
    assert_eq!(rank_documents(&hits).len(), 0);
}
