use vstd::prelude::*;
use crate::doc_index::DocMap;
use crate::doc_index::InvertedIndex;
use crate::doc_index::docs_at;
use crate::document::DocumentId;
use crate::lexer::LexerStats;
use crate::lexer::ignored_of;
use crate::lexer::newline_count;
use crate::lexer::tokens_of;
use crate::lexer::tokenize;
use crate::lexer::views_of;
use crate::positional_index::PosIndexMap;
use crate::positional_index::PositionalIndex;
use crate::positional_index::postings_at;
use crate::positions::PosMap;
use crate::positions::TermDocumentPosition;
use crate::positions::in_window;
use crate::positions::pclose;
use crate::positions::pos_at;
use crate::positions::window_hits;
use crate::two_word_index::TwoWordIndex;
use crate::two_word_index::bigram_key;

verus! {

/// The word-ordinal positions at which token `t` occurs in the token list.
pub open spec fn word_positions(ts: Seq<Seq<char>>, t: Seq<char>) -> Set<usize> {
    Set::new(|i: usize| i < ts.len() && ts[i as int] == t)
}

/// The positional postings one document contributes: each of its tokens,
/// keyed by the document with the token's word ordinals.
pub open spec fn pos_index_of(ts: Seq<Seq<char>>, d: usize) -> PosIndexMap {
    Map::new(
        |t: Seq<char>| ts.contains(t),
        |t: Seq<char>| Map::<usize, Set<usize>>::empty().insert(d, word_positions(ts, t)),
    )
}

/// Whether token `a` is immediately followed by token `b` somewhere.
pub open spec fn adjacent_pair(ts: Seq<Seq<char>>, a: Seq<char>, b: Seq<char>) -> bool {
    exists|i: int| 0 <= i < ts.len() - 1 && #[trigger] ts[i] == a && ts[i + 1] == b
}

/// The two-word postings one document contributes: each adjacent pair of its
/// tokens, joined by an underscore, keyed with this document alone.
pub open spec fn bigram_docs_of(ts: Seq<Seq<char>>, d: usize) -> DocMap {
    Map::new(
        |k: Seq<char>| exists|i: int|
            0 <= i < ts.len() - 1 && bigram_key(#[trigger] ts[i], ts[i + 1]) == k,
        |k: Seq<char>| Set::<usize>::empty().insert(d),
    )
}

/// The document-set postings one document contributes: each of its tokens,
/// keyed with this document alone.
pub open spec fn doc_index_of(ts: Seq<Seq<char>>, d: usize) -> DocMap {
    Map::new(|t: Seq<char>| ts.contains(t), |t: Seq<char>| Set::<usize>::empty().insert(d))
}

proof fn lemma_contains_take(ts: Seq<Seq<char>>, j: int, t: Seq<char>)
    requires
        0 <= j <= ts.len(),
    ensures
        ts.take(j).contains(t) <==> exists|i: int| 0 <= i < j && ts[i] == t,
{
    if ts.take(j).contains(t) {
        let i = choose|i: int| 0 <= i < j && #[trigger] ts.take(j)[i] == t;
        assert(ts[i] == t);
    }
    if exists|i: int| 0 <= i < j && ts[i] == t {
        let i = choose|i: int| 0 <= i < j && #[trigger] ts[i] == t;
        assert(ts.take(j)[i] == t);
    }
}

/// Builds the positional and two-word indexes of one document, with the
/// tokeniser's statistics. An empty document is skipped: the result is
/// `None` exactly when the text is empty.
pub fn add_file_to_index(document_id: DocumentId, contents: &str) -> (r: Option<
    (PositionalIndex, TwoWordIndex, LexerStats),
>)
    requires
        contents@.len() < usize::MAX,
    ensures
        r is None <==> contents@.len() == 0,
        r matches Some(out) ==> ({
            let ts = tokens_of(contents@);
            &&& out.0.wf()
            &&& out.0.tmap() == pos_index_of(ts, document_id.0)
            &&& out.1.wf()
            &&& out.1.tmap() == bigram_docs_of(ts, document_id.0)
            &&& out.2.characters_read == contents@.len()
            &&& out.2.characters_ignored == ignored_of(contents@)
            &&& out.2.lines == 1 + newline_count(contents@)
        }),
{
    if contents.is_empty() {
        return None;
    }
    let (tokens, stats) = tokenize(contents);
    let ghost ts = views_of(tokens@);
    let d = document_id.0;
    let mut pos = PositionalIndex::new();
    let mut two = TwoWordIndex::new();
    let n = tokens.len();
    let mut j: usize = 0;
    proof {
        assert(ts.take(0) =~= Seq::<Seq<char>>::empty());
        assert(pos.tmap() =~~= pos_index_of(ts.take(0), d));
        assert(two.tmap() =~~= bigram_docs_of(ts.take(0), d));
    }
    while j < n
        invariant
            pos.wf(),
            two.wf(),
            n == tokens@.len(),
            ts == views_of(tokens@),
            ts.len() == n,
            j <= n,
            d == document_id.0,
            pos.tmap() == pos_index_of(ts.take(j as int), d),
            two.tmap() == bigram_docs_of(ts.take(j as int), d),
            two.prev() == (if j > 0 {
                Some((ts[j - 1], d))
            } else {
                Option::<(Seq<char>, usize)>::None
            }),
        decreases n - j,
    {
        let ghost tsj = ts.take(j as int);
        let ghost tsj1 = ts.take(j + 1);
        proof {
            assert(ts[j as int] == tokens@[j as int]@);
            assert(tsj1.drop_last() =~= tsj);
            assert(tsj1.last() == ts[j as int]);
        }
        let w = tokens[j].clone();
        pos.add_term(w, document_id, TermDocumentPosition::new(j));
        proof {
            assert(pos.tmap() =~~= pos_index_of(tsj1, d)) by {
                assert forall|t: Seq<char>|
                    pos_index_of(tsj1, d).contains_key(t) == pos.tmap().contains_key(t) by {
                    lemma_contains_take(ts, j as int, t);
                    lemma_contains_take(ts, j + 1, t);
                }
                assert forall|t: Seq<char>| pos_index_of(tsj1, d).contains_key(t) implies #[trigger] pos.tmap()[t]
                    =~~= pos_index_of(tsj1, d)[t] by {
                    lemma_contains_take(ts, j as int, t);
                    lemma_contains_take(ts, j + 1, t);
                    if t == ts[j as int] {
                        assert(word_positions(tsj1, t) =~= word_positions(tsj, t).insert(j)) by {
                            assert forall|i: usize| word_positions(tsj1, t).contains(i) implies
                                word_positions(tsj, t).insert(j).contains(i) by {
                                if i < j {
                                    assert(tsj[i as int] == tsj1[i as int]);
                                }
                            }
                            assert forall|i: usize| word_positions(tsj, t).insert(j).contains(
                                i,
                            ) implies word_positions(tsj1, t).contains(i) by {
                                if i != j {
                                    assert(tsj1[i as int] == tsj[i as int]);
                                }
                            }
                        }
                        assert(pos_at(postings_at(pos_index_of(tsj, d), t), d) =~= word_positions(
                            tsj,
                            t,
                        ));
                    } else {
                        assert(word_positions(tsj1, t) =~= word_positions(tsj, t)) by {
                            assert forall|i: usize| word_positions(tsj1, t).contains(i) implies
                                word_positions(tsj, t).contains(i) by {
                                if i == j {
                                    assert(tsj1[i as int] == ts[j as int]);
                                }
                                if i < j {
                                    assert(tsj[i as int] == tsj1[i as int]);
                                }
                            }
                            assert forall|i: usize| word_positions(tsj, t).contains(i) implies
                                word_positions(tsj1, t).contains(i) by {
                                assert(tsj1[i as int] == tsj[i as int]);
                            }
                        }
                    }
                }
            }
        }
        let w2 = tokens[j].clone();
        two.add_term(w2, document_id);
        proof {
            assert(two.tmap() =~~= bigram_docs_of(tsj1, d)) by {
                if j > 0 {
                    let key = bigram_key(ts[j - 1], ts[j as int]);
                    assert forall|k: Seq<char>|
                        bigram_docs_of(tsj1, d).contains_key(k) == two.tmap().contains_key(k) by {
                        if bigram_docs_of(tsj1, d).contains_key(k) {
                            let i = choose|i: int|
                                0 <= i < tsj1.len() - 1 && bigram_key(
                                    #[trigger] tsj1[i],
                                    tsj1[i + 1],
                                ) == k;
                            if i < j - 1 {
                                assert(tsj[i] == tsj1[i] && tsj[i + 1] == tsj1[i + 1]);
                                assert(bigram_docs_of(tsj, d).contains_key(k));
                            } else {
                                assert(i == j - 1);
                                assert(k == key);
                            }
                        }
                        if two.tmap().contains_key(k) {
                            if k == key {
                                assert(tsj1[j - 1] == ts[j - 1] && tsj1[j as int] == ts[j as int]);
                                assert(bigram_key(tsj1[j - 1], tsj1[j - 1 + 1]) == k);
                                assert(bigram_docs_of(tsj1, d).contains_key(k));
                            } else {
                                assert(bigram_docs_of(tsj, d).contains_key(k));
                                let i = choose|i: int|
                                    0 <= i < tsj.len() - 1 && bigram_key(
                                        #[trigger] tsj[i],
                                        tsj[i + 1],
                                    ) == k;
                                assert(tsj1[i] == tsj[i] && tsj1[i + 1] == tsj[i + 1]);
                                assert(bigram_docs_of(tsj1, d).contains_key(k));
                            }
                        }
                    }
                } else {
                    assert forall|k: Seq<char>|
                        bigram_docs_of(tsj1, d).contains_key(k)
                            == bigram_docs_of(tsj, d).contains_key(k) by {
                        assert(tsj1.len() <= 1);
                        assert(tsj.len() == 0);
                    }
                }
            }
        }
        j += 1;
    }
    proof {
        assert(ts.take(n as int) =~= ts);
    }
    Some((pos, two, stats))
}

/// Builds the doc-posting index of one document, with the tokeniser's
/// statistics. An empty document is skipped: the result is `None` exactly
/// when the text is empty.
pub fn add_file_to_doc_index(document_id: DocumentId, contents: &str) -> (r: Option<
    (InvertedIndex, LexerStats),
>)
    requires
        contents@.len() < usize::MAX,
    ensures
        r is None <==> contents@.len() == 0,
        r matches Some(out) ==> ({
            let ts = tokens_of(contents@);
            &&& out.0.wf()
            &&& out.0.tmap() == doc_index_of(ts, document_id.0)
            &&& out.0.docs() == (if ts.len() == 0 {
                Set::<usize>::empty()
            } else {
                Set::<usize>::empty().insert(document_id.0)
            })
            &&& out.1.characters_read == contents@.len()
            &&& out.1.characters_ignored == ignored_of(contents@)
            &&& out.1.lines == 1 + newline_count(contents@)
        }),
{
    if contents.is_empty() {
        return None;
    }
    let (tokens, stats) = tokenize(contents);
    let ghost ts = views_of(tokens@);
    let d = document_id.0;
    let mut idx = InvertedIndex::new();
    let n = tokens.len();
    let mut j: usize = 0;
    proof {
        assert(ts.take(0) =~= Seq::<Seq<char>>::empty());
        assert(idx.tmap() =~~= doc_index_of(ts.take(0), d));
        assert(idx.docs() =~= Set::<usize>::empty());
    }
    while j < n
        invariant
            idx.wf(),
            n == tokens@.len(),
            ts == views_of(tokens@),
            ts.len() == n,
            j <= n,
            d == document_id.0,
            idx.tmap() == doc_index_of(ts.take(j as int), d),
            idx.docs() == (if j == 0 {
                Set::<usize>::empty()
            } else {
                Set::<usize>::empty().insert(d)
            }),
        decreases n - j,
    {
        let ghost tsj = ts.take(j as int);
        let ghost tsj1 = ts.take(j + 1);
        proof {
            assert(ts[j as int] == tokens@[j as int]@);
            assert(tsj1.drop_last() =~= tsj);
            assert(tsj1.last() == ts[j as int]);
        }
        let w = tokens[j].clone();
        idx.add_term(w, document_id);
        proof {
            assert(idx.tmap() =~~= doc_index_of(tsj1, d)) by {
                assert forall|t: Seq<char>|
                    doc_index_of(tsj1, d).contains_key(t) == idx.tmap().contains_key(t) by {
                    lemma_contains_take(ts, j as int, t);
                    lemma_contains_take(ts, j + 1, t);
                }
                assert forall|t: Seq<char>| doc_index_of(tsj1, d).contains_key(t) implies #[trigger] idx.tmap()[t]
                    =~= doc_index_of(tsj1, d)[t] by {
                    lemma_contains_take(ts, j as int, t);
                    lemma_contains_take(ts, j + 1, t);
                    if t == ts[j as int] {
                        assert(docs_at(doc_index_of(tsj, d), t).insert(d) =~= Set::<
                            usize,
                        >::empty().insert(d));
                    }
                }
            }
            assert(idx.docs() =~= Set::<usize>::empty().insert(d));
        }
        j += 1;
    }
    proof {
        assert(ts.take(n as int) =~= ts);
    }
    Some((idx, stats))
}

/// Two underscore-joined keys coincide only for the same word pair, when no
/// word holds an underscore.
pub proof fn lemma_bigram_key_injective(a: Seq<char>, b: Seq<char>, x: Seq<char>, y: Seq<char>)
    requires
        !a.contains('_'),
        !x.contains('_'),
        bigram_key(a, b) == bigram_key(x, y),
    ensures
        a == x,
        b == y,
{
    let s = bigram_key(a, b);
    assert(s[a.len() as int] == '_');
    assert(s[x.len() as int] == '_');
    if a.len() < x.len() {
        assert(x[a.len() as int] == s[a.len() as int]);
        assert(x.contains(x[a.len() as int]));
        assert(false);
    }
    if x.len() < a.len() {
        assert(a[x.len() as int] == s[x.len() as int]);
        assert(a.contains(a[x.len() as int]));
        assert(false);
    }
    assert(a.len() == x.len());
    assert(s.len() == a.len() + 1 + b.len());
    assert(s == bigram_key(x, y));
    assert(s.len() == x.len() + 1 + y.len());
    assert(b.len() == y.len());
    assert forall|i: int| 0 <= i < a.len() implies a[i] == x[i] by {
        assert(a[i] == s[i]);
        assert(x[i] == s[i]);
    }
    assert(a =~= x);
    assert forall|i: int| 0 <= i < b.len() implies b[i] == y[i] by {
        assert(b[i] == s[a.len() + 1 + i]);
        assert(y[i] == s[x.len() + 1 + i]);
    }
    assert(b =~= y);
}

/// The phrase-next operator against the positional postings of one document
/// matches exactly when its two-word key is recorded by the two-word index:
/// both answer "is `a` immediately followed by `b`". The two words must
/// differ (a repeated word is proximity-matched by its own position), and no
/// token nor queried word may hold an underscore, which the two-word key
/// reserves.
pub proof fn lemma_near_matches_bigram(ts: Seq<Seq<char>>, d: usize, a: Seq<char>, b: Seq<char>)
    requires
        a != b,
        ts.len() <= usize::MAX,
        !a.contains('_'),
        forall|i: int| 0 <= i < ts.len() ==> !(#[trigger] ts[i]).contains('_'),
    ensures
        pclose(
            postings_at(pos_index_of(ts, d), a),
            postings_at(pos_index_of(ts, d), b),
            0,
            1,
        ).contains_key(d) <==> adjacent_pair(ts, a, b),
        bigram_docs_of(ts, d).contains_key(bigram_key(a, b)) <==> adjacent_pair(ts, a, b),
{
    let pa = postings_at(pos_index_of(ts, d), a);
    let pb = postings_at(pos_index_of(ts, d), b);
    if pclose(pa, pb, 0, 1).contains_key(d) {
        assert(pa.contains_key(d) && pb.contains_key(d));
        assert(ts.contains(a) && ts.contains(b));
        assert(pa[d] == word_positions(ts, a));
        assert(pb[d] == word_positions(ts, b));
        let p = choose|p: usize| pa[d].contains(p) && window_hits(pb[d], p, 0, 1);
        let q = choose|q: usize| pb[d].contains(q) && in_window(p, q, 0, 1);
        assert(ts[p as int] == a && ts[q as int] == b);
        assert(q != p);
        assert(q == p + 1);
        assert(0 <= p < ts.len() - 1 && ts[p as int] == a && ts[p as int + 1] == b);
        assert(adjacent_pair(ts, a, b));
    }
    if adjacent_pair(ts, a, b) {
        let i = choose|i: int| 0 <= i < ts.len() - 1 && #[trigger] ts[i] == a && ts[i + 1] == b;
        let p = i as usize;
        let q = (i + 1) as usize;
        assert(ts.contains(a) && ts.contains(b)) by {
            assert(ts[i] == a);
            assert(ts[i + 1] == b);
        }
        assert(word_positions(ts, a).contains(p));
        assert(word_positions(ts, b).contains(q));
        assert(in_window(p, q, 0, 1));
        assert(pa.contains_key(d) && pa[d] == word_positions(ts, a));
        assert(pb.contains_key(d) && pb[d] == word_positions(ts, b));
        assert(window_hits(pb[d], p, 0, 1));
        assert(pclose(pa, pb, 0, 1).contains_key(d));
    }
    if bigram_docs_of(ts, d).contains_key(bigram_key(a, b)) {
        let i = choose|i: int|
            0 <= i < ts.len() - 1 && bigram_key(#[trigger] ts[i], ts[i + 1]) == bigram_key(a, b);
        assert(ts.contains(ts[i]));
        lemma_bigram_key_injective(ts[i], ts[i + 1], a, b);
        assert(adjacent_pair(ts, a, b));
    }
    if adjacent_pair(ts, a, b) {
        let i = choose|i: int| 0 <= i < ts.len() - 1 && #[trigger] ts[i] == a && ts[i + 1] == b;
        assert(bigram_key(ts[i], ts[i + 1]) == bigram_key(a, b));
        assert(bigram_docs_of(ts, d).contains_key(bigram_key(a, b)));
    }
}

} // verus!
