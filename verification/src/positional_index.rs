use vstd::prelude::*;
use crate::document::DocumentId;
use crate::positions::PosMap;
use crate::positions::TermDocumentPosition;
use crate::positions::TermPositions;
use crate::positions::padd_doc;
use crate::positions::padd_docset;
use crate::positions::pand;
use crate::positions::pclose;
use crate::positions::pdiff;
use crate::positions::pdocsub;
use crate::positions::por;
use crate::positions::pos_at;
use crate::query::LogicNode;
use crate::query::SNode;
use crate::query::node_view;
use crate::termmap::TermMap;
use crate::termmap::tkey_set;
use crate::termmap::tkeys;
use crate::termmap::lemma_tmap_take_step;
use crate::text::str_to_chars;
use crate::uintset::UintSet;

verus! {

/// The type of a positional-posting map: term to per-document position sets.
pub type PosIndexMap = Map<Seq<char>, PosMap>;

/// The postings `m` records under `t`; the empty map when `t` is absent.
pub open spec fn postings_at(m: PosIndexMap, t: Seq<char>) -> PosMap {
    if m.contains_key(t) {
        m[t]
    } else {
        Map::empty()
    }
}

/// Pointwise `por` of two positional-posting maps.
pub open spec fn pmaps_union(a: PosIndexMap, b: PosIndexMap) -> PosIndexMap {
    Map::new(
        |t: Seq<char>| a.contains_key(t) || b.contains_key(t),
        |t: Seq<char>| por(postings_at(a, t), postings_at(b, t)),
    )
}

/// Pointwise positional merge is commutative.
pub proof fn lemma_pmaps_union_comm(a: PosIndexMap, b: PosIndexMap)
    ensures
        pmaps_union(a, b) == pmaps_union(b, a),
{
    assert forall|t: Seq<char>|
        pmaps_union(a, b).contains_key(t) implies #[trigger] pmaps_union(a, b)[t] =~~= pmaps_union(
        b,
        a,
    )[t] by {
        crate::positions::lemma_por_comm(postings_at(a, t), postings_at(b, t));
    }
    assert(pmaps_union(a, b) =~~= pmaps_union(b, a));
}

/// Pointwise positional merge is associative.
pub proof fn lemma_pmaps_union_assoc(a: PosIndexMap, b: PosIndexMap, c: PosIndexMap)
    ensures
        pmaps_union(pmaps_union(a, b), c) == pmaps_union(a, pmaps_union(b, c)),
{
    assert forall|t: Seq<char>|
        pmaps_union(pmaps_union(a, b), c).contains_key(t) implies #[trigger] pmaps_union(
        pmaps_union(a, b),
        c,
    )[t] =~~= pmaps_union(a, pmaps_union(b, c))[t] by {
        crate::positions::lemma_por_assoc(postings_at(a, t), postings_at(b, t), postings_at(c, t));
        assert(por(postings_at(pmaps_union(a, b), t), postings_at(c, t)) =~~= por(
            por(postings_at(a, t), postings_at(b, t)),
            postings_at(c, t),
        ));
        assert(por(postings_at(a, t), postings_at(pmaps_union(b, c), t)) =~~= por(
            postings_at(a, t),
            por(postings_at(b, t), postings_at(c, t)),
        ));
    }
    assert(pmaps_union(pmaps_union(a, b), c) =~~= pmaps_union(a, pmaps_union(b, c)));
}

/// The positional query semantics: terms look their postings up, conjunction
/// and disjunction act per document on position sets, negation keeps the
/// universe's documents not matched, subtraction removes positions, and
/// proximity is the close-union with the node's window.
pub open spec fn pos_eval(m: PosIndexMap, u: PosMap, q: SNode) -> PosMap
    decreases q,
{
    match q {
        SNode::False => Map::empty(),
        SNode::Term(w) => postings_at(m, w),
        SNode::And(a, b) => pand(pos_eval(m, u, *a), pos_eval(m, u, *b)),
        SNode::Or(a, b) => por(pos_eval(m, u, *a), pos_eval(m, u, *b)),
        SNode::Not(a) => pdocsub(u, pos_eval(m, u, *a)),
        SNode::Subtract(a, b) => pdiff(pos_eval(m, u, *a), pos_eval(m, u, *b)),
        SNode::Near(a, b, l, r) => pclose(
            pos_eval(m, u, *a),
            pos_eval(m, u, *b),
            l as int,
            r as int,
        ),
    }
}

/// A positional inverted index: for each term and document, the sorted set
/// of word-ordinal positions at which the term occurs; the universe of all
/// indexed documents backs negation.
#[derive(Debug)]
pub struct PositionalIndex {
    documents: TermPositions,
    index: TermMap<TermPositions>,
}

impl PositionalIndex {
    /// The map from term to its positional postings.
    pub closed spec fn tmap(&self) -> PosIndexMap {
        self.index@
    }

    /// The universe: every indexed document, as a membership-only posting.
    pub closed spec fn umap(&self) -> PosMap {
        self.documents@
    }

    pub closed spec fn wf(&self) -> bool {
        &&& self.documents.wf()
        &&& self.index.wf()
        &&& forall|i: int|
            0 <= i < self.index.list().len() ==> (#[trigger] self.index.list()[i]).1.wf()
    }

    pub fn new() -> (r: PositionalIndex)
        ensures
            r.wf(),
            r.tmap() == Map::<Seq<char>, PosMap>::empty(),
            r.umap() == Map::<usize, Set<usize>>::empty(),
    {
        PositionalIndex { documents: TermPositions::new(), index: TermMap::new() }
    }

    /// How many distinct terms are indexed.
    pub fn unique_word_count(&self) -> (r: usize)
        requires
            self.wf(),
        ensures
            r == self.tmap().dom().len(),
    {
        self.index.len()
    }

    /// The positional postings of `term`; empty when absent.
    pub fn get_term_positions(&self, term: &str) -> (r: TermPositions)
        requires
            self.wf(),
        ensures
            r.wf(),
            r@ == postings_at(self.tmap(), term@),
    {
        let tv = str_to_chars(term);
        match self.index.get(&tv) {
            Some(tp) => {
                proof {
                    let i = choose|i: int|
                        0 <= i < self.index.list().len() && (#[trigger] self.index.list()[i]).1
                            == tp;
                }
                tp.duplicate()
            },
            None => TermPositions::new(),
        }
    }

    /// Records that `term` occurs in the given document at the given
    /// word-ordinal position, and registers the document in the universe.
    pub fn add_term(&mut self, term: String, document_id: DocumentId, position: TermDocumentPosition)
        requires
            old(self).wf(),
        ensures
            final(self).wf(),
            final(self).tmap() == old(self).tmap().insert(
                term@,
                postings_at(old(self).tmap(), term@).insert(
                    document_id.0,
                    pos_at(postings_at(old(self).tmap(), term@), document_id.0).insert(
                        position.0,
                    ),
                ),
            ),
            final(self).umap() == padd_doc(old(self).umap(), document_id.0),
    {
        let tv = str_to_chars(term.as_str());
        let d = document_id.0;
        let p = position.offset();
        let mut tp = match self.index.get(&tv) {
            Some(existing) => {
                proof {
                    let i = choose|i: int|
                        0 <= i < self.index.list().len() && (#[trigger] self.index.list()[i]).1
                            == existing;
                }
                existing.duplicate()
            },
            None => TermPositions::new(),
        };
        tp.add_position(d, p);
        self.index.set(tv, tp);
        self.documents.add_document(d);
        proof {
            assert(final(self).tmap() =~~= old(self).tmap().insert(
                term@,
                postings_at(old(self).tmap(), term@).insert(
                    d,
                    pos_at(postings_at(old(self).tmap(), term@), d).insert(p),
                ),
            ));
        }
    }

    /// Folds another positional index into this one: per-term postings merge
    /// per document, and the other's posting documents join the universe.
    pub fn merge(&mut self, other: &PositionalIndex)
        requires
            old(self).wf(),
            other.wf(),
        ensures
            final(self).wf(),
            final(self).tmap() == pmaps_union(old(self).tmap(), other.tmap()),
            final(self).umap() == padd_docset(old(self).umap(), docs_of_pmaps(other.tmap())),
    {
        let ghost a = old(self).tmap();
        let ghost au = old(self).umap();
        proof {
            other.index.lemma_list();
        }
        let oes = other.index.entries();
        let n = oes.len();
        let mut j: usize = 0;
        proof {
            assert(oes@.take(0) =~= Seq::<(Vec<char>, TermPositions)>::empty());
            assert(self.tmap() =~~= punion_restrict(a, other.tmap(), Set::empty()));
            assert(self.umap() =~~= padd_docset(
                au,
                docs_of_pmaps(crate::termmap::entries_tmap(oes@.take(0))),
            ));
        }
        while j < n
            invariant
                self.index.wf(),
                self.documents.wf(),
                forall|i: int|
                    0 <= i < self.index.list().len() ==> (#[trigger] self.index.list()[i]).1.wf(),
                other.wf(),
                oes@ == other.index.list(),
                crate::termmap::tkeys_unique(oes@),
                n == oes@.len(),
                j <= n,
                a == old(self).tmap(),
                au == old(self).umap(),
                self.tmap() == punion_restrict(a, other.tmap(), tkey_set(tkeys(oes@.take(j as int)))),
                self.umap() == padd_docset(
                    au,
                    docs_of_pmaps(crate::termmap::entries_tmap(oes@.take(j as int))),
                ),
            decreases n - j,
        {
            let tref = &oes[j].0;
            let ghost tkey = tref@;
            proof {
                other.index.lemma_list();
                crate::termmap::lemma_tmap_index(oes@, j as int);
                lemma_tmap_take_step(oes@, j as int);
                assert(oes@[j as int].1.wf()) by {
                    assert(other.index.list()[j as int] == oes@[j as int]);
                }
            }
            let mut combined = match self.index.get(tref) {
                Some(mine) => {
                    proof {
                        let i = choose|i: int|
                            0 <= i < self.index.list().len() && (#[trigger] self.index.list()[i]).1 == mine;
                    }
                    mine.duplicate()
                },
                None => TermPositions::new(),
            };
            combined.merge(&oes[j].1);
            self.documents.add_documents_from(&oes[j].1);
            let tv = crate::text::dup_chars(tref);
            self.index.set(tv, combined);
            proof {
                assert(self.tmap() =~~= punion_restrict(
                    a,
                    other.tmap(),
                    tkey_set(tkeys(oes@.take(j + 1))),
                )) by {
                    assert(por(Map::empty(), other.tmap()[tkey]) =~~= other.tmap()[tkey]);
                }
                lemma_docs_of_pmaps_step(oes@, j as int);
                assert(self.umap() =~~= padd_docset(
                    au,
                    docs_of_pmaps(crate::termmap::entries_tmap(oes@.take(j + 1))),
                ));
            }
            j += 1;
        }
        proof {
            assert(oes@.take(n as int) =~= oes@);
            other.index.lemma_list();
            crate::doc_index::lemma_tmap_dom_keyset(oes@);
            assert(self.tmap() =~~= pmaps_union(a, other.tmap()));
        }
    }

    /// Evaluates a query to positional postings: exactly `pos_eval` over the
    /// term map and the universe.
    pub fn query_rec(&self, query_ast: &LogicNode) -> (r: TermPositions)
        requires
            self.wf(),
        ensures
            r.wf(),
            r@ == pos_eval(self.tmap(), self.umap(), node_view(*query_ast)),
        decreases *query_ast,
    {
        match query_ast {
            LogicNode::False => TermPositions::new(),
            LogicNode::Term(t) => self.get_term_positions(t.as_str()),
            LogicNode::And(a, b) => {
                let x = self.query_rec(a);
                let y = self.query_rec(b);
                x.and(&y)
            },
            LogicNode::Or(a, b) => {
                let x = self.query_rec(a);
                let y = self.query_rec(b);
                x.or(&y)
            },
            LogicNode::Not(a) => {
                let x = self.query_rec(a);
                self.documents.document_sub(&x)
            },
            LogicNode::Subtract(a, b) => {
                let x = self.query_rec(a);
                let y = self.query_rec(b);
                x.minus(&y)
            },
            LogicNode::Near(a, b, l, r) => {
                let x = self.query_rec(a);
                let y = self.query_rec(b);
                x.close_union(&y, *l, *r)
            },
        }
    }

    /// Answers a query with the set of matching documents: those the
    /// positional evaluation keys, membership-only markers included.
    pub fn query(&self, query_ast: &LogicNode) -> (r: UintSet)
        requires
            self.wf(),
        ensures
            r.wf(),
            r@ == pos_eval(self.tmap(), self.umap(), node_view(*query_ast)).dom(),
    {
        let tp = self.query_rec(query_ast);
        tp.documents()
    }
}

/// The documents keyed anywhere in a positional-posting map.
pub open spec fn docs_of_pmaps(m: PosIndexMap) -> Set<usize> {
    Set::new(
        |d: usize| exists|t: Seq<char>| m.contains_key(t) && (#[trigger] m[t]).contains_key(d),
    )
}

/// `pmaps_union(a, b)` with `b` restricted to the terms in `s`.
pub open spec fn punion_restrict(a: PosIndexMap, b: PosIndexMap, s: Set<Seq<char>>) -> PosIndexMap {
    Map::new(
        |t: Seq<char>| a.contains_key(t) || (b.contains_key(t) && s.contains(t)),
        |t: Seq<char>| if b.contains_key(t) && s.contains(t) {
            por(postings_at(a, t), b[t])
        } else {
            postings_at(a, t)
        },
    )
}

proof fn lemma_docs_of_pmaps_step(es: Seq<(Vec<char>, TermPositions)>, j: int)
    requires
        crate::termmap::tkeys_unique(es),
        0 <= j < es.len(),
    ensures
        docs_of_pmaps(crate::termmap::entries_tmap(es.take(j + 1))) == docs_of_pmaps(
            crate::termmap::entries_tmap(es.take(j)),
        ).union(es[j].1@.dom()),
{
    let tkey = es[j].0@;
    let m0 = crate::termmap::entries_tmap(es.take(j));
    let m1 = crate::termmap::entries_tmap(es.take(j + 1));
    lemma_tmap_take_step(es, j);
    assert(m1 == m0.insert(tkey, es[j].1@));
    assert forall|d: usize| docs_of_pmaps(m1).contains(d) implies docs_of_pmaps(m0).union(
        es[j].1@.dom(),
    ).contains(d) by {
        let t = choose|t: Seq<char>| m1.contains_key(t) && (#[trigger] m1[t]).contains_key(d);
        if t != tkey {
            assert(m0.contains_key(t) && m0[t].contains_key(d));
        }
    }
    assert forall|d: usize| docs_of_pmaps(m0).union(es[j].1@.dom()).contains(
        d,
    ) implies docs_of_pmaps(m1).contains(d) by {
        if es[j].1@.dom().contains(d) {
            assert(m1.contains_key(tkey) && m1[tkey].contains_key(d));
        } else {
            let t = choose|t: Seq<char>| m0.contains_key(t) && (#[trigger] m0[t]).contains_key(d);
            if t == tkey {
                assert(forall|i: int| 0 <= i < j ==> (#[trigger] es.take(j)[i]).0@ != tkey);
                crate::termmap::lemma_tmap_absent(es.take(j), tkey);
                assert(false);
            } else {
                assert(m1.contains_key(t) && m1[t].contains_key(d));
            }
        }
    }
    assert(docs_of_pmaps(m1) =~= docs_of_pmaps(m0).union(es[j].1@.dom()));
}

} // verus!
