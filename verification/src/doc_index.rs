use vstd::prelude::*;
use crate::document::DocumentId;
use crate::query::LogicNode;
use crate::query::SNode;
use crate::query::node_view;
use crate::termmap::TermMap;
use crate::termmap::tkey_set;
use crate::termmap::tkeys;
use crate::termmap::lemma_tmap_take_step;
use crate::text::str_to_chars;
use crate::uintset::UintSet;

verus! {

/// Why an index refused a query.
#[derive(PartialEq, Eq, Structural, Clone, Copy, Debug)]
pub enum IndexError {
    /// The query needs positional information this index lacks.
    Unsupported,
    /// No term of the query is in the index's dictionary.
    NoKnownTerm,
}

/// The type of a doc-posting map: term to set of document ids.
pub type DocMap = Map<Seq<char>, Set<usize>>;

/// The documents `m` records under `t`; empty when `t` is absent.
pub open spec fn docs_at(m: DocMap, t: Seq<char>) -> Set<usize> {
    if m.contains_key(t) {
        m[t]
    } else {
        Set::empty()
    }
}

/// Pointwise union of two doc-posting maps.
pub open spec fn dmaps_union(a: DocMap, b: DocMap) -> DocMap {
    Map::new(
        |t: Seq<char>| a.contains_key(t) || b.contains_key(t),
        |t: Seq<char>| docs_at(a, t).union(docs_at(b, t)),
    )
}

/// Pointwise doc-posting union is commutative.
pub proof fn lemma_dmaps_union_comm(a: DocMap, b: DocMap)
    ensures
        dmaps_union(a, b) == dmaps_union(b, a),
{
    assert(dmaps_union(a, b) =~~= dmaps_union(b, a));
}

/// Pointwise doc-posting union is associative.
pub proof fn lemma_dmaps_union_assoc(a: DocMap, b: DocMap, c: DocMap)
    ensures
        dmaps_union(dmaps_union(a, b), c) == dmaps_union(a, dmaps_union(b, c)),
{
    assert(dmaps_union(dmaps_union(a, b), c) =~~= dmaps_union(a, dmaps_union(b, c)));
}

/// The Boolean query semantics over a doc-posting map with universe `u`:
/// conjunction intersects, disjunction unites, negation complements against
/// the universe, subtraction removes, and proximity is not answerable.
pub open spec fn doc_eval(m: DocMap, u: Set<usize>, q: SNode) -> Result<Set<usize>, IndexError>
    decreases q,
{
    match q {
        SNode::False => Ok(Set::empty()),
        SNode::Term(w) => Ok(docs_at(m, w)),
        SNode::And(a, b) => match (doc_eval(m, u, *a), doc_eval(m, u, *b)) {
            (Err(e), _) => Err(e),
            (_, Err(e)) => Err(e),
            (Ok(x), Ok(y)) => Ok(x.intersect(y)),
        },
        SNode::Or(a, b) => match (doc_eval(m, u, *a), doc_eval(m, u, *b)) {
            (Err(e), _) => Err(e),
            (_, Err(e)) => Err(e),
            (Ok(x), Ok(y)) => Ok(x.union(y)),
        },
        SNode::Not(a) => match doc_eval(m, u, *a) {
            Ok(x) => Ok(u.difference(x)),
            Err(e) => Err(e),
        },
        SNode::Subtract(a, b) => match (doc_eval(m, u, *a), doc_eval(m, u, *b)) {
            (Err(e), _) => Err(e),
            (_, Err(e)) => Err(e),
            (Ok(x), Ok(y)) => Ok(x.difference(y)),
        },
        SNode::Near(_, _, _, _) => Err(IndexError::Unsupported),
    }
}

/// An inverted index mapping each term to the set of documents it occurs in,
/// with the universe of all indexed documents for negation.
#[derive(Debug)]
pub struct InvertedIndex {
    documents: UintSet,
    index: TermMap<UintSet>,
}

impl InvertedIndex {
    /// The map from term to document set.
    pub closed spec fn tmap(&self) -> DocMap {
        self.index@
    }

    /// The set of all indexed documents.
    pub closed spec fn docs(&self) -> Set<usize> {
        self.documents@
    }

    pub closed spec fn wf(&self) -> bool {
        &&& self.documents.wf()
        &&& self.index.wf()
        &&& forall|i: int|
            0 <= i < self.index.list().len() ==> (#[trigger] self.index.list()[i]).1.wf()
        &&& forall|d: usize|
            #[trigger] self.docs().contains(d) <==> exists|t: Seq<char>|
                self.tmap().contains_key(t) && (#[trigger] self.tmap()[t]).contains(d)
    }

    pub fn new() -> (r: InvertedIndex)
        ensures
            r.wf(),
            r.tmap() == Map::<Seq<char>, Set<usize>>::empty(),
            r.docs() == Set::<usize>::empty(),
    {
        let r = InvertedIndex { documents: UintSet::new(), index: TermMap::new() };
        proof {
            assert(forall|d: usize| !r.docs().contains(d));
        }
        r
    }

    /// How many distinct terms are indexed.
    pub fn unique_word_count(&self) -> (r: usize)
        requires
            self.wf(),
        ensures
            r == self.tmap().dom().len(),
    {
        self.index.len()
    }

    /// The set of documents recorded under `term`; empty when absent.
    pub fn term_positions(&self, term: &str) -> (r: UintSet)
        requires
            self.wf(),
        ensures
            r.wf(),
            r@ == docs_at(self.tmap(), term@),
    {
        let tv = str_to_chars(term);
        match self.index.get(&tv) {
            Some(s) => {
                proof {
                    let i = choose|i: int|
                        0 <= i < self.index.list().len() && (#[trigger] self.index.list()[i]).1
                            == s;
                }
                s.duplicate()
            },
            None => UintSet::new(),
        }
    }

    /// Records that `term` occurs in the given document.
    pub fn add_term(&mut self, term: String, document_id: DocumentId)
        requires
            old(self).wf(),
        ensures
            final(self).wf(),
            final(self).tmap() == old(self).tmap().insert(
                term@,
                docs_at(old(self).tmap(), term@).insert(document_id.0),
            ),
            final(self).docs() == old(self).docs().insert(document_id.0),
    {
        let tv = str_to_chars(term.as_str());
        let d = document_id.0;
        let set = match self.index.get(&tv) {
            Some(s) => {
                proof {
                    let i = choose|i: int|
                        0 <= i < self.index.list().len() && (#[trigger] self.index.list()[i]).1
                            == s;
                }
                let mut c = s.duplicate();
                c.insert(d);
                c
            },
            None => {
                let mut c = UintSet::new();
                c.insert(d);
                c
            },
        };
        let ghost setv = set@;
        self.index.set(tv, set);
        self.documents.insert(d);
        proof {
            assert(final(self).tmap() =~~= old(self).tmap().insert(
                term@,
                docs_at(old(self).tmap(), term@).insert(d),
            ));
            assert forall|dd: usize| #[trigger]
                final(self).docs().contains(dd) implies exists|t: Seq<char>|
                final(self).tmap().contains_key(t) && (#[trigger] final(self).tmap()[t]).contains(
                    dd,
                ) by {
                if dd == d {
                    assert(final(self).tmap().contains_key(term@));
                    assert(final(self).tmap()[term@].contains(dd));
                } else {
                    assert(old(self).docs().contains(dd));
                    let t = choose|t: Seq<char>|
                        old(self).tmap().contains_key(t) && (#[trigger] old(self).tmap()[t]).contains(dd);
                    if t == term@ {
                        assert(final(self).tmap()[term@].contains(dd));
                    } else {
                        assert(final(self).tmap()[t].contains(dd));
                    }
                }
            }
            assert forall|dd: usize|
                (exists|t: Seq<char>|
                    final(self).tmap().contains_key(t) && (#[trigger] final(self).tmap()[t]).contains(dd)) implies #[trigger] final(self).docs().contains(dd) by {
                let t = choose|t: Seq<char>|
                    final(self).tmap().contains_key(t) && (#[trigger] final(self).tmap()[t]).contains(dd);
                if t == term@ {
                    if dd != d {
                        assert(docs_at(old(self).tmap(), term@).contains(dd));
                        assert(old(self).tmap().contains_key(term@));
                        assert(old(self).docs().contains(dd));
                    }
                } else {
                    assert(old(self).tmap().contains_key(t) && old(self).tmap()[t].contains(dd));
                    assert(old(self).docs().contains(dd));
                }
                assert(final(self).docs() == old(self).docs().insert(d));
            }
        }
    }

    /// Folds another index into this one: term postings unite, and the
    /// universe becomes the union of both universes.
    pub fn merge(&mut self, other: &InvertedIndex)
        requires
            old(self).wf(),
            other.wf(),
        ensures
            final(self).wf(),
            final(self).tmap() == dmaps_union(old(self).tmap(), other.tmap()),
            final(self).docs() == old(self).docs().union(other.docs()),
    {
        let ghost a = old(self).tmap();
        let ghost adocs = old(self).docs();
        proof {
            other.index.lemma_list();
        }
        let oes = other.index.entries();
        let n = oes.len();
        let mut j: usize = 0;
        proof {
            assert(oes@.take(0) =~= Seq::<(Vec<char>, UintSet)>::empty());
            assert(self.tmap() =~~= dunion_restrict(a, other.tmap(), Set::empty()));
            assert(self.docs() =~= adocs.union(docs_in(crate::termmap::entries_tmap(oes@.take(0)))));
        }
        while j < n
            invariant
                self.index.wf(),
                self.documents.wf(),
                forall|i: int|
                    0 <= i < self.index.list().len() ==> (#[trigger] self.index.list()[i]).1.wf(),
                other.wf(),
                oes@ == other.index.list(),
                crate::termmap::tkeys_unique(oes@),
                n == oes@.len(),
                j <= n,
                self.tmap() == dunion_restrict(a, other.tmap(), tkey_set(tkeys(oes@.take(j as int)))),
                self.docs() == adocs.union(docs_in(crate::termmap::entries_tmap(oes@.take(j as int)))),
                a == old(self).tmap(),
                adocs == old(self).docs(),
                forall|d: usize|
                    #[trigger] adocs.contains(d) <==> exists|t: Seq<char>|
                        a.contains_key(t) && (#[trigger] a[t]).contains(d),
            decreases n - j,
        {
            let tref = &oes[j].0;
            let ghost tkey = tref@;
            proof {
                other.index.lemma_list();
                crate::termmap::lemma_tmap_index(oes@, j as int);
                lemma_tmap_take_step(oes@, j as int);
                assert(other.tmap().contains_key(tkey));
                assert(other.tmap()[tkey] == oes@[j as int].1@);
            }
            let combined = match self.index.get(tref) {
                Some(mine) => {
                    proof {
                        let i = choose|i: int|
                            0 <= i < self.index.list().len() && (#[trigger] self.index.list()[i]).1 == mine;
                    }
                    mine.union_with(&oes[j].1)
                },
                None => oes[j].1.duplicate(),
            };
            let tv = crate::text::dup_chars(tref);
            self.documents = self.documents.union_with(&oes[j].1);
            self.index.set(tv, combined);
            proof {
                assert(self.tmap() =~~= dunion_restrict(
                    a,
                    other.tmap(),
                    tkey_set(tkeys(oes@.take(j + 1))),
                ));
                assert(docs_in(crate::termmap::entries_tmap(oes@.take(j + 1))) =~= docs_in(
                    crate::termmap::entries_tmap(oes@.take(j as int)),
                ).union(oes@[j as int].1@)) by {
                    let m0 = crate::termmap::entries_tmap(oes@.take(j as int));
                    let m1 = crate::termmap::entries_tmap(oes@.take(j + 1));
                    assert(m1 == m0.insert(tkey, oes@[j as int].1@));
                    assert forall|d: usize| docs_in(m1).contains(d) implies docs_in(m0).union(
                        oes@[j as int].1@,
                    ).contains(d) by {
                        let t = choose|t: Seq<char>|
                            m1.contains_key(t) && (#[trigger] m1[t]).contains(d);
                        if t != tkey {
                            assert(m0.contains_key(t) && m0[t].contains(d));
                        }
                    }
                    assert forall|d: usize| docs_in(m0).union(oes@[j as int].1@).contains(
                        d,
                    ) implies docs_in(m1).contains(d) by {
                        if oes@[j as int].1@.contains(d) {
                            assert(m1.contains_key(tkey) && m1[tkey].contains(d));
                        } else {
                            let t = choose|t: Seq<char>|
                                m0.contains_key(t) && (#[trigger] m0[t]).contains(d);
                            if t == tkey {
                                assert(forall|i: int|
                                    0 <= i < j ==> (#[trigger] oes@.take(j as int)[i]).0@ != tkey);
                                crate::termmap::lemma_tmap_absent(oes@.take(j as int), tkey);
                                assert(false);
                            } else {
                                assert(m1.contains_key(t) && m1[t].contains(d));
                            }
                        }
                    }
                }
                assert(self.docs() =~= adocs.union(
                    docs_in(crate::termmap::entries_tmap(oes@.take(j + 1))),
                ));
            }
            j += 1;
        }
        proof {
            assert(oes@.take(n as int) =~= oes@);
            other.index.lemma_list();
            assert(self.tmap() =~~= dmaps_union(a, other.tmap())) by {
                crate::termmap::lemma_tmap_card(oes@);
                assert forall|t: Seq<char>| other.tmap().contains_key(t) implies tkey_set(
                    tkeys(oes@),
                ).contains(t) by {
                    lemma_tmap_dom_keyset(oes@);
                }
                assert forall|t: Seq<char>| tkey_set(tkeys(oes@)).contains(t) implies other.tmap()
                    .contains_key(t) by {
                    lemma_tmap_dom_keyset(oes@);
                }
            }
            assert(docs_in(other.tmap()) =~= other.docs());
            assert(self.docs() == adocs.union(other.docs()));
            assert forall|d: usize| #[trigger]
                self.docs().contains(d) implies exists|t: Seq<char>|
                self.tmap().contains_key(t) && (#[trigger] self.tmap()[t]).contains(d) by {
                if adocs.contains(d) {
                    let t = choose|t: Seq<char>|
                        a.contains_key(t) && (#[trigger] a[t]).contains(d);
                    assert(self.tmap().contains_key(t) && self.tmap()[t].contains(d));
                } else {
                    let t = choose|t: Seq<char>|
                        other.tmap().contains_key(t) && (#[trigger] other.tmap()[t]).contains(d);
                    assert(self.tmap().contains_key(t) && self.tmap()[t].contains(d));
                }
            }
            assert forall|d: usize|
                (exists|t: Seq<char>|
                    self.tmap().contains_key(t) && (#[trigger] self.tmap()[t]).contains(
                        d,
                    )) implies #[trigger] self.docs().contains(d) by {
                let t = choose|t: Seq<char>|
                    self.tmap().contains_key(t) && (#[trigger] self.tmap()[t]).contains(d);
                assert(docs_at(a, t).contains(d) || docs_at(other.tmap(), t).contains(d));
            }
        }
    }

    /// The index's entry list, for persistence.
    pub closed spec fn index_list(&self) -> Seq<(Vec<char>, UintSet)> {
        self.index.list()
    }

    pub proof fn lemma_index_list(&self)
        requires
            self.wf(),
        ensures
            crate::termmap::entries_tmap(self.index_list()) == self.tmap(),
            crate::termmap::tkeys_unique(self.index_list()),
            forall|i: int|
                0 <= i < self.index_list().len() ==> (#[trigger] self.index_list()[i]).1.wf(),
    {
        self.index.lemma_list();
    }

    /// The entry list itself, each term once with its documents.
    pub fn index_entries(&self) -> (r: &Vec<(Vec<char>, UintSet)>)
        ensures
            r@ == self.index_list(),
    {
        self.index.entries()
    }

    /// Rebuilds an index from raw parts: each listed term with its document
    /// set, later entries overriding earlier ones; the universe is the union
    /// of the kept sets.
    pub fn from_parts(parts: Vec<(Vec<char>, UintSet)>) -> (r: InvertedIndex)
        requires
            forall|i: int| 0 <= i < parts@.len() ==> (#[trigger] parts@[i]).1.wf(),
        ensures
            r.wf(),
            r.tmap() == crate::termmap::entries_tmap(parts@),
            r.docs() == docs_in(r.tmap()),
    {
        let mut tm: TermMap<UintSet> = TermMap::new();
        let n = parts.len();
        let mut j: usize = 0;
        let ghost ps = parts@;
        proof {
            assert(ps.take(0) =~= Seq::<(Vec<char>, UintSet)>::empty());
        }
        while j < n
            invariant
                tm.wf(),
                forall|i: int| 0 <= i < tm.list().len() ==> (#[trigger] tm.list()[i]).1.wf(),
                parts@ == ps,
                n == ps.len(),
                j <= n,
                tm@ == crate::termmap::entries_tmap(ps.take(j as int)),
                forall|i: int| 0 <= i < ps.len() ==> (#[trigger] ps[i]).1.wf(),
            decreases n - j,
        {
            proof {
                crate::termmap::lemma_tmap_take_step(ps, j as int);
            }
            let tv = crate::text::dup_chars(&parts[j].0);
            let ds = parts[j].1.duplicate();
            tm.set(tv, ds);
            proof {
                assert(tm@ =~= crate::termmap::entries_tmap(ps.take(j + 1)));
            }
            j += 1;
        }
        proof {
            assert(ps.take(n as int) =~= ps);
        }
        proof {
            tm.lemma_list();
        }
        let tes = tm.entries();
        let m = tes.len();
        let mut docs = UintSet::new();
        let mut t: usize = 0;
        proof {
            assert(tes@.take(0) =~= Seq::<(Vec<char>, UintSet)>::empty());
            assert(docs@ =~= docs_in(crate::termmap::entries_tmap(tes@.take(0))));
        }
        while t < m
            invariant
                docs.wf(),
                tm.wf(),
                forall|i: int| 0 <= i < tm.list().len() ==> (#[trigger] tm.list()[i]).1.wf(),
                tes@ == tm.list(),
                crate::termmap::tkeys_unique(tes@),
                m == tes@.len(),
                t <= m,
                docs@ == docs_in(crate::termmap::entries_tmap(tes@.take(t as int))),
            decreases m - t,
        {
            proof {
                lemma_docs_in_step(tes@, t as int);
            }
            docs = docs.union_with(&tes[t].1);
            t += 1;
        }
        proof {
            assert(tes@.take(m as int) =~= tes@);
            tm.lemma_list();
        }
        let ghost dview = docs@;
        let ghost tmview = tm@;
        let r = InvertedIndex { documents: docs, index: tm };
        proof {
            assert(r.docs() == dview && r.tmap() == tmview);
            assert(r.docs() =~= docs_in(r.tmap()));
            assert(forall|d: usize|
                #[trigger] r.docs().contains(d) <==> exists|tt: Seq<char>|
                    r.tmap().contains_key(tt) && (#[trigger] r.tmap()[tt]).contains(d));
        }
        r
    }

    /// Answers a Boolean query: the result is exactly `doc_eval` over the
    /// term map and the universe of indexed documents.
    pub fn query(&self, query_ast: &LogicNode) -> (r: Result<UintSet, IndexError>)
        requires
            self.wf(),
        ensures
            r is Ok <==> doc_eval(self.tmap(), self.docs(), node_view(*query_ast)) is Ok,
            r matches Ok(s) ==> s.wf() && doc_eval(self.tmap(), self.docs(), node_view(*query_ast))
                == Ok::<Set<usize>, IndexError>(s@),
            r matches Err(e) ==> doc_eval(self.tmap(), self.docs(), node_view(*query_ast))
                == Err::<Set<usize>, IndexError>(e),
        decreases *query_ast,
    {
        match query_ast {
            LogicNode::False => Ok(UintSet::new()),
            LogicNode::Term(t) => Ok(self.term_positions(t.as_str())),
            LogicNode::And(a, b) => {
                let x = match self.query(a) {
                    Ok(x) => x,
                    Err(e) => {
                        return Err(e);
                    },
                };
                let y = match self.query(b) {
                    Ok(y) => y,
                    Err(e) => {
                        return Err(e);
                    },
                };
                Ok(x.intersect(&y))
            },
            LogicNode::Or(a, b) => {
                let x = match self.query(a) {
                    Ok(x) => x,
                    Err(e) => {
                        return Err(e);
                    },
                };
                let y = match self.query(b) {
                    Ok(y) => y,
                    Err(e) => {
                        return Err(e);
                    },
                };
                Ok(x.union_with(&y))
            },
            LogicNode::Not(a) => {
                let x = match self.query(a) {
                    Ok(x) => x,
                    Err(e) => {
                        return Err(e);
                    },
                };
                Ok(self.documents.difference(&x))
            },
            LogicNode::Subtract(a, b) => {
                let x = match self.query(a) {
                    Ok(x) => x,
                    Err(e) => {
                        return Err(e);
                    },
                };
                let y = match self.query(b) {
                    Ok(y) => y,
                    Err(e) => {
                        return Err(e);
                    },
                };
                Ok(x.difference(&y))
            },
            LogicNode::Near(_, _, _, _) => Err(IndexError::Unsupported),
        }
    }
}

/// The per-document counts `m` records under `t`; empty when `t` is absent.
pub open spec fn docs_map_at(m: Map<Seq<char>, Map<usize, nat>>, t: Seq<char>) -> Map<usize, nat> {
    if m.contains_key(t) {
        m[t]
    } else {
        Map::empty()
    }
}

/// The documents recorded anywhere in a doc-posting map.
pub open spec fn docs_in(m: DocMap) -> Set<usize> {
    Set::new(|d: usize| exists|t: Seq<char>| m.contains_key(t) && (#[trigger] m[t]).contains(d))
}

/// `dmaps_union(a, b)` with `b` restricted to the terms in `s`.
pub open spec fn dunion_restrict(a: DocMap, b: DocMap, s: Set<Seq<char>>) -> DocMap {
    Map::new(
        |t: Seq<char>| a.contains_key(t) || (b.contains_key(t) && s.contains(t)),
        |t: Seq<char>| if b.contains_key(t) && s.contains(t) {
            docs_at(a, t).union(b[t])
        } else {
            docs_at(a, t)
        },
    )
}

/// Taking one more entry grows the recorded documents by that entry's set,
/// when no term is keyed twice.
pub proof fn lemma_docs_in_step<V: View<V = Set<usize>>>(es: Seq<(Vec<char>, V)>, j: int)
    requires
        crate::termmap::tkeys_unique(es),
        0 <= j < es.len(),
    ensures
        docs_in(crate::termmap::entries_tmap(es.take(j + 1))) == docs_in(
            crate::termmap::entries_tmap(es.take(j)),
        ).union(es[j].1@),
{
    let tkey = es[j].0@;
    let m0 = crate::termmap::entries_tmap(es.take(j));
    let m1 = crate::termmap::entries_tmap(es.take(j + 1));
    lemma_tmap_take_step(es, j);
    assert(m1 == m0.insert(tkey, es[j].1@));
    assert forall|d: usize| docs_in(m1).contains(d) implies docs_in(m0).union(es[j].1@).contains(
        d,
    ) by {
        let t = choose|t: Seq<char>| m1.contains_key(t) && (#[trigger] m1[t]).contains(d);
        if t != tkey {
            assert(m0.contains_key(t) && m0[t].contains(d));
        }
    }
    assert forall|d: usize| docs_in(m0).union(es[j].1@).contains(d) implies docs_in(m1).contains(
        d,
    ) by {
        if es[j].1@.contains(d) {
            assert(m1.contains_key(tkey) && m1[tkey].contains(d));
        } else {
            let t = choose|t: Seq<char>| m0.contains_key(t) && (#[trigger] m0[t]).contains(d);
            if t == tkey {
                assert(forall|i: int| 0 <= i < j ==> (#[trigger] es.take(j)[i]).0@ != tkey);
                crate::termmap::lemma_tmap_absent(es.take(j), tkey);
                assert(false);
            } else {
                assert(m1.contains_key(t) && m1[t].contains(d));
            }
        }
    }
    assert(docs_in(m1) =~= docs_in(m0).union(es[j].1@));
}

/// The denoted map's domain is the set of listed keys.
pub proof fn lemma_tmap_dom_keyset<V: View>(es: Seq<(Vec<char>, V)>)
    ensures
        crate::termmap::entries_tmap(es).dom() == tkey_set(tkeys(es)),
    decreases es.len(),
{
    if es.len() == 0 {
        assert(crate::termmap::entries_tmap(es).dom() =~= tkey_set(tkeys(es)));
    } else {
        lemma_tmap_dom_keyset(es.drop_last());
        assert(tkeys(es.drop_last()) =~= tkeys(es).drop_last());
        assert forall|k: Seq<char>|
            crate::termmap::entries_tmap(es).dom().contains(k) implies tkey_set(
            tkeys(es),
        ).contains(k) by {
            if k == es.last().0@ {
                assert(tkeys(es)[es.len() - 1] == k);
            } else {
                let t = choose|t: int|
                    0 <= t < tkeys(es.drop_last()).len() && #[trigger] tkeys(es.drop_last())[t]
                        == k;
                assert(tkeys(es)[t] == k);
            }
        }
        assert forall|k: Seq<char>| tkey_set(tkeys(es)).contains(k) implies crate::termmap::entries_tmap(
            es,
        ).dom().contains(k) by {
            let t = choose|t: int| 0 <= t < tkeys(es).len() && #[trigger] tkeys(es)[t] == k;
            if t < es.len() - 1 {
                assert(tkeys(es.drop_last())[t] == k);
            }
        }
        assert(crate::termmap::entries_tmap(es).dom() =~= tkey_set(tkeys(es)));
    }
}

} // verus!
