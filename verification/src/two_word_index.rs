use vstd::prelude::*;
use crate::doc_index::DocMap;
use crate::doc_index::IndexError;
use crate::doc_index::docs_at;
use crate::doc_index::docs_in;
use crate::doc_index::dmaps_union;
use crate::doc_index::dunion_restrict;
use crate::doc_index::lemma_docs_in_step;
use crate::doc_index::lemma_tmap_dom_keyset;
use crate::document::DocumentId;
use crate::query::LogicNode;
use crate::query::SNode;
use crate::query::node_view;
use crate::termmap::TermMap;
use crate::termmap::tkey_set;
use crate::termmap::tkeys;
use crate::termmap::lemma_tmap_take_step;
use crate::text::dup_chars;
use crate::text::str_to_chars;
use crate::uintset::UintSet;

verus! {

/// The key two adjacent words form: the words joined by an underscore.
pub open spec fn bigram_key(a: Seq<char>, b: Seq<char>) -> Seq<char> {
    a + seq!['_'] + b
}

/// The query semantics of the two-word index: Boolean connectives at the
/// document level, and of the positional operators exactly the pattern
/// "term immediately followed by term", answered by bigram-key lookup.
pub open spec fn twoword_eval(m: DocMap, q: SNode) -> Result<Set<usize>, IndexError>
    decreases q,
{
    match q {
        SNode::False => Ok(Set::empty()),
        SNode::Term(_) => Err(IndexError::Unsupported),
        SNode::And(a, b) => match (twoword_eval(m, *a), twoword_eval(m, *b)) {
            (Err(e), _) => Err(e),
            (_, Err(e)) => Err(e),
            (Ok(x), Ok(y)) => Ok(x.intersect(y)),
        },
        SNode::Or(a, b) => match (twoword_eval(m, *a), twoword_eval(m, *b)) {
            (Err(e), _) => Err(e),
            (_, Err(e)) => Err(e),
            (Ok(x), Ok(y)) => Ok(x.union(y)),
        },
        SNode::Not(a) => match twoword_eval(m, *a) {
            Ok(x) => Ok(docs_in(m).difference(x)),
            Err(e) => Err(e),
        },
        SNode::Subtract(a, b) => match (twoword_eval(m, *a), twoword_eval(m, *b)) {
            (Err(e), _) => Err(e),
            (_, Err(e)) => Err(e),
            (Ok(x), Ok(y)) => Ok(x.difference(y)),
        },
        SNode::Near(a, b, l, r) => {
            if (*a) matches SNode::Term(_) && (*b) matches SNode::Term(_) && l == 0 && r == 1 {
                Ok(docs_at(m, bigram_key((*a)->Term_0, (*b)->Term_0)))
            } else {
                Err(IndexError::Unsupported)
            }
        },
    }
}

/// A node's specification value is a term exactly when the node is.
pub proof fn lemma_node_view_term(n: LogicNode)
    ensures
        (node_view(n) is Term) == (n is Term),
{
    match n {
        LogicNode::False => {},
        LogicNode::Term(_) => {},
        LogicNode::And(_, _) => {},
        LogicNode::Or(_, _) => {},
        LogicNode::Not(_) => {},
        LogicNode::Near(_, _, _, _) => {},
        LogicNode::Subtract(_, _) => {},
    }
}

/// An index over two-word keys: each pair of adjacent words in a document is
/// recorded, joined by an underscore, with the documents it appears in.
#[derive(Debug)]
pub struct TwoWordIndex {
    index: TermMap<UintSet>,
    prev_word: Option<(Vec<char>, DocumentId)>,
}

impl TwoWordIndex {
    /// The map from bigram key to document set.
    pub closed spec fn tmap(&self) -> DocMap {
        self.index@
    }

    /// The last word fed in, with its document, if any.
    pub closed spec fn prev(&self) -> Option<(Seq<char>, usize)> {
        match self.prev_word {
            Some(p) => Some((p.0@, p.1.0)),
            None => None,
        }
    }

    pub closed spec fn wf(&self) -> bool {
        &&& self.index.wf()
        &&& forall|i: int|
            0 <= i < self.index.list().len() ==> (#[trigger] self.index.list()[i]).1.wf()
    }

    pub fn new() -> (r: TwoWordIndex)
        ensures
            r.wf(),
            r.tmap() == Map::<Seq<char>, Set<usize>>::empty(),
            r.prev() is None,
    {
        TwoWordIndex { index: TermMap::new(), prev_word: None }
    }

    /// How many distinct two-word keys are indexed.
    pub fn unique_word_count(&self) -> (r: usize)
        requires
            self.wf(),
        ensures
            r == self.tmap().dom().len(),
    {
        self.index.len()
    }

    /// The documents recorded under a two-word key; empty when absent.
    pub fn get_term_documents(&self, term: &str) -> (r: UintSet)
        requires
            self.wf(),
        ensures
            r.wf(),
            r@ == docs_at(self.tmap(), term@),
    {
        let tv = str_to_chars(term);
        match self.index.get(&tv) {
            Some(s) => {
                proof {
                    let i = choose|i: int|
                        0 <= i < self.index.list().len() && (#[trigger] self.index.list()[i]).1
                            == s;
                }
                s.duplicate()
            },
            None => UintSet::new(),
        }
    }

    /// Every document recorded under any key.
    pub fn documents(&self) -> (r: UintSet)
        requires
            self.wf(),
        ensures
            r.wf(),
            r@ == docs_in(self.tmap()),
    {
        proof {
            self.index.lemma_list();
        }
        let es = self.index.entries();
        let n = es.len();
        let mut acc = UintSet::new();
        let mut j: usize = 0;
        proof {
            assert(es@.take(0) =~= Seq::<(Vec<char>, UintSet)>::empty());
            assert(acc@ =~= docs_in(crate::termmap::entries_tmap(es@.take(0))));
        }
        while j < n
            invariant
                acc.wf(),
                self.wf(),
                es@ == self.index.list(),
                crate::termmap::tkeys_unique(es@),
                n == es@.len(),
                j <= n,
                acc@ == docs_in(crate::termmap::entries_tmap(es@.take(j as int))),
            decreases n - j,
        {
            proof {
                lemma_docs_in_step(es@, j as int);
            }
            acc = acc.union_with(&es[j].1);
            j += 1;
        }
        proof {
            assert(es@.take(n as int) =~= es@);
            self.index.lemma_list();
        }
        acc
    }

    /// Feeds the next word of a document: when it follows a previous word of
    /// the same document, their two-word key gains this document.
    pub fn add_term(&mut self, word: String, document_id: DocumentId)
        requires
            old(self).wf(),
        ensures
            final(self).wf(),
            final(self).prev() == Some((word@, document_id.0)),
            final(self).tmap() == (match old(self).prev() {
                Some(p) => if p.1 == document_id.0 {
                    old(self).tmap().insert(
                        bigram_key(p.0, word@),
                        docs_at(old(self).tmap(), bigram_key(p.0, word@)).insert(document_id.0),
                    )
                } else {
                    old(self).tmap()
                },
                None => old(self).tmap(),
            }),
    {
        let wv = str_to_chars(word.as_str());
        let d = document_id.0;
        let update = match &self.prev_word {
            Some(pair) => {
                if pair.1 == document_id {
                    let mut key = dup_chars(&pair.0);
                    key.push('_');
                    let mut tail = dup_chars(&wv);
                    key.append(&mut tail);
                    proof {
                        assert(key@ =~= bigram_key(old(self).prev()->Some_0.0, word@));
                    }
                    Some(key)
                } else {
                    None
                }
            },
            None => None,
        };
        match update {
            Some(key) => {
                let set = match self.index.get(&key) {
                    Some(s) => {
                        proof {
                            let i = choose|i: int|
                                0 <= i < self.index.list().len() && (#[trigger] self.index.list()[i]).1 == s;
                        }
                        let mut c = s.duplicate();
                        c.insert(d);
                        c
                    },
                    None => {
                        let mut c = UintSet::new();
                        c.insert(d);
                        c
                    },
                };
                self.index.set(key, set);
                proof {
                    assert(self.tmap() =~~= old(self).tmap().insert(
                        bigram_key(old(self).prev()->Some_0.0, word@),
                        docs_at(
                            old(self).tmap(),
                            bigram_key(old(self).prev()->Some_0.0, word@),
                        ).insert(d),
                    ));
                }
            },
            None => {},
        }
        self.prev_word = Some((wv, document_id));
    }

    /// Folds another two-word index into this one: per-key document-set
    /// union; the word under accumulation stays this index's.
    pub fn merge(&mut self, other: &TwoWordIndex)
        requires
            old(self).wf(),
            other.wf(),
        ensures
            final(self).wf(),
            final(self).tmap() == dmaps_union(old(self).tmap(), other.tmap()),
            final(self).prev() == old(self).prev(),
    {
        let ghost a = old(self).tmap();
        proof {
            other.index.lemma_list();
        }
        let oes = other.index.entries();
        let n = oes.len();
        let mut j: usize = 0;
        proof {
            assert(oes@.take(0) =~= Seq::<(Vec<char>, UintSet)>::empty());
            assert(self.tmap() =~~= dunion_restrict(a, other.tmap(), Set::empty()));
        }
        while j < n
            invariant
                self.index.wf(),
                forall|i: int|
                    0 <= i < self.index.list().len() ==> (#[trigger] self.index.list()[i]).1.wf(),
                other.wf(),
                oes@ == other.index.list(),
                crate::termmap::tkeys_unique(oes@),
                n == oes@.len(),
                j <= n,
                self.tmap() == dunion_restrict(
                    a,
                    other.tmap(),
                    tkey_set(tkeys(oes@.take(j as int))),
                ),
                a == old(self).tmap(),
                self.prev_word == old(self).prev_word,
            decreases n - j,
        {
            let tref = &oes[j].0;
            proof {
                other.index.lemma_list();
                crate::termmap::lemma_tmap_index(oes@, j as int);
                lemma_tmap_take_step(oes@, j as int);
            }
            let combined = match self.index.get(tref) {
                Some(mine) => {
                    proof {
                        let i = choose|i: int|
                            0 <= i < self.index.list().len() && (#[trigger] self.index.list()[i]).1 == mine;
                    }
                    mine.union_with(&oes[j].1)
                },
                None => oes[j].1.duplicate(),
            };
            let tv = dup_chars(tref);
            self.index.set(tv, combined);
            proof {
                assert(self.tmap() =~~= dunion_restrict(
                    a,
                    other.tmap(),
                    tkey_set(tkeys(oes@.take(j + 1))),
                ));
            }
            j += 1;
        }
        proof {
            assert(oes@.take(n as int) =~= oes@);
            other.index.lemma_list();
            lemma_tmap_dom_keyset(oes@);
            assert(self.tmap() =~~= dmaps_union(a, other.tmap()));
        }
    }

    /// Answers a query: the result is exactly `twoword_eval` over the bigram
    /// map.
    pub fn query(&self, query_ast: &LogicNode) -> (r: Result<UintSet, IndexError>)
        requires
            self.wf(),
        ensures
            r is Ok <==> twoword_eval(self.tmap(), node_view(*query_ast)) is Ok,
            r matches Ok(s) ==> s.wf() && twoword_eval(self.tmap(), node_view(*query_ast)) == Ok::<
                Set<usize>,
                IndexError,
            >(s@),
            r matches Err(e) ==> twoword_eval(self.tmap(), node_view(*query_ast)) == Err::<
                Set<usize>,
                IndexError,
            >(e),
        decreases *query_ast,
    {
        match query_ast {
            LogicNode::False => Ok(UintSet::new()),
            LogicNode::Term(_) => Err(IndexError::Unsupported),
            LogicNode::And(a, b) => {
                let x = match self.query(a) {
                    Ok(x) => x,
                    Err(e) => {
                        return Err(e);
                    },
                };
                let y = match self.query(b) {
                    Ok(y) => y,
                    Err(e) => {
                        return Err(e);
                    },
                };
                Ok(x.intersect(&y))
            },
            LogicNode::Or(a, b) => {
                let x = match self.query(a) {
                    Ok(x) => x,
                    Err(e) => {
                        return Err(e);
                    },
                };
                let y = match self.query(b) {
                    Ok(y) => y,
                    Err(e) => {
                        return Err(e);
                    },
                };
                Ok(x.union_with(&y))
            },
            LogicNode::Not(a) => {
                let x = match self.query(a) {
                    Ok(x) => x,
                    Err(e) => {
                        return Err(e);
                    },
                };
                let u = self.documents();
                Ok(u.difference(&x))
            },
            LogicNode::Subtract(a, b) => {
                let x = match self.query(a) {
                    Ok(x) => x,
                    Err(e) => {
                        return Err(e);
                    },
                };
                let y = match self.query(b) {
                    Ok(y) => y,
                    Err(e) => {
                        return Err(e);
                    },
                };
                Ok(x.difference(&y))
            },
            LogicNode::Near(a, b, l, r) => {
                proof {
                    lemma_node_view_term(**a);
                    lemma_node_view_term(**b);
                }
                let mut keyed: Option<Vec<char>> = None;
                match (&**a, &**b) {
                    (LogicNode::Term(x), LogicNode::Term(y)) => {
                        if *l == 0 && *r == 1 {
                            proof {
                                assert(node_view(**a) == SNode::Term(x@));
                                assert(node_view(**b) == SNode::Term(y@));
                            }
                            let mut key = str_to_chars(x.as_str());
                            key.push('_');
                            let mut tail = str_to_chars(y.as_str());
                            key.append(&mut tail);
                            proof {
                                assert(key@ =~= bigram_key(x@, y@));
                            }
                            keyed = Some(key);
                        }
                    },
                    _ => {},
                }
                match keyed {
                    Some(key) => {
                        let r = match self.index.get(&key) {
                            Some(s) => {
                                proof {
                                    let i = choose|i: int|
                                        0 <= i < self.index.list().len() && (
                                        #[trigger] self.index.list()[i]).1 == s;
                                }
                                s.duplicate()
                            },
                            None => UintSet::new(),
                        };
                        Ok(r)
                    },
                    None => Err(IndexError::Unsupported),
                }
            },
        }
    }
}

} // verus!
