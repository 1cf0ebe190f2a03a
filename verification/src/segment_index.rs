use vstd::prelude::*;
use crate::doc_index::IndexError;
use crate::query::LogicNode;
use crate::query::SNode;
use crate::query::node_view;
use crate::segments::SegmentKind;
use crate::segments::TermPosition;
use crate::segments::kind_weight_tenths;
use crate::termmap::TermMap;
use crate::termmap::tkey_set;
use crate::termmap::tkeys;
use crate::termmap::lemma_tmap_take_step;
use crate::text::str_to_chars;

verus! {

/// The set of term locations a sequence holds.
pub open spec fn pair_set(s: Seq<TermPosition>) -> Set<TermPosition> {
    Set::new(|p: TermPosition| s.contains(p))
}

/// A finite set of term locations, stored without duplicates.
#[derive(Debug)]
pub struct PairSet {
    items: Vec<TermPosition>,
}

impl View for PairSet {
    type V = Set<TermPosition>;

    closed spec fn view(&self) -> Set<TermPosition> {
        pair_set(self.items@)
    }
}

impl PairSet {
    pub closed spec fn wf(&self) -> bool {
        forall|i: int, j: int| 0 <= i < j < self.items@.len() ==> self.items@[i] != self.items@[j]
    }

    pub fn new() -> (r: PairSet)
        ensures
            r.wf(),
            r@ == Set::<TermPosition>::empty(),
    {
        let r = PairSet { items: Vec::new() };
        proof {
            assert(r@ =~= Set::<TermPosition>::empty());
        }
        r
    }

    /// Whether the location is held.
    pub fn contains(&self, p: TermPosition) -> (r: bool)
        ensures
            r == self@.contains(p),
    {
        let n = self.items.len();
        let mut j: usize = 0;
        while j < n
            invariant
                n == self.items@.len(),
                j <= n,
                forall|t: int| 0 <= t < j ==> self.items@[t] != p,
            decreases n - j,
        {
            if self.items[j] == p {
                assert(self.items@.contains(p));
                return true;
            }
            j += 1;
        }
        proof {
            if self.items@.contains(p) {
                let t = choose|t: int| 0 <= t < self.items@.len() && #[trigger] self.items@[t] == p;
                assert(false);
            }
        }
        false
    }

    /// Adds the location if it is new.
    pub fn insert(&mut self, p: TermPosition)
        requires
            old(self).wf(),
        ensures
            final(self).wf(),
            final(self)@ == old(self)@.insert(p),
    {
        if self.contains(p) {
            proof {
                assert(self@ =~= old(self)@.insert(p));
            }
            return ;
        }
        proof {
            if self.items@.contains(p) {
                let t = choose|t: int| 0 <= t < self.items@.len() && #[trigger] self.items@[t] == p;
                assert(false);
            }
        }
        self.items.push(p);
        proof {
            assert(forall|t: int| 0 <= t < old(self).items@.len() ==> self.items@[t] == old(
                self,
            ).items@[t]);
            assert forall|x: TermPosition| self@.contains(x) implies old(self)@.insert(p).contains(
                x,
            ) by {
                let t = choose|t: int|
                    0 <= t < self.items@.len() && #[trigger] self.items@[t] == x;
                if t < self.items@.len() - 1 {
                    assert(old(self).items@.contains(x));
                }
            }
            assert forall|x: TermPosition| old(self)@.insert(p).contains(x) implies self@.contains(
                x,
            ) by {
                if x == p {
                    assert(self.items@.last() == p);
                    assert(self.items@.contains(p));
                } else {
                    let t = choose|t: int|
                        0 <= t < old(self).items@.len() && #[trigger] old(self).items@[t] == x;
                    assert(self.items@[t] == x);
                    assert(self.items@.contains(x));
                }
            }
            assert(self@ =~= old(self)@.insert(p));
        }
    }

    /// The set holding the locations of both sets.
    pub fn union_with(&self, other: &PairSet) -> (r: PairSet)
        requires
            self.wf(),
            other.wf(),
        ensures
            r.wf(),
            r@ == self@.union(other@),
    {
        let mut r = self.duplicate();
        let n = other.items.len();
        let mut j: usize = 0;
        proof {
            assert(pair_set(other.items@.take(0)) =~= Set::<TermPosition>::empty());
            assert(r@ =~= self@.union(pair_set(other.items@.take(0))));
        }
        while j < n
            invariant
                r.wf(),
                other.wf(),
                n == other.items@.len(),
                j <= n,
                r@ == self@.union(pair_set(other.items@.take(j as int))),
            decreases n - j,
        {
            proof {
                assert(pair_set(other.items@.take(j + 1)) =~= pair_set(
                    other.items@.take(j as int),
                ).insert(other.items@[j as int])) by {
                    assert forall|x: TermPosition|
                        pair_set(other.items@.take(j + 1)).contains(x) implies pair_set(
                        other.items@.take(j as int),
                    ).insert(other.items@[j as int]).contains(x) by {
                        let t = choose|t: int|
                            0 <= t < j + 1 && #[trigger] other.items@.take(j + 1)[t] == x;
                        if t < j {
                            assert(other.items@.take(j as int)[t] == x);
                        }
                    }
                    assert forall|x: TermPosition|
                        pair_set(other.items@.take(j as int)).insert(
                            other.items@[j as int],
                        ).contains(x) implies pair_set(other.items@.take(j + 1)).contains(x) by {
                        if x == other.items@[j as int] {
                            assert(other.items@.take(j + 1)[j as int] == x);
                        } else {
                            let t = choose|t: int|
                                0 <= t < j && #[trigger] other.items@.take(j as int)[t] == x;
                            assert(other.items@.take(j + 1)[t] == x);
                        }
                    }
                }
            }
            r.insert(other.items[j]);
            proof {
                assert(r@ =~= self@.union(pair_set(other.items@.take(j + 1))));
            }
            j += 1;
        }
        proof {
            assert(other.items@.take(n as int) =~= other.items@);
        }
        r
    }

    /// A copy of this set.
    pub fn duplicate(&self) -> (r: PairSet)
        requires
            self.wf(),
        ensures
            r.wf(),
            r@ == self@,
    {
        let n = self.items.len();
        let mut v: Vec<TermPosition> = Vec::new();
        let mut j: usize = 0;
        while j < n
            invariant
                n == self.items@.len(),
                j <= n,
                v@ == self.items@.take(j as int),
            decreases n - j,
        {
            v.push(self.items[j]);
            proof {
                assert(v@ =~= self.items@.take(j + 1));
            }
            j += 1;
        }
        proof {
            assert(self.items@.take(n as int) =~= self.items@);
        }
        PairSet { items: v }
    }

    /// The held locations, as a listing for iteration.
    pub fn elems(&self) -> (r: &Vec<TermPosition>)
        ensures
            pair_set(r@) == self@,
    {
        &self.items
    }

    /// How many locations are held.
    pub fn len(&self) -> (r: usize)
        requires
            self.wf(),
        ensures
            r == self@.len(),
    {
        proof {
            lemma_pair_card(self.items@);
        }
        self.items.len()
    }
}

proof fn lemma_pair_card(s: Seq<TermPosition>)
    requires
        forall|i: int, j: int| 0 <= i < j < s.len() ==> s[i] != s[j],
    ensures
        pair_set(s).finite(),
        pair_set(s).len() == s.len(),
    decreases s.len(),
{
    if s.len() == 0 {
        assert(pair_set(s) =~= Set::<TermPosition>::empty());
    } else {
        lemma_pair_card(s.drop_last());
        assert(!s.drop_last().contains(s.last())) by {
            if s.drop_last().contains(s.last()) {
                let t = choose|t: int|
                    0 <= t < s.len() - 1 && #[trigger] s.drop_last()[t] == s.last();
                assert(s[t] == s.last());
            }
        }
        assert(pair_set(s) =~= pair_set(s.drop_last()).insert(s.last())) by {
            assert forall|x: TermPosition| pair_set(s).contains(x) implies pair_set(
                s.drop_last(),
            ).insert(s.last()).contains(x) by {
                let t = choose|t: int| 0 <= t < s.len() && #[trigger] s[t] == x;
                if t < s.len() - 1 {
                    assert(s.drop_last()[t] == x);
                }
            }
            assert forall|x: TermPosition|
                pair_set(s.drop_last()).insert(s.last()).contains(x) implies pair_set(s).contains(
                x,
            ) by {
                if x == s.last() {
                    assert(s.contains(s.last()));
                } else {
                    let t = choose|t: int|
                        0 <= t < s.len() - 1 && #[trigger] s.drop_last()[t] == x;
                    assert(s[t] == x);
                }
            }
        }
    }
}

/// The type of a segmented posting map: term to set of term locations.
pub type SegMap = Map<Seq<char>, Set<TermPosition>>;

/// The locations `m` records under `t`; empty when `t` is absent.
pub open spec fn seg_docs_at(m: SegMap, t: Seq<char>) -> Set<TermPosition> {
    if m.contains_key(t) {
        m[t]
    } else {
        Set::empty()
    }
}

/// Pointwise union of two segmented posting maps.
pub open spec fn smaps_union(a: SegMap, b: SegMap) -> SegMap {
    Map::new(
        |t: Seq<char>| a.contains_key(t) || b.contains_key(t),
        |t: Seq<char>| seg_docs_at(a, t).union(seg_docs_at(b, t)),
    )
}

/// Pointwise segmented merge is commutative.
pub proof fn lemma_smaps_union_comm(a: SegMap, b: SegMap)
    ensures
        smaps_union(a, b) == smaps_union(b, a),
{
    assert(smaps_union(a, b) =~~= smaps_union(b, a));
}

/// Pointwise segmented merge is associative.
pub proof fn lemma_smaps_union_assoc(a: SegMap, b: SegMap, c: SegMap)
    ensures
        smaps_union(smaps_union(a, b), c) == smaps_union(a, smaps_union(b, c)),
{
    assert(smaps_union(smaps_union(a, b), c) =~~= smaps_union(a, smaps_union(b, c)));
}

/// The query semantics of the segmented index: a term answers with its
/// locations, and nothing else is answerable at the location level.
pub open spec fn seg_eval(m: SegMap, q: SNode) -> Result<Set<TermPosition>, IndexError> {
    match q {
        SNode::False => Ok(Set::empty()),
        SNode::Term(w) => Ok(seg_docs_at(m, w)),
        _ => Err(IndexError::Unsupported),
    }
}

/// An index over `(document, segment kind)` locations: the same term in two
/// regions of one document yields two distinct postings.
#[derive(Debug)]
pub struct SegmentIndex {
    index: TermMap<PairSet>,
}

impl SegmentIndex {
    /// The map from term to its locations.
    pub closed spec fn tmap(&self) -> SegMap {
        self.index@
    }

    pub closed spec fn wf(&self) -> bool {
        &&& self.index.wf()
        &&& forall|i: int|
            0 <= i < self.index.list().len() ==> (#[trigger] self.index.list()[i]).1.wf()
    }

    pub fn new() -> (r: SegmentIndex)
        ensures
            r.wf(),
            r.tmap() == Map::<Seq<char>, Set<TermPosition>>::empty(),
    {
        SegmentIndex { index: TermMap::new() }
    }

    /// How many distinct terms are indexed.
    pub fn unique_word_count(&self) -> (r: usize)
        requires
            self.wf(),
        ensures
            r == self.tmap().dom().len(),
    {
        self.index.len()
    }

    /// The locations recorded under `term`; empty when absent.
    pub fn term_positions(&self, term: &str) -> (r: PairSet)
        requires
            self.wf(),
        ensures
            r.wf(),
            r@ == seg_docs_at(self.tmap(), term@),
    {
        let tv = str_to_chars(term);
        match self.index.get(&tv) {
            Some(s) => {
                proof {
                    let i = choose|i: int|
                        0 <= i < self.index.list().len() && (#[trigger] self.index.list()[i]).1
                            == s;
                }
                s.duplicate()
            },
            None => PairSet::new(),
        }
    }

    /// Records that `term` occurs at the given location.
    pub fn add_term(&mut self, term: String, term_position: TermPosition)
        requires
            old(self).wf(),
        ensures
            final(self).wf(),
            final(self).tmap() == old(self).tmap().insert(
                term@,
                seg_docs_at(old(self).tmap(), term@).insert(term_position),
            ),
    {
        let tv = str_to_chars(term.as_str());
        let mut set = match self.index.get(&tv) {
            Some(s) => {
                proof {
                    let i = choose|i: int|
                        0 <= i < self.index.list().len() && (#[trigger] self.index.list()[i]).1
                            == s;
                }
                s.duplicate()
            },
            None => PairSet::new(),
        };
        set.insert(term_position);
        self.index.set(tv, set);
        proof {
            assert(final(self).tmap() =~~= old(self).tmap().insert(
                term@,
                seg_docs_at(old(self).tmap(), term@).insert(term_position),
            ));
        }
    }

    /// Folds another segmented index into this one: per-term location union.
    pub fn merge(&mut self, other: &SegmentIndex)
        requires
            old(self).wf(),
            other.wf(),
        ensures
            final(self).wf(),
            final(self).tmap() == smaps_union(old(self).tmap(), other.tmap()),
    {
        let ghost a = old(self).tmap();
        proof {
            other.index.lemma_list();
        }
        let oes = other.index.entries();
        let n = oes.len();
        let mut j: usize = 0;
        proof {
            assert(oes@.take(0) =~= Seq::<(Vec<char>, PairSet)>::empty());
            assert(self.tmap() =~~= sunion_restrict(a, other.tmap(), Set::empty()));
        }
        while j < n
            invariant
                self.index.wf(),
                forall|i: int|
                    0 <= i < self.index.list().len() ==> (#[trigger] self.index.list()[i]).1.wf(),
                other.wf(),
                oes@ == other.index.list(),
                crate::termmap::tkeys_unique(oes@),
                n == oes@.len(),
                j <= n,
                a == old(self).tmap(),
                self.tmap() == sunion_restrict(a, other.tmap(), tkey_set(tkeys(oes@.take(j as int)))),
            decreases n - j,
        {
            let tref = &oes[j].0;
            proof {
                other.index.lemma_list();
                crate::termmap::lemma_tmap_index(oes@, j as int);
                lemma_tmap_take_step(oes@, j as int);
                assert(oes@[j as int].1.wf()) by {
                    assert(other.index.list()[j as int] == oes@[j as int]);
                }
            }
            let combined = match self.index.get(tref) {
                Some(mine) => {
                    proof {
                        let i = choose|i: int|
                            0 <= i < self.index.list().len() && (#[trigger] self.index.list()[i]).1 == mine;
                    }
                    mine.union_with(&oes[j].1)
                },
                None => oes[j].1.duplicate(),
            };
            let tv = crate::text::dup_chars(tref);
            self.index.set(tv, combined);
            proof {
                assert(self.tmap() =~~= sunion_restrict(
                    a,
                    other.tmap(),
                    tkey_set(tkeys(oes@.take(j + 1))),
                ));
            }
            j += 1;
        }
        proof {
            assert(oes@.take(n as int) =~= oes@);
            other.index.lemma_list();
            crate::doc_index::lemma_tmap_dom_keyset(oes@);
            assert(self.tmap() =~~= smaps_union(a, other.tmap()));
        }
    }

    /// Answers a query: a bare term answers with its locations; the Boolean
    /// and positional operators are not answerable at this level.
    pub fn query(&self, query_ast: &LogicNode) -> (r: Result<PairSet, IndexError>)
        requires
            self.wf(),
        ensures
            r is Ok <==> seg_eval(self.tmap(), node_view(*query_ast)) is Ok,
            r matches Ok(s) ==> s.wf() && seg_eval(self.tmap(), node_view(*query_ast)) == Ok::<
                Set<TermPosition>,
                IndexError,
            >(s@),
            r matches Err(e) ==> seg_eval(self.tmap(), node_view(*query_ast)) == Err::<
                Set<TermPosition>,
                IndexError,
            >(e),
    {
        match query_ast {
            LogicNode::False => Ok(PairSet::new()),
            LogicNode::Term(t) => Ok(self.term_positions(t.as_str())),
            _ => Err(IndexError::Unsupported),
        }
    }
}

/// `smaps_union(a, b)` with `b` restricted to the terms in `s`.
pub open spec fn sunion_restrict(a: SegMap, b: SegMap, s: Set<Seq<char>>) -> SegMap {
    Map::new(
        |t: Seq<char>| a.contains_key(t) || (b.contains_key(t) && s.contains(t)),
        |t: Seq<char>| if b.contains_key(t) && s.contains(t) {
            seg_docs_at(a, t).union(b[t])
        } else {
            seg_docs_at(a, t)
        },
    )
}

/// The ranked weight of document `d` among the matched locations, in
/// tenths: the weights of the distinct segment kinds the document was hit
/// in, summed.
pub open spec fn doc_weight_tenths(s: Set<TermPosition>, d: usize) -> nat {
    (if s.contains(TermPosition { document: crate::document::DocumentId(d), segment_kind: SegmentKind::Filename }) {
        2nat
    } else {
        0nat
    }) + (if s.contains(TermPosition { document: crate::document::DocumentId(d), segment_kind: SegmentKind::Title }) {
        4nat
    } else {
        0nat
    }) + (if s.contains(TermPosition { document: crate::document::DocumentId(d), segment_kind: SegmentKind::Authors }) {
        1nat
    } else {
        0nat
    }) + (if s.contains(TermPosition { document: crate::document::DocumentId(d), segment_kind: SegmentKind::Body }) {
        2nat
    } else {
        0nat
    }) + (if s.contains(TermPosition { document: crate::document::DocumentId(d), segment_kind: SegmentKind::Epigraph }) {
        1nat
    } else {
        0nat
    })
}

/// The documents the matched locations touch.
pub open spec fn docs_of_pairs(s: Set<TermPosition>) -> Set<usize> {
    Set::new(|d: usize| exists|p: TermPosition| s.contains(p) && p.document.0 == d)
}

/// Groups matched locations by document and sums the weights of the hit
/// segment kinds, in tenths: one row per matched document, ascending by id,
/// each with exactly its summed weight.
pub fn rank_documents(hits: &PairSet) -> (r: Vec<(crate::document::DocumentId, u64)>)
    requires
        hits.wf(),
    ensures
        forall|a: int, b: int| 0 <= a < b < r@.len() ==> (#[trigger] r@[a]).0.0 < (#[trigger] r@[b]).0.0,
        forall|a: int|
            0 <= a < r@.len() ==> docs_of_pairs(hits@).contains((#[trigger] r@[a]).0.0) && (
            r@[a]).1 as nat == doc_weight_tenths(hits@, r@[a].0.0),
        forall|d: usize|
            #[trigger] docs_of_pairs(hits@).contains(d) ==> exists|a: int|
                0 <= a < r@.len() && (#[trigger] r@[a]).0.0 == d,
{
    let ps = hits.elems();
    let n = ps.len();
    let mut docs = crate::uintset::UintSet::new();
    let mut j: usize = 0;
    proof {
        assert(docs@ =~= Set::new(
            |d: usize| exists|t: int| 0 <= t < 0 && (#[trigger] ps@[t]).document.0 == d,
        ));
    }
    while j < n
        invariant
            docs.wf(),
            n == ps@.len(),
            pair_set(ps@) == hits@,
            hits.wf(),
            j <= n,
            docs@ == Set::new(
                |d: usize| exists|t: int| 0 <= t < j && (#[trigger] ps@[t]).document.0 == d,
            ),
        decreases n - j,
    {
        docs.insert(ps[j].document.0);
        proof {
            assert(docs@ =~= Set::new(
                |d: usize| exists|t: int| 0 <= t < j + 1 && (#[trigger] ps@[t]).document.0 == d,
            )) by {
                assert forall|d: usize|
                    docs@.contains(d) implies Set::new(
                    |dd: usize| exists|t: int| 0 <= t < j + 1 && (#[trigger] ps@[t]).document.0
                        == dd,
                ).contains(d) by {
                    if d != ps@[j as int].document.0 {
                        let t = choose|t: int|
                            0 <= t < j && (#[trigger] ps@[t]).document.0 == d;
                    }
                }
            }
        }
        j += 1;
    }
    proof {
        assert(docs@ =~= docs_of_pairs(hits@)) by {
            assert forall|d: usize| docs@.contains(d) implies docs_of_pairs(hits@).contains(
                d,
            ) by {
                let t = choose|t: int| 0 <= t < n && (#[trigger] ps@[t]).document.0 == d;
                assert(ps@.contains(ps@[t]));
                assert(hits@.contains(ps@[t]));
            }
            assert forall|d: usize| docs_of_pairs(hits@).contains(d) implies docs@.contains(
                d,
            ) by {
                let p = choose|p: TermPosition| hits@.contains(p) && p.document.0 == d;
                let t = choose|t: int| 0 <= t < n && #[trigger] ps@[t] == p;
            }
        }
    }
    let ds = docs.elems();
    let m = ds.len();
    let mut out: Vec<(crate::document::DocumentId, u64)> = Vec::new();
    let mut k: usize = 0;
    proof {
        docs.lemma_ordered();
    }
    while k < m
        invariant
            docs.wf(),
            hits.wf(),
            m == ds@.len(),
            ds@ == docs.ordered(),
            docs@ == docs_of_pairs(hits@),
            crate::uintset::strictly_sorted(ds@),
            crate::uintset::seq_set(ds@) == docs@,
            k <= m,
            out@.len() == k,
            forall|a: int|
                0 <= a < k ==> (#[trigger] out@[a]).0.0 == ds@[a] && (out@[a]).1 as nat
                    == doc_weight_tenths(hits@, ds@[a]),
        decreases m - k,
    {
        let d = ds[k];
        let mut w: u64 = 0;
        if hits.contains(TermPosition {
            document: crate::document::DocumentId(d),
            segment_kind: SegmentKind::Filename,
        }) {
            w = w + 2;
        }
        if hits.contains(TermPosition {
            document: crate::document::DocumentId(d),
            segment_kind: SegmentKind::Title,
        }) {
            w = w + 4;
        }
        if hits.contains(TermPosition {
            document: crate::document::DocumentId(d),
            segment_kind: SegmentKind::Authors,
        }) {
            w = w + 1;
        }
        if hits.contains(TermPosition {
            document: crate::document::DocumentId(d),
            segment_kind: SegmentKind::Body,
        }) {
            w = w + 2;
        }
        if hits.contains(TermPosition {
            document: crate::document::DocumentId(d),
            segment_kind: SegmentKind::Epigraph,
        }) {
            w = w + 1;
        }
        out.push((crate::document::DocumentId(d), w));
        k += 1;
    }
    proof {
        assert forall|a: int|
            0 <= a < out@.len() implies docs_of_pairs(hits@).contains((#[trigger] out@[a]).0.0)
                && (out@[a]).1 as nat == doc_weight_tenths(hits@, out@[a].0.0) by {
            assert(ds@.contains(ds@[a]));
            assert(crate::uintset::seq_set(ds@).contains(ds@[a]));
        }
        assert forall|d: usize| #[trigger]
            docs_of_pairs(hits@).contains(d) implies exists|a: int|
            0 <= a < out@.len() && (#[trigger] out@[a]).0.0 == d by {
            assert(crate::uintset::seq_set(ds@).contains(d));
            let t = choose|t: int| 0 <= t < ds@.len() && #[trigger] ds@[t] == d;
            assert(out@[t].0.0 == d);
        }
    }
    out
}

/// The sum of segment-kind weights, in tenths.
pub open spec fn weight_tenths_sum(ks: Seq<SegmentKind>) -> nat
    decreases ks.len(),
{
    if ks.len() == 0 {
        0
    } else {
        weight_tenths_sum(ks.drop_last()) + kind_weight_tenths(ks.last())
    }
}

/// The ranked weight of a document's matched segments, in tenths: the sum of
/// the weights of the listed segment kinds.
pub fn calculate_weight_tenths(kinds: &Vec<SegmentKind>) -> (r: u64)
    requires
        4 * kinds@.len() <= u64::MAX,
    ensures
        r == weight_tenths_sum(kinds@),
{
    let n = kinds.len();
    let mut acc: u64 = 0;
    let mut j: usize = 0;
    proof {
        assert(kinds@.take(0) =~= Seq::<SegmentKind>::empty());
    }
    while j < n
        invariant
            n == kinds@.len(),
            j <= n,
            acc == weight_tenths_sum(kinds@.take(j as int)),
            acc <= 4 * j,
            4 * n <= u64::MAX,
        decreases n - j,
    {
        proof {
            assert(kinds@.take(j + 1).drop_last() =~= kinds@.take(j as int));
            assert(kinds@.take(j + 1).last() == kinds@[j as int]);
        }
        acc = acc + kinds[j].weight_tenths();
        j += 1;
    }
    proof {
        assert(kinds@.take(n as int) =~= kinds@);
    }
    acc
}

} // verus!
