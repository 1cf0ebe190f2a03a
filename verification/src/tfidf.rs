use vstd::prelude::*;
use crate::document::DocumentId;
use crate::termmap::TermMap;
use crate::termmap::tkey_set;
use crate::termmap::tkeys;
use crate::termmap::lemma_tmap_take_step;
use crate::text::str_to_chars;
use crate::text::chars_to_string;

verus! {

/// How many occurrences `m` records under `d`; zero when `d` is absent.
pub open spec fn count_at(m: Map<usize, nat>, d: usize) -> nat {
    if m.contains_key(d) {
        m[d]
    } else {
        0
    }
}

/// `m` with `c` more occurrences recorded under `d`.
pub open spec fn count_bump(m: Map<usize, nat>, d: usize, c: nat) -> Map<usize, nat> {
    m.insert(d, count_at(m, d) + c)
}

/// The pointwise sum of two count maps.
pub open spec fn counts_sum(a: Map<usize, nat>, b: Map<usize, nat>) -> Map<usize, nat> {
    Map::new(
        |d: usize| a.contains_key(d) || b.contains_key(d),
        |d: usize| count_at(a, d) + count_at(b, d),
    )
}

/// Summing count maps is commutative.
pub proof fn lemma_counts_sum_comm(a: Map<usize, nat>, b: Map<usize, nat>)
    ensures
        counts_sum(a, b) == counts_sum(b, a),
{
    assert(counts_sum(a, b) =~= counts_sum(b, a));
}

/// Summing count maps is associative.
pub proof fn lemma_counts_sum_assoc(a: Map<usize, nat>, b: Map<usize, nat>, c: Map<usize, nat>)
    ensures
        counts_sum(counts_sum(a, b), c) == counts_sum(a, counts_sum(b, c)),
{
    assert(counts_sum(counts_sum(a, b), c) =~= counts_sum(a, counts_sum(b, c)));
}

pub open spec fn ckeys_unique(es: Seq<(usize, usize)>) -> bool {
    forall|i: int, j: int| 0 <= i < j < es.len() ==> es[i].0 != es[j].0
}

pub open spec fn entries_cmap(es: Seq<(usize, usize)>) -> Map<usize, nat>
    decreases es.len(),
{
    if es.len() == 0 {
        Map::empty()
    } else {
        entries_cmap(es.drop_last()).insert(es.last().0, es.last().1 as nat)
    }
}

pub proof fn lemma_cmap_absent(es: Seq<(usize, usize)>, d: usize)
    requires
        forall|i: int| 0 <= i < es.len() ==> es[i].0 != d,
    ensures
        !entries_cmap(es).contains_key(d),
    decreases es.len(),
{
    if es.len() > 0 {
        lemma_cmap_absent(es.drop_last(), d);
    }
}

pub proof fn lemma_cmap_index(es: Seq<(usize, usize)>, j: int)
    requires
        ckeys_unique(es),
        0 <= j < es.len(),
    ensures
        entries_cmap(es).contains_key(es[j].0),
        entries_cmap(es)[es[j].0] == es[j].1 as nat,
    decreases es.len(),
{
    if j < es.len() - 1 {
        assert(es.drop_last()[j] == es[j]);
        lemma_cmap_index(es.drop_last(), j);
    }
}

pub proof fn lemma_cmap_update(es: Seq<(usize, usize)>, k: int, e: (usize, usize))
    requires
        ckeys_unique(es),
        0 <= k < es.len(),
        e.0 == es[k].0,
    ensures
        entries_cmap(es.update(k, e)) == entries_cmap(es).insert(e.0, e.1 as nat),
        ckeys_unique(es.update(k, e)),
    decreases es.len(),
{
    if k == es.len() - 1 {
        assert(es.update(k, e).drop_last() =~= es.drop_last());
        assert(entries_cmap(es.update(k, e)) =~= entries_cmap(es).insert(e.0, e.1 as nat));
    } else {
        assert(es.update(k, e).drop_last() =~= es.drop_last().update(k, e));
        assert(es.drop_last()[k] == es[k]);
        lemma_cmap_update(es.drop_last(), k, e);
        assert(es.last().0 != e.0);
        assert(entries_cmap(es.update(k, e)) =~= entries_cmap(es).insert(e.0, e.1 as nat));
    }
}

pub proof fn lemma_cmap_push(es: Seq<(usize, usize)>, e: (usize, usize))
    ensures
        entries_cmap(es.push(e)) == entries_cmap(es).insert(e.0, e.1 as nat),
{
    assert(es.push(e).drop_last() =~= es);
    assert(es.push(e).last() == e);
}

pub proof fn lemma_cmap_card(es: Seq<(usize, usize)>)
    requires
        ckeys_unique(es),
    ensures
        entries_cmap(es).dom().finite(),
        entries_cmap(es).dom().len() == es.len(),
    decreases es.len(),
{
    if es.len() > 0 {
        lemma_cmap_card(es.drop_last());
        lemma_cmap_absent(es.drop_last(), es.last().0);
    }
}

/// Occurrence counts of one term per document.
#[derive(Debug)]
pub struct TermCounts {
    entries: Vec<(usize, usize)>,
}

impl View for TermCounts {
    type V = Map<usize, nat>;

    /// The map from document id to occurrence count.
    closed spec fn view(&self) -> Map<usize, nat> {
        entries_cmap(self.entries@)
    }
}

impl TermCounts {
    pub closed spec fn wf(&self) -> bool {
        ckeys_unique(self.entries@)
    }

    pub fn new() -> (r: TermCounts)
        ensures
            r.wf(),
            r@ == Map::<usize, nat>::empty(),
    {
        TermCounts { entries: Vec::new() }
    }

    /// How many documents the term occurs in.
    pub fn document_count(&self) -> (r: usize)
        requires
            self.wf(),
        ensures
            r == self@.dom().len(),
    {
        proof {
            lemma_cmap_card(self.entries@);
        }
        self.entries.len()
    }

    /// The count recorded for `d`; zero when absent.
    pub fn count(&self, document_id: DocumentId) -> (r: usize)
        requires
            self.wf(),
        ensures
            r == count_at(self@, document_id.0),
    {
        let n = self.entries.len();
        let mut j: usize = 0;
        while j < n
            invariant
                self.wf(),
                n == self.entries@.len(),
                j <= n,
                forall|t: int| 0 <= t < j ==> (#[trigger] self.entries@[t]).0 != document_id.0,
            decreases n - j,
        {
            if self.entries[j].0 == document_id.0 {
                proof {
                    lemma_cmap_index(self.entries@, j as int);
                }
                return self.entries[j].1;
            }
            j += 1;
        }
        proof {
            lemma_cmap_absent(self.entries@, document_id.0);
        }
        0
    }

    /// Records one more occurrence in `d`.
    pub fn add_position(&mut self, document_id: DocumentId)
        requires
            old(self).wf(),
            count_at(old(self)@, document_id.0) + 1 <= usize::MAX,
        ensures
            final(self).wf(),
            final(self)@ == count_bump(old(self)@, document_id.0, 1),
    {
        self.add_position_with_count(document_id, 1)
    }

    /// Records `delta` more occurrences in `d`.
    pub fn add_position_with_count(&mut self, document_id: DocumentId, delta: usize)
        requires
            old(self).wf(),
            count_at(old(self)@, document_id.0) + delta <= usize::MAX,
        ensures
            final(self).wf(),
            final(self)@ == count_bump(old(self)@, document_id.0, delta as nat),
    {
        let d = document_id.0;
        let ghost es0 = self.entries@;
        let n = self.entries.len();
        let mut j: usize = 0;
        while j < n
            invariant
                self.entries@ == es0,
                es0 == old(self).entries@,
                ckeys_unique(es0),
                count_at(old(self)@, d) + delta <= usize::MAX,
                d == document_id.0,
                n == es0.len(),
                j <= n,
                forall|t: int| 0 <= t < j ==> (#[trigger] es0[t]).0 != d,
            decreases n - j,
        {
            if self.entries[j].0 == d {
                proof {
                    lemma_cmap_index(es0, j as int);
                }
                let c = self.entries[j].1;
                self.entries[j] = (d, c + delta);
                proof {
                    lemma_cmap_update(es0, j as int, self.entries@[j as int]);
                    assert(self@ =~= count_bump(old(self)@, d, delta as nat));
                }
                return ;
            }
            j += 1;
        }
        proof {
            lemma_cmap_absent(es0, d);
            lemma_cmap_push(es0, (d, delta));
        }
        self.entries.push((d, delta));
        proof {
            assert(forall|i: int| 0 <= i < es0.len() ==> self.entries@[i] == es0[i]);
            assert(ckeys_unique(self.entries@));
            assert(self@ =~= count_bump(old(self)@, d, delta as nat));
        }
    }

    /// Folds another term's counts into these, summing per document.
    pub fn merge(&mut self, other: &TermCounts)
        requires
            old(self).wf(),
            other.wf(),
            forall|d: usize|
                count_at(old(self)@, d) + count_at(other@, d) <= usize::MAX,
        ensures
            final(self).wf(),
            final(self)@ == counts_sum(old(self)@, other@),
    {
        let ghost a = old(self)@;
        let ghost oes = other.entries@;
        let n = other.entries.len();
        let mut j: usize = 0;
        proof {
            assert(oes.take(0) =~= Seq::<(usize, usize)>::empty());
            assert(self@ =~= csum_restrict(a, other@, Set::empty()));
        }
        while j < n
            invariant
                self.wf(),
                other.wf(),
                ckeys_unique(oes),
                oes == other.entries@,
                n == oes.len(),
                j <= n,
                a == old(self)@,
                forall|d: usize| count_at(a, d) + count_at(other@, d) <= usize::MAX,
                self@ == csum_restrict(a, other@, cids_set(oes.take(j as int))),
            decreases n - j,
        {
            let d = other.entries[j].0;
            let c = other.entries[j].1;
            proof {
                lemma_cmap_index(oes, j as int);
                lemma_cids_take_step(oes, j as int);
                assert(!cids_set(oes.take(j as int)).contains(d)) by {
                    if cids_set(oes.take(j as int)).contains(d) {
                        let t = choose|t: int|
                            0 <= t < j && (#[trigger] oes.take(j as int)[t]).0 == d;
                        assert(oes[t].0 == d);
                    }
                }
                assert(count_at(self@, d) == count_at(a, d));
            }
            self.add_position_with_count(DocumentId(d), c);
            proof {
                assert(self@ =~= csum_restrict(a, other@, cids_set(oes.take(j + 1))));
            }
            j += 1;
        }
        proof {
            assert(oes.take(n as int) =~= oes);
            assert(self@ =~= counts_sum(a, other@)) by {
                assert forall|d: usize| other@.contains_key(d) implies cids_set(oes).contains(
                    d,
                ) by {
                    lemma_cmap_dom_set(oes);
                }
                assert forall|d: usize| cids_set(oes).contains(d) implies other@.contains_key(
                    d,
                ) by {
                    lemma_cmap_dom_set(oes);
                }
            }
        }
    }

    /// The entries, each document once with its count.
    pub fn iter(&self) -> (r: &Vec<(usize, usize)>)
        requires
            self.wf(),
        ensures
            entries_cmap(r@) == self@,
            ckeys_unique(r@),
    {
        &self.entries
    }
}

proof fn lemma_cmap_value_bound(es: Seq<(usize, usize)>, d: usize)
    ensures
        count_at(entries_cmap(es), d) <= usize::MAX,
    decreases es.len(),
{
    if es.len() > 0 {
        lemma_cmap_value_bound(es.drop_last(), d);
    }
}

/// The document ids an entry list keys.
pub open spec fn cids_set(es: Seq<(usize, usize)>) -> Set<usize> {
    Set::new(|d: usize| exists|i: int| 0 <= i < es.len() && (#[trigger] es[i]).0 == d)
}

proof fn lemma_cids_take_step(es: Seq<(usize, usize)>, j: int)
    requires
        0 <= j < es.len(),
    ensures
        cids_set(es.take(j + 1)) == cids_set(es.take(j)).insert(es[j].0),
{
    assert forall|d: usize| cids_set(es.take(j + 1)).contains(d) implies cids_set(
        es.take(j),
    ).insert(es[j].0).contains(d) by {
        let i = choose|i: int| 0 <= i < j + 1 && (#[trigger] es.take(j + 1)[i]).0 == d;
        if i < j {
            assert(es.take(j)[i].0 == d);
        }
    }
    assert forall|d: usize| cids_set(es.take(j)).insert(es[j].0).contains(d) implies cids_set(
        es.take(j + 1),
    ).contains(d) by {
        if d == es[j].0 {
            assert(es.take(j + 1)[j].0 == d);
        } else {
            let i = choose|i: int| 0 <= i < j && (#[trigger] es.take(j)[i]).0 == d;
            assert(es.take(j + 1)[i].0 == d);
        }
    }
    assert(cids_set(es.take(j + 1)) =~= cids_set(es.take(j)).insert(es[j].0));
}

proof fn lemma_cmap_dom_set(es: Seq<(usize, usize)>)
    ensures
        entries_cmap(es).dom() == cids_set(es),
    decreases es.len(),
{
    if es.len() == 0 {
        assert(entries_cmap(es).dom() =~= cids_set(es));
    } else {
        lemma_cmap_dom_set(es.drop_last());
        assert forall|d: usize| entries_cmap(es).dom().contains(d) implies cids_set(es).contains(
            d,
        ) by {
            if d == es.last().0 {
                assert(es[es.len() - 1].0 == d);
            } else {
                let i = choose|i: int|
                    0 <= i < es.drop_last().len() && (#[trigger] es.drop_last()[i]).0 == d;
                assert(es[i].0 == d);
            }
        }
        assert forall|d: usize| cids_set(es).contains(d) implies entries_cmap(es).dom().contains(
            d,
        ) by {
            let i = choose|i: int| 0 <= i < es.len() && (#[trigger] es[i]).0 == d;
            if i < es.len() - 1 {
                assert(es.drop_last()[i].0 == d);
                assert(cids_set(es.drop_last()).contains(d));
            }
        }
        assert(entries_cmap(es).dom() =~= cids_set(es));
    }
}

/// `counts_sum(a, b)` with `b` restricted to the documents in `s`.
pub open spec fn csum_restrict(a: Map<usize, nat>, b: Map<usize, nat>, s: Set<usize>) -> Map<
    usize,
    nat,
> {
    Map::new(
        |d: usize| a.contains_key(d) || (b.contains_key(d) && s.contains(d)),
        |d: usize| if b.contains_key(d) && s.contains(d) {
            count_at(a, d) + b[d]
        } else {
            count_at(a, d)
        },
    )
}

/// The term-count index behind ranked retrieval: per-document total term
/// counts, and for each term its per-document occurrence counts. The
/// vector-space scoring built on these counts works in floating point and
/// lives outside the verified library.
#[derive(Debug)]
pub struct TfIdfIndex {
    documents: TermCounts,
    index: TermMap<TermCounts>,
}

impl TfIdfIndex {
    /// The map from term to its per-document occurrence counts.
    pub closed spec fn tmap(&self) -> Map<Seq<char>, Map<usize, nat>> {
        self.index@
    }

    /// The map from document to its total term count.
    pub closed spec fn dmap(&self) -> Map<usize, nat> {
        self.documents@
    }

    pub closed spec fn wf(&self) -> bool {
        &&& self.documents.wf()
        &&& self.index.wf()
        &&& forall|i: int|
            0 <= i < self.index.list().len() ==> (#[trigger] self.index.list()[i]).1.wf()
    }

    pub fn new() -> (r: TfIdfIndex)
        ensures
            r.wf(),
            r.tmap() == Map::<Seq<char>, Map<usize, nat>>::empty(),
            r.dmap() == Map::<usize, nat>::empty(),
    {
        TfIdfIndex { documents: TermCounts::new(), index: TermMap::new() }
    }

    /// How many distinct terms are indexed.
    pub fn term_count(&self) -> (r: usize)
        requires
            self.wf(),
        ensures
            r == self.tmap().dom().len(),
    {
        self.index.len()
    }

    /// Records one occurrence of `term` in the given document.
    pub fn add_term(&mut self, term: String, document_id: DocumentId)
        requires
            old(self).wf(),
            count_at(old(self).dmap(), document_id.0) + 1 <= usize::MAX,
            count_at(
                crate::doc_index::docs_map_at(old(self).tmap(), term@),
                document_id.0,
            ) + 1 <= usize::MAX,
        ensures
            final(self).wf(),
            final(self).tmap() == old(self).tmap().insert(
                term@,
                count_bump(
                    crate::doc_index::docs_map_at(old(self).tmap(), term@),
                    document_id.0,
                    1,
                ),
            ),
            final(self).dmap() == count_bump(old(self).dmap(), document_id.0, 1),
    {
        let tv = str_to_chars(term.as_str());
        let mut counts = match self.index.get(&tv) {
            Some(existing) => {
                proof {
                    let i = choose|i: int|
                        0 <= i < self.index.list().len() && (#[trigger] self.index.list()[i]).1
                            == existing;
                }
                existing.duplicate()
            },
            None => TermCounts::new(),
        };
        counts.add_position(document_id);
        self.index.set(tv, counts);
        self.documents.add_position(document_id);
        proof {
            assert(final(self).tmap() =~~= old(self).tmap().insert(
                term@,
                count_bump(
                    crate::doc_index::docs_map_at(old(self).tmap(), term@),
                    document_id.0,
                    1,
                ),
            ));
        }
    }

    /// The documents `term` occurs in.
    pub fn term_documents(&self, term: &str) -> (r: crate::uintset::UintSet)
        requires
            self.wf(),
        ensures
            r.wf(),
            r@ == crate::doc_index::docs_map_at(self.tmap(), term@).dom(),
    {
        let tv = str_to_chars(term);
        match self.index.get(&tv) {
            Some(counts) => {
                proof {
                    let i = choose|i: int|
                        0 <= i < self.index.list().len() && (#[trigger] self.index.list()[i]).1
                            == counts;
                }
                counts.documents()
            },
            None => {
                let r = crate::uintset::UintSet::new();
                proof {
                    assert(r@ =~= crate::doc_index::docs_map_at(self.tmap(), term@).dom());
                }
                r
            },
        }
    }

    /// How many times `term` occurs in the given document; zero when either
    /// is absent.
    pub fn term_document_count(&self, term: &str, document_id: DocumentId) -> (r: usize)
        requires
            self.wf(),
        ensures
            r == count_at(
                crate::doc_index::docs_map_at(self.tmap(), term@),
                document_id.0,
            ),
    {
        let tv = str_to_chars(term);
        match self.index.get(&tv) {
            Some(counts) => {
                proof {
                    let i = choose|i: int|
                        0 <= i < self.index.list().len() && (#[trigger] self.index.list()[i]).1
                            == counts;
                }
                counts.count(document_id)
            },
            None => 0,
        }
    }

    /// The total term count recorded for a document; zero when absent.
    pub fn document_term_count(&self, document_id: DocumentId) -> (r: usize)
        requires
            self.wf(),
        ensures
            r == count_at(self.dmap(), document_id.0),
    {
        self.documents.count(document_id)
    }

    /// The indexed terms, in listing order.
    pub closed spec fn term_list(&self) -> Seq<Seq<char>> {
        tkeys(self.index.list())
    }

    /// Each listed term keys the index.
    pub proof fn lemma_term_list(&self)
        requires
            self.wf(),
        ensures
            forall|i: int|
                0 <= i < self.term_list().len() ==> self.tmap().contains_key(
                    #[trigger] self.term_list()[i],
                ),
    {
        self.index.lemma_list();
        assert forall|i: int| 0 <= i < self.term_list().len() implies self.tmap().contains_key(
            #[trigger] self.term_list()[i],
        ) by {
            crate::termmap::lemma_tmap_index(self.index.list(), i);
        }
    }

    /// The indexed terms, one string for each.
    pub fn terms(&self) -> (r: Vec<String>)
        requires
            self.wf(),
        ensures
            r@.map_values(|s: String| s@) == self.term_list(),
    {
        proof {
            self.index.lemma_list();
        }
        let es = self.index.entries();
        let n = es.len();
        let mut out: Vec<String> = Vec::new();
        let mut j: usize = 0;
        proof {
            assert(out@.map_values(|s: String| s@) =~= tkeys(es@.take(0)));
            assert(tkeys(es@.take(0)) =~= tkeys(es@).take(0));
        }
        while j < n
            invariant
                n == es@.len(),
                es@ == self.index.list(),
                j <= n,
                out@.map_values(|s: String| s@) == tkeys(es@).take(j as int),
            decreases n - j,
        {
            let s = chars_to_string(&es[j].0);
            let ghost out0 = out@;
            out.push(s);
            proof {
                assert(s@ == es@[j as int].0@);
                assert(tkeys(es@)[j as int] == es@[j as int].0@);
                assert(out@.map_values(|s: String| s@) =~= out0.map_values(|s: String| s@).push(
                    s@,
                ));
                assert(out@.map_values(|s: String| s@) =~= tkeys(es@).take(j + 1));
            }
            j += 1;
        }
        proof {
            assert(tkeys(es@).take(n as int) =~= tkeys(es@));
        }
        out
    }

    proof fn lemma_count_bound(&self, t: Seq<char>, d: usize)
        requires
            self.wf(),
        ensures
            count_at(crate::doc_index::docs_map_at(self.tmap(), t), d) <= usize::MAX,
    {
        if self.tmap().contains_key(t) {
            self.index.lemma_list();
            crate::doc_index::lemma_tmap_dom_keyset(self.index.list());
            assert(crate::termmap::tkeys(self.index.list()).contains(t));
            let a = choose|a: int|
                0 <= a < crate::termmap::tkeys(self.index.list()).len()
                    && #[trigger] crate::termmap::tkeys(self.index.list())[a] == t;
            assert(self.index.list()[a].0@ == t);
            crate::termmap::lemma_tmap_index(self.index.list(), a);
            assert(self.index.list()[a].1.wf());
            lemma_cmap_value_bound(self.index.list()[a].1.entries@, d);
        }
    }

    /// Whether folding `other` into this index stays within the machine's
    /// counters: a sound executable test of `merge`'s overflow bounds, for
    /// callers that cannot establish them otherwise.
    pub fn mergeable(&self, other: &TfIdfIndex) -> (r: bool)
        requires
            self.wf(),
            other.wf(),
        ensures
            r ==> (forall|d: usize|
                count_at(self.dmap(), d) + count_at(other.dmap(), d) <= usize::MAX),
            r ==> (forall|t: Seq<char>, d: usize|
                #[trigger] count_at(crate::doc_index::docs_map_at(self.tmap(), t), d) + count_at(
                    crate::doc_index::docs_map_at(other.tmap(), t),
                    d,
                ) <= usize::MAX),
    {
        let des = other.documents.iter();
        let dn = des.len();
        let mut j: usize = 0;
        while j < dn
            invariant
                self.wf(),
                other.wf(),
                dn == des@.len(),
                entries_cmap(des@) == other.dmap(),
                ckeys_unique(des@),
                j <= dn,
                forall|t: int|
                    0 <= t < j ==> count_at(self.dmap(), (#[trigger] des@[t]).0) + des@[t].1
                        <= usize::MAX,
            decreases dn - j,
        {
            let (d, c) = des[j];
            let mine = self.documents.count(DocumentId(d));
            if mine > usize::MAX - c {
                return false;
            }
            j += 1;
        }
        proof {
            assert forall|d: usize|
                count_at(self.dmap(), d) + count_at(other.dmap(), d) <= usize::MAX by {
                lemma_cmap_value_bound(self.documents.entries@, d);
                if other.dmap().contains_key(d) {
                    lemma_cmap_dom_set(des@);
                    assert(cids_set(des@).contains(d));
                    let t = choose|t: int| 0 <= t < des@.len() && (#[trigger] des@[t]).0 == d;
                    lemma_cmap_index(des@, t);
                }
            }
        }
        proof {
            self.index.lemma_list();
            other.index.lemma_list();
        }
        let tes = other.index.entries();
        let tn = tes.len();
        let mut k: usize = 0;
        while k < tn
            invariant
                self.wf(),
                other.wf(),
                tn == tes@.len(),
                tes@ == other.index.list(),
                crate::termmap::tkeys_unique(tes@),
                k <= tn,
                forall|a: int, d: usize|
                    0 <= a < k ==> count_at(
                        crate::doc_index::docs_map_at(self.tmap(), (tes@[a]).0@),
                        d,
                    ) + #[trigger] count_at((tes@[a]).1@, d) <= usize::MAX,
            decreases tn - k,
        {
            proof {
                other.index.lemma_list();
                crate::termmap::lemma_tmap_index(tes@, k as int);
                assert(tes@[k as int].1.wf()) by {
                    assert(other.index.list()[k as int] == tes@[k as int]);
                }
            }
            let ces = tes[k].1.iter();
            let cn = ces.len();
            let mineref = self.index.get(&tes[k].0);
            let mut u: usize = 0;
            while u < cn
                invariant
                    self.wf(),
                    cn == ces@.len(),
                    entries_cmap(ces@) == tes@[k as int].1@,
                    ckeys_unique(ces@),
                    tes@ == other.index.list(),
                    tn == tes@.len(),
                    0 <= k < tn,
                    (mineref matches Some(x) ==> x@ == crate::doc_index::docs_map_at(
                        self.tmap(),
                        tes@[k as int].0@,
                    ) && x.wf()),
                    (mineref is None ==> !self.tmap().contains_key(tes@[k as int].0@)),
                    u <= cn,
                    forall|b: int|
                        0 <= b < u ==> count_at(
                            crate::doc_index::docs_map_at(self.tmap(), tes@[k as int].0@),
                            (#[trigger] ces@[b]).0,
                        ) + ces@[b].1 <= usize::MAX,
                decreases cn - u,
            {
                let (d, c) = ces[u];
                let mine = match mineref {
                    Some(x) => x.count(DocumentId(d)),
                    None => 0,
                };
                if mine > usize::MAX - c {
                    return false;
                }
                proof {
                    lemma_cmap_index(ces@, u as int);
                }
                u += 1;
            }
            proof {
                assert forall|d: usize|
                    count_at(
                        crate::doc_index::docs_map_at(self.tmap(), tes@[k as int].0@),
                        d,
                    ) + count_at(tes@[k as int].1@, d) <= usize::MAX by {
                    if tes@[k as int].1@.contains_key(d) {
                        lemma_cmap_dom_set(ces@);
                        assert(cids_set(ces@).contains(d));
                        let b = choose|b: int|
                            0 <= b < ces@.len() && (#[trigger] ces@[b]).0 == d;
                        lemma_cmap_index(ces@, b);
                    } else {
                        if mineref is Some {
                            let x = mineref->Some_0;
                            lemma_cmap_value_bound(x.entries@, d);
                        }
                    }
                }
            }
            k += 1;
        }
        proof {
            other.index.lemma_list();
            assert forall|t: Seq<char>, d: usize| #[trigger]
                count_at(crate::doc_index::docs_map_at(self.tmap(), t), d) + count_at(
                    crate::doc_index::docs_map_at(other.tmap(), t),
                    d,
                ) <= usize::MAX by {
                if other.tmap().contains_key(t) {
                    crate::doc_index::lemma_tmap_dom_keyset(tes@);
                    assert(crate::termmap::tkey_set(crate::termmap::tkeys(tes@)).contains(t));
                    assert(crate::termmap::tkeys(tes@).contains(t));
                    let a = choose|a: int|
                        0 <= a < crate::termmap::tkeys(tes@).len()
                            && #[trigger] crate::termmap::tkeys(tes@)[a] == t;
                    assert(tes@[a].0@ == t);
                    crate::termmap::lemma_tmap_index(tes@, a);
                    assert(count_at(crate::doc_index::docs_map_at(other.tmap(), t), d)
                        == count_at(tes@[a].1@, d));
                } else {
                    self.lemma_count_bound(t, d);
                }
            }
        }
        true
    }

    /// Folds another term-count index into this one: per-term per-document
    /// counts add, and per-document totals add, so that a document split
    /// between two partial indexes ends with the sum of its counts.
    pub fn merge(&mut self, other: &TfIdfIndex)
        requires
            old(self).wf(),
            other.wf(),
            forall|d: usize|
                count_at(old(self).dmap(), d) + count_at(other.dmap(), d) <= usize::MAX,
            forall|t: Seq<char>, d: usize|
                #[trigger] count_at(crate::doc_index::docs_map_at(old(self).tmap(), t), d)
                    + count_at(crate::doc_index::docs_map_at(other.tmap(), t), d) <= usize::MAX,
        ensures
            final(self).wf(),
            final(self).dmap() == counts_sum(old(self).dmap(), other.dmap()),
            final(self).tmap() == cmaps_sum(old(self).tmap(), other.tmap()),
    {
        let ghost a = old(self).tmap();
        proof {
            assert forall|d: usize|
                count_at(self.documents@, d) + count_at(other.documents@, d)
                    <= usize::MAX by {
                assert(count_at(old(self).dmap(), d) + count_at(other.dmap(), d) <= usize::MAX);
            }
        }
        self.documents.merge(&other.documents);
        proof {
            other.index.lemma_list();
        }
        let oes = other.index.entries();
        let n = oes.len();
        let mut j: usize = 0;
        proof {
            assert(oes@.take(0) =~= Seq::<(Vec<char>, TermCounts)>::empty());
            assert(self.tmap() =~~= cmaps_restrict(a, other.tmap(), Set::empty()));
        }
        while j < n
            invariant
                self.index.wf(),
                self.documents.wf(),
                forall|i: int|
                    0 <= i < self.index.list().len() ==> (#[trigger] self.index.list()[i]).1.wf(),
                other.wf(),
                oes@ == other.index.list(),
                crate::termmap::tkeys_unique(oes@),
                n == oes@.len(),
                j <= n,
                a == old(self).tmap(),
                self.documents@ == counts_sum(old(self).dmap(), other.dmap()),
                forall|t: Seq<char>, d: usize|
                    #[trigger] count_at(crate::doc_index::docs_map_at(a, t), d) + count_at(
                        crate::doc_index::docs_map_at(other.tmap(), t),
                        d,
                    ) <= usize::MAX,
                self.tmap() == cmaps_restrict(a, other.tmap(), tkey_set(tkeys(oes@.take(j as int)))),
            decreases n - j,
        {
            let tref = &oes[j].0;
            let ghost tkey = tref@;
            proof {
                other.index.lemma_list();
                crate::termmap::lemma_tmap_index(oes@, j as int);
                lemma_tmap_take_step(oes@, j as int);
                assert(oes@[j as int].1.wf()) by {
                    assert(other.index.list()[j as int] == oes@[j as int]);
                }
            }
            let mut combined = match self.index.get(tref) {
                Some(mine) => {
                    proof {
                        let i = choose|i: int|
                            0 <= i < self.index.list().len() && (#[trigger] self.index.list()[i]).1 == mine;
                    }
                    mine.duplicate()
                },
                None => TermCounts::new(),
            };
            proof {
                assert(!tkey_set(tkeys(oes@.take(j as int))).contains(tkey)) by {
                    if tkey_set(tkeys(oes@.take(j as int))).contains(tkey) {
                        let t = choose|t: int|
                            0 <= t < j && #[trigger] tkeys(oes@.take(j as int))[t] == tkey;
                        assert(oes@[t].0@ == tkey);
                        assert(oes@[j as int].0@ == tkey);
                    }
                }
                assert(combined@ == crate::doc_index::docs_map_at(a, tkey) || combined@ == Map::<
                    usize,
                    nat,
                >::empty());
                assert(crate::doc_index::docs_map_at(other.tmap(), tkey) == oes@[j as int].1@);
                assert forall|d: usize|
                    count_at(combined@, d) + count_at(oes@[j as int].1@, d)
                        <= usize::MAX by {
                    assert(count_at(crate::doc_index::docs_map_at(a, tkey), d) + count_at(
                        crate::doc_index::docs_map_at(other.tmap(), tkey),
                        d,
                    ) <= usize::MAX);
                }
            }
            combined.merge(&oes[j].1);
            let tv = crate::text::dup_chars(tref);
            self.index.set(tv, combined);
            proof {
                assert(self.tmap() =~~= cmaps_restrict(
                    a,
                    other.tmap(),
                    tkey_set(tkeys(oes@.take(j + 1))),
                )) by {
                    assert(counts_sum(Map::empty(), other.tmap()[tkey]) =~= other.tmap()[tkey]);
                }
            }
            j += 1;
        }
        proof {
            assert(oes@.take(n as int) =~= oes@);
            other.index.lemma_list();
            crate::doc_index::lemma_tmap_dom_keyset(oes@);
            assert(self.tmap() =~~= cmaps_sum(a, other.tmap()));
        }
    }
}

impl TermCounts {
    /// A copy of these counts.
    pub fn duplicate(&self) -> (r: TermCounts)
        requires
            self.wf(),
        ensures
            r.wf(),
            r@ == self@,
    {
        let n = self.entries.len();
        let mut v: Vec<(usize, usize)> = Vec::new();
        let mut j: usize = 0;
        while j < n
            invariant
                n == self.entries@.len(),
                j <= n,
                v@ == self.entries@.take(j as int),
            decreases n - j,
        {
            let e = self.entries[j];
            v.push(e);
            proof {
                assert(v@ =~= self.entries@.take(j + 1));
            }
            j += 1;
        }
        proof {
            assert(self.entries@.take(n as int) =~= self.entries@);
        }
        TermCounts { entries: v }
    }

    /// The documents the counts key.
    pub fn documents(&self) -> (r: crate::uintset::UintSet)
        requires
            self.wf(),
        ensures
            r.wf(),
            r@ == self@.dom(),
    {
        let n = self.entries.len();
        let mut r = crate::uintset::UintSet::new();
        let mut j: usize = 0;
        proof {
            assert(self.entries@.take(0) =~= Seq::<(usize, usize)>::empty());
            lemma_cmap_dom_set(self.entries@.take(0));
            assert(r@ =~= cids_set(self.entries@.take(0)));
        }
        while j < n
            invariant
                r.wf(),
                self.wf(),
                n == self.entries@.len(),
                j <= n,
                r@ == cids_set(self.entries@.take(j as int)),
            decreases n - j,
        {
            proof {
                lemma_cids_take_step(self.entries@, j as int);
            }
            r.insert(self.entries[j].0);
            j += 1;
        }
        proof {
            assert(self.entries@.take(n as int) =~= self.entries@);
            lemma_cmap_dom_set(self.entries@);
        }
        r
    }
}

/// Pointwise sum of two term-count maps.
pub open spec fn cmaps_sum(
    a: Map<Seq<char>, Map<usize, nat>>,
    b: Map<Seq<char>, Map<usize, nat>>,
) -> Map<Seq<char>, Map<usize, nat>> {
    Map::new(
        |t: Seq<char>| a.contains_key(t) || b.contains_key(t),
        |t: Seq<char>| counts_sum(
            crate::doc_index::docs_map_at(a, t),
            crate::doc_index::docs_map_at(b, t),
        ),
    )
}

/// `cmaps_sum(a, b)` with `b` restricted to the terms in `s`.
pub open spec fn cmaps_restrict(
    a: Map<Seq<char>, Map<usize, nat>>,
    b: Map<Seq<char>, Map<usize, nat>>,
    s: Set<Seq<char>>,
) -> Map<Seq<char>, Map<usize, nat>> {
    Map::new(
        |t: Seq<char>| a.contains_key(t) || (b.contains_key(t) && s.contains(t)),
        |t: Seq<char>| if b.contains_key(t) && s.contains(t) {
            counts_sum(crate::doc_index::docs_map_at(a, t), b[t])
        } else {
            crate::doc_index::docs_map_at(a, t)
        },
    )
}

} // verus!
