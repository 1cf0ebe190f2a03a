use vstd::prelude::*;
use crate::uintset::UintSet;
use crate::uintset::seq_set;
use crate::uintset::strictly_sorted;

verus! {

/// The per-document position sets recorded under one term, as a map from
/// document id to the set of word-ordinal positions. A document may be keyed
/// with an empty position set as a membership-only marker.
pub type PosMap = Map<usize, Set<usize>>;

/// The positions `m` records for document `d`; empty when `d` is absent.
pub open spec fn pos_at(m: PosMap, d: usize) -> Set<usize> {
    if m.contains_key(d) {
        m[d]
    } else {
        Set::empty()
    }
}

/// Whether two sets share an element.
pub open spec fn sets_meet(x: Set<usize>, y: Set<usize>) -> bool {
    exists|q: usize| x.contains(q) && y.contains(q)
}

/// Whether `q` lies in the window `[p - left, p + right]`.
pub open spec fn in_window(p: usize, q: usize, left: int, right: int) -> bool {
    p - left <= q <= p + right
}

/// Whether `s` holds a position in the window around `p`.
pub open spec fn window_hits(s: Set<usize>, p: usize, left: int, right: int) -> bool {
    exists|q: usize| s.contains(q) && in_window(p, q, left, right)
}

/// Per-document union: every document of either side, with the positions of
/// both.
pub open spec fn por(a: PosMap, b: PosMap) -> PosMap {
    Map::new(
        |d: usize| a.contains_key(d) || b.contains_key(d),
        |d: usize| pos_at(a, d).union(pos_at(b, d)),
    )
}

/// Per-document intersection; documents whose intersection is empty are
/// dropped.
pub open spec fn pand(a: PosMap, b: PosMap) -> PosMap {
    Map::new(
        |d: usize| a.contains_key(d) && b.contains_key(d) && sets_meet(a[d], b[d]),
        |d: usize| a[d].intersect(b[d]),
    )
}

/// Per-document difference; documents left with no position are dropped, and
/// documents absent from `b` keep their positions unchanged.
pub open spec fn pdiff(a: PosMap, b: PosMap) -> PosMap {
    Map::new(
        |d: usize| a.contains_key(d) && exists|q: usize|
            a[d].contains(q) && !pos_at(b, d).contains(q),
        |d: usize| a[d].difference(pos_at(b, d)),
    )
}

/// Document-level subtraction: drops every document of `a` that `b` keys at
/// all, whatever positions `b` records for it.
pub open spec fn pdocsub(a: PosMap, b: PosMap) -> PosMap {
    Map::new(|d: usize| a.contains_key(d) && !b.contains_key(d), |d: usize| a[d])
}

/// The close-union of two position sets: each position of `x` whose window
/// holds a position of `y`, together with every position of `y` lying in
/// such a window.
pub open spec fn close_set(x: Set<usize>, y: Set<usize>, left: int, right: int) -> Set<
    usize,
> {
    Set::new(
        |v: usize| (x.contains(v) && window_hits(y, v, left, right)) || (y.contains(v)
            && exists|p: usize| x.contains(p) && in_window(p, v, left, right)),
    )
}

/// Proximity: for each document in both maps, the close-union of the two
/// position sets; documents with an empty result are dropped.
pub open spec fn pclose(a: PosMap, b: PosMap, left: int, right: int) -> PosMap {
    Map::new(
        |d: usize| a.contains_key(d) && b.contains_key(d) && exists|p: usize|
            a[d].contains(p) && window_hits(b[d], p, left, right),
        |d: usize| close_set(a[d], b[d], left, right),
    )
}

/// `m` with document `d` registered, keeping any recorded positions.
pub open spec fn padd_doc(m: PosMap, d: usize) -> PosMap {
    if m.contains_key(d) {
        m
    } else {
        m.insert(d, Set::empty())
    }
}

/// No document is keyed twice.
pub open spec fn pkeys_unique(es: Seq<(usize, UintSet)>) -> bool {
    forall|i: int, j: int| 0 <= i < j < es.len() ==> es[i].0 != es[j].0
}

/// The document ids of an entry list, in listing order.
pub open spec fn pids(es: Seq<(usize, UintSet)>) -> Seq<usize> {
    es.map_values(|e: (usize, UintSet)| e.0)
}

/// The map an entry list denotes.
pub open spec fn entries_pmap(es: Seq<(usize, UintSet)>) -> PosMap
    decreases es.len(),
{
    if es.len() == 0 {
        Map::empty()
    } else {
        entries_pmap(es.drop_last()).insert(es.last().0, es.last().1@)
    }
}

/// Sum of the position-set sizes of an entry list.
pub open spec fn pcount(es: Seq<(usize, UintSet)>) -> nat
    decreases es.len(),
{
    if es.len() == 0 {
        0
    } else {
        pcount(es.drop_last()) + es.last().1@.len()
    }
}

pub proof fn lemma_pmap_absent(es: Seq<(usize, UintSet)>, d: usize)
    requires
        forall|i: int| 0 <= i < es.len() ==> es[i].0 != d,
    ensures
        !entries_pmap(es).contains_key(d),
    decreases es.len(),
{
    if es.len() > 0 {
        lemma_pmap_absent(es.drop_last(), d);
    }
}

pub proof fn lemma_pmap_index(es: Seq<(usize, UintSet)>, j: int)
    requires
        pkeys_unique(es),
        0 <= j < es.len(),
    ensures
        entries_pmap(es).contains_key(es[j].0),
        entries_pmap(es)[es[j].0] == es[j].1@,
    decreases es.len(),
{
    if j < es.len() - 1 {
        assert(es.drop_last()[j] == es[j]);
        lemma_pmap_index(es.drop_last(), j);
    }
}

pub proof fn lemma_pmap_dom(es: Seq<(usize, UintSet)>)
    ensures
        entries_pmap(es).dom() == seq_set(pids(es)),
    decreases es.len(),
{
    if es.len() == 0 {
        assert(entries_pmap(es).dom() =~= seq_set(pids(es)));
    } else {
        lemma_pmap_dom(es.drop_last());
        assert(pids(es.drop_last()) =~= pids(es).drop_last());
        assert forall|d: usize| entries_pmap(es).dom().contains(d) implies seq_set(
            pids(es),
        ).contains(d) by {
            if d == es.last().0 {
                assert(pids(es)[es.len() - 1] == d);
                assert(pids(es).contains(d));
            } else {
                let t = choose|t: int|
                    0 <= t < pids(es.drop_last()).len() && #[trigger] pids(es.drop_last())[t]
                        == d;
                assert(pids(es)[t] == d);
                assert(pids(es).contains(d));
            }
        }
        assert forall|d: usize| seq_set(pids(es)).contains(d) implies entries_pmap(
            es,
        ).dom().contains(d) by {
            let t = choose|t: int| 0 <= t < pids(es).len() && #[trigger] pids(es)[t] == d;
            if t < es.len() - 1 {
                assert(pids(es.drop_last())[t] == d);
                assert(pids(es.drop_last()).contains(d));
            }
        }
        assert(entries_pmap(es).dom() =~= seq_set(pids(es)));
    }
}

pub proof fn lemma_pmap_update(es: Seq<(usize, UintSet)>, k: int, e: (usize, UintSet))
    requires
        pkeys_unique(es),
        0 <= k < es.len(),
        e.0 == es[k].0,
    ensures
        entries_pmap(es.update(k, e)) == entries_pmap(es).insert(e.0, e.1@),
        pkeys_unique(es.update(k, e)),
        pids(es.update(k, e)) == pids(es),
    decreases es.len(),
{
    assert(pids(es.update(k, e)) =~= pids(es));
    if k == es.len() - 1 {
        assert(es.update(k, e).drop_last() =~= es.drop_last());
        assert(entries_pmap(es.update(k, e)) =~= entries_pmap(es).insert(e.0, e.1@));
    } else {
        assert(es.update(k, e).drop_last() =~= es.drop_last().update(k, e));
        assert(es.drop_last()[k] == es[k]);
        lemma_pmap_update(es.drop_last(), k, e);
        assert(es.last().0 != e.0);
        assert(entries_pmap(es.update(k, e)) =~= entries_pmap(es).insert(e.0, e.1@));
    }
}

pub proof fn lemma_pmap_push(es: Seq<(usize, UintSet)>, e: (usize, UintSet))
    ensures
        entries_pmap(es.push(e)) == entries_pmap(es).insert(e.0, e.1@),
        pids(es.push(e)) == pids(es).push(e.0),
        pcount(es.push(e)) == pcount(es) + e.1@.len(),
{
    assert(es.push(e).drop_last() =~= es);
    assert(es.push(e).last() == e);
    assert(pids(es.push(e)) =~= pids(es).push(e.0));
}

pub proof fn lemma_pmap_insert_mid(es: Seq<(usize, UintSet)>, j: int, e: (usize, UintSet))
    requires
        0 <= j <= es.len(),
        forall|i: int| 0 <= i < es.len() ==> es[i].0 != e.0,
    ensures
        entries_pmap(es.insert(j, e)) == entries_pmap(es).insert(e.0, e.1@),
        pids(es.insert(j, e)) == pids(es).insert(j, e.0),
    decreases es.len() - j,
{
    assert(pids(es.insert(j, e)) =~= pids(es).insert(j, e.0));
    if j == es.len() {
        assert(es.insert(j, e) =~= es.push(e));
        lemma_pmap_push(es, e);
    } else {
        let es1 = es.insert(j, e);
        assert(es1.len() == es.len() + 1);
        assert(es1.last() == es.last());
        assert(es1.drop_last() =~= es.drop_last().insert(j, e));
        lemma_pmap_insert_mid(es.drop_last(), j, e);
        assert(es.last().0 != e.0);
        assert(entries_pmap(es1) =~= entries_pmap(es).insert(e.0, e.1@));
    }
}

/// Positional postings of one term: for each document, the sorted set of
/// word-ordinal positions at which the term occurs.
#[derive(Debug)]
pub struct TermPositions {
    entries: Vec<(usize, UintSet)>,
}

impl View for TermPositions {
    type V = PosMap;

    /// The map from document id to position set.
    closed spec fn view(&self) -> PosMap {
        entries_pmap(self.entries@)
    }
}

impl TermPositions {
    pub closed spec fn wf(&self) -> bool {
        &&& strictly_sorted(pids(self.entries@))
        &&& forall|i: int| 0 <= i < self.entries@.len() ==> (#[trigger] self.entries@[i]).1.wf()
    }

    proof fn lemma_unique(&self)
        requires
            self.wf(),
        ensures
            pkeys_unique(self.entries@),
    {
        assert forall|i: int, j: int|
            0 <= i < j < self.entries@.len() implies self.entries@[i].0 != self.entries@[j].0 by {
            assert(pids(self.entries@)[i] == self.entries@[i].0);
            assert(pids(self.entries@)[j] == self.entries@[j].0);
        }
    }

    pub fn new() -> (r: TermPositions)
        ensures
            r.wf(),
            r@ == Map::<usize, Set<usize>>::empty(),
    {
        TermPositions { entries: Vec::new() }
    }

    /// The recorded positions for `d`, if the document is keyed.
    fn get(&self, d: usize) -> (r: Option<&UintSet>)
        requires
            self.wf(),
        ensures
            r is Some <==> self@.contains_key(d),
            r is Some ==> r->Some_0@ == self@[d] && r->Some_0.wf(),
    {
        proof {
            self.lemma_unique();
        }
        let n = self.entries.len();
        let mut j: usize = 0;
        while j < n
            invariant
                self.wf(),
                pkeys_unique(self.entries@),
                n == self.entries@.len(),
                j <= n,
                forall|t: int| 0 <= t < j ==> (#[trigger] self.entries@[t]).0 != d,
            decreases n - j,
        {
            if self.entries[j].0 == d {
                proof {
                    lemma_pmap_index(self.entries@, j as int);
                }
                return Some(&self.entries[j].1);
            }
            j += 1;
        }
        proof {
            lemma_pmap_absent(self.entries@, d);
        }
        None
    }

    /// Keys `d` with exactly the positions `ps`.
    fn set_entry(&mut self, d: usize, ps: UintSet)
        requires
            old(self).wf(),
            ps.wf(),
        ensures
            final(self).wf(),
            final(self)@ == old(self)@.insert(d, ps@),
    {
        proof {
            self.lemma_unique();
        }
        let ghost es0 = self.entries@;
        let n = self.entries.len();
        let mut j: usize = 0;
        while j < n && self.entries[j].0 < d
            invariant
                self.entries@ == es0,
                n == es0.len(),
                j <= n,
                forall|t: int| 0 <= t < j ==> (#[trigger] es0[t]).0 < d,
            decreases n - j,
        {
            j += 1;
        }
        if j < n && self.entries[j].0 == d {
            self.entries[j] = (d, ps);
            proof {
                lemma_pmap_update(es0, j as int, self.entries@[j as int]);
                assert(final(self)@ =~= old(self)@.insert(d, ps@));
                assert(forall|i: int|
                    0 <= i < self.entries@.len() && i != j ==> self.entries@[i] == es0[i]);
            }
            return ;
        }
        proof {
            assert forall|t: int| j <= t < n implies (#[trigger] es0[t]).0 > d by {
                assert(pids(es0)[j as int] == es0[j as int].0);
                assert(es0[j as int].0 >= d);
                assert(es0[j as int].0 != d);
                if t > j {
                    assert(pids(es0)[t] == es0[t].0);
                    assert(pids(es0)[t] > pids(es0)[j as int]);
                }
            }
            assert(forall|t: int| 0 <= t < n ==> (#[trigger] es0[t]).0 != d);
            lemma_pmap_insert_mid(es0, j as int, (d, ps));
        }
        self.entries.insert(j, (d, ps));
        proof {
            let ids0 = pids(es0);
            let ids1 = pids(self.entries@);
            assert(ids1 =~= ids0.insert(j as int, d));
            assert forall|a: int, b: int| 0 <= a < b < ids1.len() implies ids1[a] < ids1[b] by {
                assert(forall|t: int| 0 <= t < j ==> ids1[t] == ids0[t]);
                assert(ids1[j as int] == d);
                assert(forall|t: int| j < t < ids1.len() ==> ids1[t] == ids0[t - 1]);
                assert(forall|t: int| 0 <= t < j ==> ids0[t] == (#[trigger] es0[t]).0);
                assert(forall|t: int| j <= t < n ==> ids0[t] == (#[trigger] es0[t]).0);
                assert(forall|t: int| j <= t < n ==> ids0[t] > d);
            }
            assert(forall|i: int|
                0 <= i < self.entries@.len() ==> (#[trigger] self.entries@[i]).1.wf()) by {
                assert(forall|t: int| 0 <= t < j ==> self.entries@[t] == es0[t]);
                assert(self.entries@[j as int].1 == ps);
                assert(forall|t: int| j < t < self.entries@.len() ==> self.entries@[t] == es0[t - 1]);
            }
        }
    }

    /// The set of documents keyed, including membership-only markers.
    pub fn documents(&self) -> (r: UintSet)
        requires
            self.wf(),
        ensures
            r.wf(),
            r@ == self@.dom(),
    {
        let n = self.entries.len();
        let mut ids: Vec<usize> = Vec::new();
        let mut j: usize = 0;
        while j < n
            invariant
                self.wf(),
                n == self.entries@.len(),
                j <= n,
                ids@ == pids(self.entries@).take(j as int),
            decreases n - j,
        {
            ids.push(self.entries[j].0);
            proof {
                assert(ids@ =~= pids(self.entries@).take(j + 1));
            }
            j += 1;
        }
        proof {
            assert(pids(self.entries@).take(n as int) =~= pids(self.entries@));
            lemma_pmap_dom(self.entries@);
        }
        UintSet::from_sorted(ids)
    }

    /// How many documents are keyed.
    pub fn document_count(&self) -> (r: usize)
        requires
            self.wf(),
        ensures
            r == self@.dom().len(),
    {
        proof {
            self.lemma_unique();
            lemma_pmap_dom(self.entries@);
            crate::uintset::lemma_sorted_card(pids(self.entries@));
            assert(pids(self.entries@).len() == self.entries@.len());
        }
        self.entries.len()
    }

    /// The total number of recorded positions, over all documents.
    pub fn positions_count(&self) -> (r: usize)
        requires
            self.wf(),
            self.count() <= usize::MAX,
        ensures
            r == self.count(),
    {
        let mut acc: usize = 0;
        let n = self.entries.len();
        let mut j: usize = 0;
        proof {
            assert(self.entries@.take(0) =~= Seq::<(usize, UintSet)>::empty());
        }
        while j < n
            invariant
                self.wf(),
                n == self.entries@.len(),
                j <= n,
                acc == pcount(self.entries@.take(j as int)),
                pcount(self.entries@) <= usize::MAX,
            decreases n - j,
        {
            proof {
                assert(self.entries@.take(j + 1).drop_last() =~= self.entries@.take(j as int));
                assert(self.entries@.take(j + 1).last() == self.entries@[j as int]);
                lemma_pcount_take_le(self.entries@, j + 1);
                self.entries@[j as int].1.lemma_card();
            }
            acc = acc + self.entries[j].1.len();
            j += 1;
        }
        proof {
            assert(self.entries@.take(n as int) =~= self.entries@);
        }
        acc
    }

    /// The total number of recorded positions, as a mathematical value.
    pub closed spec fn count(&self) -> nat {
        pcount(self.entries@)
    }

    /// Registers `d`, with no positions yet if it was absent.
    pub fn add_document(&mut self, d: usize)
        requires
            old(self).wf(),
        ensures
            final(self).wf(),
            final(self)@ == padd_doc(old(self)@, d),
    {
        let present = match self.get(d) {
            Some(_) => true,
            None => false,
        };
        if !present {
            self.set_entry(d, UintSet::new());
            proof {
                assert(final(self)@ =~= padd_doc(old(self)@, d));
            }
        }
    }

    /// Records that the term occurs in `d` at position `p`.
    pub fn add_position(&mut self, d: usize, p: usize)
        requires
            old(self).wf(),
        ensures
            final(self).wf(),
            final(self)@ == old(self)@.insert(d, pos_at(old(self)@, d).insert(p)),
    {
        let ps = match self.get(d) {
            Some(existing) => {
                let mut copy = existing.duplicate();
                copy.insert(p);
                copy
            },
            None => {
                let mut copy = UintSet::new();
                copy.insert(p);
                copy
            },
        };
        self.set_entry(d, ps);
    }

    /// Folds another term's postings into these: per-document position-set
    /// union, which is the same operation as `or`.
    pub fn merge(&mut self, other: &TermPositions)
        requires
            old(self).wf(),
            other.wf(),
        ensures
            final(self).wf(),
            final(self)@ == por(old(self)@, other@),
    {
        proof {
            other.lemma_unique();
        }
        let ghost a = old(self)@;
        let ghost oes = other.entries@;
        let n = other.entries.len();
        let mut j: usize = 0;
        proof {
            lemma_pmap_dom(oes.take(0));
            assert(oes.take(0) =~= Seq::<(usize, UintSet)>::empty());
            assert(self@ =~~= por_restrict(a, other@, Set::<usize>::empty()));
        }
        while j < n
            invariant
                self.wf(),
                other.wf(),
                pkeys_unique(oes),
                n == oes.len(),
                other.entries@ == oes,
                j <= n,
                self@ == por_restrict(a, other@, seq_set(pids(oes).take(j as int))),
            decreases n - j,
        {
            let d = other.entries[j].0;
            proof {
                lemma_pmap_index(oes, j as int);
                assert(pids(oes)[j as int] == d);
                crate::uintset::lemma_take_set_step_pub(pids(oes), j as int);
                assert(!seq_set(pids(oes).take(j as int)).contains(d)) by {
                    if seq_set(pids(oes).take(j as int)).contains(d) {
                        let t = choose|t: int|
                            0 <= t < j && #[trigger] pids(oes).take(j as int)[t] == d;
                        assert(pids(oes)[t] == d);
                        assert(pids(oes)[t] < pids(oes)[j as int]);
                    }
                }
                assert(other@.contains_key(d) && other@[d] == oes[j as int].1@);
            }
            let combined = match self.get(d) {
                Some(mine) => mine.union_with(&other.entries[j].1),
                None => other.entries[j].1.duplicate(),
            };
            self.set_entry(d, combined);
            proof {
                assert(self@ =~~= por_restrict(a, other@, seq_set(pids(oes).take(j + 1))));
            }
            j += 1;
        }
        proof {
            assert(pids(oes).take(n as int) =~= pids(oes));
            lemma_pmap_dom(oes);
            assert(self@ =~~= por(a, other@));
        }
    }

    /// Per-document union of two postings.
    pub fn or(&self, other: &TermPositions) -> (r: TermPositions)
        requires
            self.wf(),
            other.wf(),
        ensures
            r.wf(),
            r@ == por(self@, other@),
    {
        let mut r = TermPositions::new();
        r.merge(self);
        proof {
            assert(r@ =~~= self@);
        }
        r.merge(other);
        r
    }

    /// Registers every document the other postings key, as membership-only
    /// markers where they are new.
    pub fn add_documents_from(&mut self, other: &TermPositions)
        requires
            old(self).wf(),
            other.wf(),
        ensures
            final(self).wf(),
            final(self)@ == padd_docset(old(self)@, other@.dom()),
    {
        proof {
            other.lemma_unique();
        }
        let ghost a = old(self)@;
        let ghost oes = other.entries@;
        let n = other.entries.len();
        let mut j: usize = 0;
        proof {
            assert(self@ =~~= padd_docset(a, seq_set(pids(oes).take(0))));
        }
        while j < n
            invariant
                self.wf(),
                other.wf(),
                pkeys_unique(oes),
                n == oes.len(),
                other.entries@ == oes,
                j <= n,
                a == old(self)@,
                self@ == padd_docset(a, seq_set(pids(oes).take(j as int))),
            decreases n - j,
        {
            let d = other.entries[j].0;
            proof {
                assert(pids(oes)[j as int] == d);
                crate::uintset::lemma_take_set_step_pub(pids(oes), j as int);
            }
            self.add_document(d);
            proof {
                assert(self@ =~~= padd_docset(a, seq_set(pids(oes).take(j + 1))));
            }
            j += 1;
        }
        proof {
            assert(pids(oes).take(n as int) =~= pids(oes));
            lemma_pmap_dom(oes);
            assert(self@ =~~= padd_docset(a, other@.dom()));
        }
    }

    /// The recorded positions for `d`, if the document is keyed.
    pub fn positions(&self, d: usize) -> (r: Option<&UintSet>)
        requires
            self.wf(),
        ensures
            r is Some <==> self@.contains_key(d),
            r is Some ==> r->Some_0@ == self@[d] && r->Some_0.wf(),
    {
        self.get(d)
    }

    /// Per-document intersection of two postings; documents with an empty
    /// intersection are dropped.
    pub fn and(&self, other: &TermPositions) -> (r: TermPositions)
        requires
            self.wf(),
            other.wf(),
        ensures
            r.wf(),
            r@ == pand(self@, other@),
    {
        proof {
            self.lemma_unique();
        }
        let ghost es = self.entries@;
        let ghost target = pand(self@, other@);
        let mut r = TermPositions::new();
        let n = self.entries.len();
        let mut j: usize = 0;
        proof {
            assert(r@ =~~= restrict_docs(target, seq_set(pids(es).take(0))));
        }
        while j < n
            invariant
                r.wf(),
                self.wf(),
                other.wf(),
                pkeys_unique(es),
                self.entries@ == es,
                target == pand(self@, other@),
                n == es.len(),
                j <= n,
                r@ == restrict_docs(target, seq_set(pids(es).take(j as int))),
            decreases n - j,
        {
            let d = self.entries[j].0;
            proof {
                lemma_pmap_index(es, j as int);
                assert(pids(es)[j as int] == d);
                crate::uintset::lemma_take_set_step_pub(pids(es), j as int);
            }
            match other.get(d) {
                Some(qs) => {
                    let inter = self.entries[j].1.intersect(qs);
                    if !inter.is_empty() {
                        proof {
                            let q = choose|q: usize| inter@.contains(q);
                            assert(sets_meet(self@[d], other@[d]));
                        }
                        r.set_entry(d, inter);
                    } else {
                        proof {
                            if sets_meet(self@[d], other@[d]) {
                                let q = choose|q: usize|
                                    self@[d].contains(q) && other@[d].contains(q);
                                assert(inter@.contains(q));
                            }
                        }
                    }
                },
                None => {},
            }
            proof {
                assert(r@ =~~= restrict_docs(target, seq_set(pids(es).take(j + 1))));
            }
            j += 1;
        }
        proof {
            assert(pids(es).take(n as int) =~= pids(es));
            lemma_pmap_dom(es);
            assert(r@ =~~= target);
        }
        r
    }

    /// Per-document difference; documents left empty are dropped, and
    /// documents the other side does not key keep their positions.
    pub fn minus(&self, other: &TermPositions) -> (r: TermPositions)
        requires
            self.wf(),
            other.wf(),
        ensures
            r.wf(),
            r@ == pdiff(self@, other@),
    {
        proof {
            self.lemma_unique();
        }
        let ghost es = self.entries@;
        let ghost target = pdiff(self@, other@);
        let mut r = TermPositions::new();
        let n = self.entries.len();
        let mut j: usize = 0;
        proof {
            assert(r@ =~~= restrict_docs(target, seq_set(pids(es).take(0))));
        }
        while j < n
            invariant
                r.wf(),
                self.wf(),
                other.wf(),
                pkeys_unique(es),
                self.entries@ == es,
                target == pdiff(self@, other@),
                n == es.len(),
                j <= n,
                r@ == restrict_docs(target, seq_set(pids(es).take(j as int))),
            decreases n - j,
        {
            let d = self.entries[j].0;
            proof {
                lemma_pmap_index(es, j as int);
                assert(pids(es)[j as int] == d);
                crate::uintset::lemma_take_set_step_pub(pids(es), j as int);
            }
            let diff = match other.get(d) {
                Some(qs) => self.entries[j].1.difference(qs),
                None => self.entries[j].1.duplicate(),
            };
            proof {
                assert(diff@ =~= self@[d].difference(pos_at(other@, d)));
            }
            if !diff.is_empty() {
                proof {
                    let q = choose|q: usize| diff@.contains(q);
                    assert(self@[d].contains(q) && !pos_at(other@, d).contains(q));
                }
                r.set_entry(d, diff);
            } else {
                proof {
                    if exists|q: usize| self@[d].contains(q) && !pos_at(other@, d).contains(q) {
                        let q = choose|q: usize|
                            self@[d].contains(q) && !pos_at(other@, d).contains(q);
                        assert(diff@.contains(q));
                    }
                }
            }
            proof {
                assert(r@ =~~= restrict_docs(target, seq_set(pids(es).take(j + 1))));
            }
            j += 1;
        }
        proof {
            assert(pids(es).take(n as int) =~= pids(es));
            lemma_pmap_dom(es);
            assert(r@ =~~= target);
        }
        r
    }

    /// Document-level subtraction: every document of this map that the other
    /// keys at all is dropped; the rest keep their positions.
    pub fn document_sub(&self, other: &TermPositions) -> (r: TermPositions)
        requires
            self.wf(),
            other.wf(),
        ensures
            r.wf(),
            r@ == pdocsub(self@, other@),
    {
        proof {
            self.lemma_unique();
        }
        let ghost es = self.entries@;
        let ghost target = pdocsub(self@, other@);
        let mut r = TermPositions::new();
        let n = self.entries.len();
        let mut j: usize = 0;
        proof {
            assert(r@ =~~= restrict_docs(target, seq_set(pids(es).take(0))));
        }
        while j < n
            invariant
                r.wf(),
                self.wf(),
                other.wf(),
                pkeys_unique(es),
                self.entries@ == es,
                target == pdocsub(self@, other@),
                n == es.len(),
                j <= n,
                r@ == restrict_docs(target, seq_set(pids(es).take(j as int))),
            decreases n - j,
        {
            let d = self.entries[j].0;
            proof {
                lemma_pmap_index(es, j as int);
                assert(pids(es)[j as int] == d);
                crate::uintset::lemma_take_set_step_pub(pids(es), j as int);
            }
            match other.get(d) {
                Some(_) => {},
                None => {
                    let copy = self.entries[j].1.duplicate();
                    r.set_entry(d, copy);
                },
            }
            proof {
                assert(r@ =~~= restrict_docs(target, seq_set(pids(es).take(j + 1))));
            }
            j += 1;
        }
        proof {
            assert(pids(es).take(n as int) =~= pids(es));
            lemma_pmap_dom(es);
            assert(r@ =~~= target);
        }
        r
    }

    /// Proximity join: for each document both sides key, keeps each of this
    /// side's positions whose window `[p - left, p + right]` holds a position
    /// of the other side, together with the other side's positions in such
    /// windows; documents with no hit are dropped.
    pub fn close_union(&self, other: &TermPositions, left: usize, right: usize) -> (r:
        TermPositions)
        requires
            self.wf(),
            other.wf(),
        ensures
            r.wf(),
            r@ == pclose(self@, other@, left as int, right as int),
    {
        proof {
            self.lemma_unique();
        }
        let ghost es = self.entries@;
        let ghost target = pclose(self@, other@, left as int, right as int);
        let mut r = TermPositions::new();
        let n = self.entries.len();
        let mut j: usize = 0;
        proof {
            assert(r@ =~~= restrict_docs(target, seq_set(pids(es).take(0))));
        }
        while j < n
            invariant
                r.wf(),
                self.wf(),
                other.wf(),
                pkeys_unique(es),
                self.entries@ == es,
                target == pclose(self@, other@, left as int, right as int),
                n == es.len(),
                j <= n,
                r@ == restrict_docs(target, seq_set(pids(es).take(j as int))),
            decreases n - j,
        {
            let d = self.entries[j].0;
            proof {
                lemma_pmap_index(es, j as int);
                assert(pids(es)[j as int] == d);
                crate::uintset::lemma_take_set_step_pub(pids(es), j as int);
            }
            match other.get(d) {
                Some(qs) => {
                    let hits = close_sets(&self.entries[j].1, qs, left, right);
                    if !hits.is_empty() {
                        proof {
                            let v = choose|v: usize| hits@.contains(v);
                            assert(exists|p: usize|
                                self@[d].contains(p) && window_hits(
                                    other@[d],
                                    p,
                                    left as int,
                                    right as int,
                                )) by {
                                if self@[d].contains(v) && window_hits(
                                    other@[d],
                                    v,
                                    left as int,
                                    right as int,
                                ) {
                                } else {
                                    let p = choose|p: usize|
                                        self@[d].contains(p) && in_window(
                                            p,
                                            v,
                                            left as int,
                                            right as int,
                                        );
                                    assert(window_hits(other@[d], p, left as int, right as int));
                                }
                            }
                        }
                        r.set_entry(d, hits);
                    } else {
                        proof {
                            if exists|p: usize|
                                self@[d].contains(p) && window_hits(
                                    other@[d],
                                    p,
                                    left as int,
                                    right as int,
                                ) {
                                let p = choose|p: usize|
                                    self@[d].contains(p) && window_hits(
                                        other@[d],
                                        p,
                                        left as int,
                                        right as int,
                                    );
                                assert(hits@.contains(p));
                            }
                        }
                    }
                },
                None => {},
            }
            proof {
                assert(r@ =~~= restrict_docs(target, seq_set(pids(es).take(j + 1))));
            }
            j += 1;
        }
        proof {
            assert(pids(es).take(n as int) =~= pids(es));
            lemma_pmap_dom(es);
            assert(r@ =~~= target);
        }
        r
    }

    /// A copy of these postings.
    pub fn duplicate(&self) -> (r: TermPositions)
        requires
            self.wf(),
        ensures
            r.wf(),
            r@ == self@,
    {
        let mut r = TermPositions::new();
        r.merge(self);
        proof {
            assert(r@ =~~= self@);
        }
        r
    }
}

/// `m` restricted to the documents in `s`.
pub open spec fn restrict_docs(m: PosMap, s: Set<usize>) -> PosMap {
    Map::new(|d: usize| m.contains_key(d) && s.contains(d), |d: usize| m[d])
}

/// `close_set` over the prefix `xs` of one side's sorted positions.
pub open spec fn close_set_partial(
    xs: Seq<usize>,
    y: Set<usize>,
    left: int,
    right: int,
) -> Set<usize> {
    Set::new(
        |v: usize| (seq_set(xs).contains(v) && window_hits(y, v, left, right)) || (y.contains(v)
            && exists|p: usize| seq_set(xs).contains(p) && in_window(p, v, left, right)),
    )
}

/// Computes the close-union of two position sets.
fn close_sets(x: &UintSet, y: &UintSet, left: usize, right: usize) -> (r: UintSet)
    requires
        x.wf(),
        y.wf(),
    ensures
        r.wf(),
        r@ == close_set(x@, y@, left as int, right as int),
{
    let ghost ord = x.ordered();
    proof {
        x.lemma_ordered();
    }
    let xs = x.elems();
    let mut r = UintSet::new();
    let n = xs.len();
    let mut k: usize = 0;
    proof {
        assert(r@ =~= close_set_partial(ord.take(0), y@, left as int, right as int));
    }
    while k < n
        invariant
            r.wf(),
            x.wf(),
            y.wf(),
            xs@ == ord,
            seq_set(ord) == x@,
            n == ord.len(),
            k <= n,
            r@ == close_set_partial(ord.take(k as int), y@, left as int, right as int),
        decreases n - k,
    {
        let p = xs[k];
        proof {
            crate::uintset::lemma_take_set_step_pub(ord, k as int);
        }
        let lo = if p >= left {
            p - left
        } else {
            0
        };
        let hi = if p <= usize::MAX - right {
            p + right
        } else {
            usize::MAX
        };
        proof {
            assert(forall|q: usize| (lo <= q <= hi) == in_window(p, q, left as int, right as int));
        }
        if y.has_in_range(lo, hi) {
            r.insert(p);
            let w = y.in_range(lo, hi);
            r = r.union_with(&w);
        }
        proof {
            assert(r@ =~= close_set_partial(ord.take(k + 1), y@, left as int, right as int)) by {
                let old_part = close_set_partial(ord.take(k as int), y@, left as int, right as int);
                let new_part = close_set_partial(ord.take(k + 1), y@, left as int, right as int);
                assert(seq_set(ord.take(k + 1)) == seq_set(ord.take(k as int)).insert(p));
                assert forall|v: usize| new_part.contains(v) implies r@.contains(v) by {
                    if seq_set(ord.take(k + 1)).contains(v) && window_hits(y@, v, left as int, right as int) {
                        if seq_set(ord.take(k as int)).contains(v) {
                            assert(old_part.contains(v));
                        } else {
                            assert(v == p);
                            let q = choose|q: usize|
                                y@.contains(q) && in_window(p, q, left as int, right as int);
                            assert(lo <= q <= hi);
                        }
                    } else {
                        let pw = choose|pw: usize|
                            seq_set(ord.take(k + 1)).contains(pw) && in_window(
                                pw,
                                v,
                                left as int,
                                right as int,
                            );
                        if seq_set(ord.take(k as int)).contains(pw) {
                            assert(old_part.contains(v));
                        } else {
                            assert(pw == p);
                            assert(lo <= v <= hi);
                        }
                    }
                }
                assert forall|v: usize| r@.contains(v) implies new_part.contains(v) by {
                    if old_part.contains(v) {
                        if seq_set(ord.take(k as int)).contains(v) && window_hits(
                            y@,
                            v,
                            left as int,
                            right as int,
                        ) {
                            assert(seq_set(ord.take(k + 1)).contains(v));
                        } else {
                            let pw = choose|pw: usize|
                                seq_set(ord.take(k as int)).contains(pw) && in_window(
                                    pw,
                                    v,
                                    left as int,
                                    right as int,
                                );
                            assert(seq_set(ord.take(k + 1)).contains(pw) && in_window(
                                pw,
                                v,
                                left as int,
                                right as int,
                            ));
                        }
                    } else if v == p {
                        assert(seq_set(ord.take(k + 1)).contains(p));
                    } else {
                        assert(y@.contains(v) && lo <= v <= hi);
                        assert(seq_set(ord.take(k + 1)).contains(p) && in_window(
                            p,
                            v,
                            left as int,
                            right as int,
                        ));
                    }
                }
            }
        }
        k += 1;
    }
    proof {
        assert(ord.take(n as int) =~= ord);
        assert(r@ =~= close_set(x@, y@, left as int, right as int));
    }
    r
}

/// `por(a, b)` with `b` restricted to the documents in `s`.
pub open spec fn por_restrict(a: PosMap, b: PosMap, s: Set<usize>) -> PosMap {
    Map::new(
        |d: usize| a.contains_key(d) || (b.contains_key(d) && s.contains(d)),
        |d: usize| if b.contains_key(d) && s.contains(d) {
            pos_at(a, d).union(b[d])
        } else {
            pos_at(a, d)
        },
    )
}

/// A word-ordinal position of a term within a document.
#[derive(PartialEq, Eq, Structural, Copy, Clone, PartialOrd, Ord, Hash, Debug)]
pub struct TermDocumentPosition(pub usize);

impl TermDocumentPosition {
    pub fn new(offset: usize) -> (r: TermDocumentPosition)
        ensures
            r.0 == offset,
    {
        TermDocumentPosition(offset)
    }

    pub fn offset(&self) -> (r: usize)
        ensures
            r == self.0,
    {
        self.0
    }
}

/// `m` with every document of `s` registered, keeping recorded positions.
pub open spec fn padd_docset(m: PosMap, s: Set<usize>) -> PosMap {
    Map::new(
        |d: usize| m.contains_key(d) || s.contains(d),
        |d: usize| if m.contains_key(d) {
            m[d]
        } else {
            Set::empty()
        },
    )
}

/// No keyed document has an empty position set (no membership-only markers).
pub open spec fn no_empty_docs(m: PosMap) -> bool {
    forall|d: usize| m.contains_key(d) ==> exists|q: usize| (#[trigger] m[d]).contains(q)
}

/// Per-document union is commutative.
pub proof fn lemma_por_comm(a: PosMap, b: PosMap)
    ensures
        por(a, b) == por(b, a),
{
    assert(por(a, b) =~~= por(b, a));
}

/// Per-document union is associative.
pub proof fn lemma_por_assoc(a: PosMap, b: PosMap, c: PosMap)
    ensures
        por(por(a, b), c) == por(a, por(b, c)),
{
    assert(por(por(a, b), c) =~~= por(a, por(b, c)));
}

/// Per-document union is idempotent.
pub proof fn lemma_por_self(a: PosMap)
    ensures
        por(a, a) == a,
{
    assert(por(a, a) =~~= a);
}

/// Per-document intersection is commutative.
pub proof fn lemma_pand_comm(a: PosMap, b: PosMap)
    ensures
        pand(a, b) == pand(b, a),
{
    assert forall|d: usize| pand(a, b).contains_key(d) == pand(b, a).contains_key(d) by {
        if a.contains_key(d) && b.contains_key(d) {
            if sets_meet(a[d], b[d]) {
                let q = choose|q: usize| a[d].contains(q) && b[d].contains(q);
                assert(b[d].contains(q) && a[d].contains(q));
            }
            if sets_meet(b[d], a[d]) {
                let q = choose|q: usize| b[d].contains(q) && a[d].contains(q);
                assert(a[d].contains(q) && b[d].contains(q));
            }
        }
    }
    assert(pand(a, b) =~~= pand(b, a));
}

/// Per-document intersection is associative.
pub proof fn lemma_pand_assoc(a: PosMap, b: PosMap, c: PosMap)
    ensures
        pand(pand(a, b), c) == pand(a, pand(b, c)),
{
    let l = pand(pand(a, b), c);
    let r = pand(a, pand(b, c));
    assert forall|d: usize| l.contains_key(d) == r.contains_key(d) by {
        if a.contains_key(d) && b.contains_key(d) && c.contains_key(d) {
            if l.contains_key(d) {
                let q = choose|q: usize|
                    pand(a, b)[d].contains(q) && c[d].contains(q);
                assert(a[d].contains(q) && b[d].contains(q) && c[d].contains(q));
                assert(sets_meet(b[d], c[d]));
                assert(pand(b, c)[d].contains(q));
                assert(sets_meet(a[d], pand(b, c)[d]));
            }
            if r.contains_key(d) {
                let q = choose|q: usize|
                    a[d].contains(q) && pand(b, c)[d].contains(q);
                assert(a[d].contains(q) && b[d].contains(q) && c[d].contains(q));
                assert(sets_meet(a[d], b[d]));
                assert(pand(a, b)[d].contains(q));
                assert(sets_meet(pand(a, b)[d], c[d]));
            }
        }
    }
    assert forall|d: usize| l.contains_key(d) implies l[d] =~= r[d] by {
        assert(a.contains_key(d) && b.contains_key(d) && c.contains_key(d));
        assert(l[d] =~= a[d].intersect(b[d]).intersect(c[d]));
        assert(r[d] =~= a[d].intersect(b[d].intersect(c[d])));
    }
    assert(l =~~= r);
}

/// Per-document intersection is idempotent on maps with no membership-only
/// markers; a document keyed with an empty position set would be dropped.
pub proof fn lemma_pand_self(a: PosMap)
    requires
        no_empty_docs(a),
    ensures
        pand(a, a) == a,
{
    assert forall|d: usize| a.contains_key(d) implies pand(a, a).contains_key(d) by {
        let q = choose|q: usize| (a[d]).contains(q);
        assert(sets_meet(a[d], a[d]));
    }
    assert(pand(a, a) =~~= a);
}

/// Positional difference of a map with itself is empty.
pub proof fn lemma_pdiff_self(a: PosMap)
    ensures
        pdiff(a, a) == Map::<usize, Set<usize>>::empty(),
{
    assert(pdiff(a, a) =~~= Map::<usize, Set<usize>>::empty());
}

/// Whatever intersection keeps of `b` vanishes when `b` is subtracted again.
pub proof fn lemma_pand_pdiff(a: PosMap, b: PosMap)
    ensures
        pdiff(pand(a, b), b) == Map::<usize, Set<usize>>::empty(),
{
    assert forall|d: usize| !pdiff(pand(a, b), b).contains_key(d) by {
        if pand(a, b).contains_key(d) {
            assert(b.contains_key(d));
            if exists|q: usize|
                pand(a, b)[d].contains(q) && !pos_at(b, d).contains(q) {
                let q = choose|q: usize|
                    pand(a, b)[d].contains(q) && !pos_at(b, d).contains(q);
                assert(b[d].contains(q));
            }
        }
    }
    assert(pdiff(pand(a, b), b) =~~= Map::<usize, Set<usize>>::empty());
}

proof fn lemma_pcount_take_le(es: Seq<(usize, UintSet)>, j: int)
    requires
        0 <= j <= es.len(),
    ensures
        pcount(es.take(j)) <= pcount(es),
    decreases es.len() - j,
{
    if j == es.len() {
        assert(es.take(j) =~= es);
    } else {
        assert(es.take(j + 1).drop_last() =~= es.take(j));
        assert(es.take(j + 1).last() == es[j]);
        lemma_pcount_take_le(es, j + 1);
    }
}

} // verus!
