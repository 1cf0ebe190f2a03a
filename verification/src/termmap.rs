use vstd::prelude::*;

verus! {

/// No term is keyed twice.
pub open spec fn tkeys_unique<V>(es: Seq<(Vec<char>, V)>) -> bool {
    forall|i: int, j: int| 0 <= i < j < es.len() ==> es[i].0@ != es[j].0@
}

/// The terms of an entry list, in listing order.
pub open spec fn tkeys<V>(es: Seq<(Vec<char>, V)>) -> Seq<Seq<char>> {
    es.map_values(|e: (Vec<char>, V)| e.0@)
}

/// The map an entry list denotes, each value taken by its view.
pub open spec fn entries_tmap<V: View>(es: Seq<(Vec<char>, V)>) -> Map<Seq<char>, V::V>
    decreases es.len(),
{
    if es.len() == 0 {
        Map::empty()
    } else {
        entries_tmap(es.drop_last()).insert(es.last().0@, es.last().1@)
    }
}

pub proof fn lemma_tmap_absent<V: View>(es: Seq<(Vec<char>, V)>, k: Seq<char>)
    requires
        forall|i: int| 0 <= i < es.len() ==> es[i].0@ != k,
    ensures
        !entries_tmap(es).contains_key(k),
    decreases es.len(),
{
    if es.len() > 0 {
        lemma_tmap_absent(es.drop_last(), k);
    }
}

pub proof fn lemma_tmap_index<V: View>(es: Seq<(Vec<char>, V)>, j: int)
    requires
        tkeys_unique(es),
        0 <= j < es.len(),
    ensures
        entries_tmap(es).contains_key(es[j].0@),
        entries_tmap(es)[es[j].0@] == es[j].1@,
    decreases es.len(),
{
    if j < es.len() - 1 {
        assert(es.drop_last()[j] == es[j]);
        lemma_tmap_index(es.drop_last(), j);
    }
}

pub proof fn lemma_tmap_update<V: View>(es: Seq<(Vec<char>, V)>, k: int, e: (Vec<char>, V))
    requires
        tkeys_unique(es),
        0 <= k < es.len(),
        e.0@ == es[k].0@,
    ensures
        entries_tmap(es.update(k, e)) == entries_tmap(es).insert(e.0@, e.1@),
        tkeys_unique(es.update(k, e)),
    decreases es.len(),
{
    if k == es.len() - 1 {
        assert(es.update(k, e).drop_last() =~= es.drop_last());
        assert(entries_tmap(es.update(k, e)) =~= entries_tmap(es).insert(e.0@, e.1@));
    } else {
        assert(es.update(k, e).drop_last() =~= es.drop_last().update(k, e));
        assert(es.drop_last()[k] == es[k]);
        lemma_tmap_update(es.drop_last(), k, e);
        assert(es.last().0@ != e.0@);
        assert(entries_tmap(es.update(k, e)) =~= entries_tmap(es).insert(e.0@, e.1@));
    }
}

pub proof fn lemma_tmap_push<V: View>(es: Seq<(Vec<char>, V)>, e: (Vec<char>, V))
    ensures
        entries_tmap(es.push(e)) == entries_tmap(es).insert(e.0@, e.1@),
{
    assert(es.push(e).drop_last() =~= es);
    assert(es.push(e).last() == e);
}

/// The set of terms a key sequence holds.
pub open spec fn tkey_set(ks: Seq<Seq<char>>) -> Set<Seq<char>> {
    Set::new(|k: Seq<char>| ks.contains(k))
}

/// Taking one more entry grows the denoted map by that entry.
pub proof fn lemma_tmap_take_step<V: View>(es: Seq<(Vec<char>, V)>, j: int)
    requires
        0 <= j < es.len(),
    ensures
        entries_tmap(es.take(j + 1)) == entries_tmap(es.take(j)).insert(es[j].0@, es[j].1@),
        tkey_set(tkeys(es.take(j + 1))) == tkey_set(tkeys(es.take(j))).insert(es[j].0@),
{
    assert(es.take(j + 1).drop_last() =~= es.take(j));
    assert(es.take(j + 1).last() == es[j]);
    assert forall|k: Seq<char>| tkey_set(tkeys(es.take(j + 1))).contains(k) implies tkey_set(
        tkeys(es.take(j)),
    ).insert(es[j].0@).contains(k) by {
        let t = choose|t: int|
            0 <= t < tkeys(es.take(j + 1)).len() && #[trigger] tkeys(es.take(j + 1))[t] == k;
        if t < j {
            assert(tkeys(es.take(j))[t] == k);
        }
    }
    assert forall|k: Seq<char>| tkey_set(tkeys(es.take(j))).insert(es[j].0@).contains(
        k,
    ) implies tkey_set(tkeys(es.take(j + 1))).contains(k) by {
        if k == es[j].0@ {
            assert(tkeys(es.take(j + 1))[j] == k);
        } else {
            let t = choose|t: int|
                0 <= t < tkeys(es.take(j)).len() && #[trigger] tkeys(es.take(j))[t] == k;
            assert(tkeys(es.take(j + 1))[t] == k);
        }
    }
    assert(tkey_set(tkeys(es.take(j + 1))) =~= tkey_set(tkeys(es.take(j))).insert(es[j].0@));
}

pub proof fn lemma_tmap_card<V: View>(es: Seq<(Vec<char>, V)>)
    requires
        tkeys_unique(es),
    ensures
        entries_tmap(es).dom().finite(),
        entries_tmap(es).dom().len() == es.len(),
    decreases es.len(),
{
    if es.len() > 0 {
        lemma_tmap_card(es.drop_last());
        lemma_tmap_absent(es.drop_last(), es.last().0@);
    }
}

/// Whether two character vectors hold the same characters.
pub fn term_eq(a: &Vec<char>, b: &Vec<char>) -> (r: bool)
    ensures
        r == (a@ == b@),
{
    if a.len() != b.len() {
        return false;
    }
    let n = a.len();
    let mut j: usize = 0;
    while j < n
        invariant
            n == a@.len(),
            n == b@.len(),
            j <= n,
            forall|t: int| 0 <= t < j ==> a@[t] == b@[t],
        decreases n - j,
    {
        if a[j] != b[j] {
            return false;
        }
        j += 1;
    }
    proof {
        assert(a@ =~= b@);
    }
    true
}

/// A finite map from terms to postings, stored as an entry list with unique
/// keys.
#[derive(Debug)]
pub struct TermMap<V> {
    entries: Vec<(Vec<char>, V)>,
}

impl<V: View> TermMap<V> {
    /// The map from term to the value's mathematical view.
    pub closed spec fn view(&self) -> Map<Seq<char>, V::V> {
        entries_tmap(self.entries@)
    }

    pub closed spec fn wf(&self) -> bool {
        tkeys_unique(self.entries@)
    }

    /// The entries themselves, for iteration.
    pub closed spec fn list(&self) -> Seq<(Vec<char>, V)> {
        self.entries@
    }

    pub proof fn lemma_list(&self)
        ensures
            entries_tmap(self.list()) == self@,
            self.wf() ==> tkeys_unique(self.list()),
    {
    }

    pub fn new() -> (r: TermMap<V>)
        ensures
            r.wf(),
            r@ == Map::<Seq<char>, V::V>::empty(),
            r.list().len() == 0,
    {
        TermMap { entries: Vec::new() }
    }

    /// How many terms are keyed.
    pub fn len(&self) -> (r: usize)
        requires
            self.wf(),
        ensures
            r == self@.dom().len(),
    {
        proof {
            lemma_tmap_card(self.entries@);
        }
        self.entries.len()
    }

    /// The entry list, each term once.
    pub fn entries(&self) -> (r: &Vec<(Vec<char>, V)>)
        ensures
            r@ == self.list(),
    {
        &self.entries
    }

    /// The value keyed by `term`, if any.
    pub fn get(&self, term: &Vec<char>) -> (r: Option<&V>)
        requires
            self.wf(),
        ensures
            r is Some <==> self@.contains_key(term@),
            r is Some ==> r->Some_0@ == self@[term@],
            r matches Some(v) ==> exists|i: int|
                0 <= i < self.list().len() && (#[trigger] self.list()[i]).1 == v,
    {
        let n = self.entries.len();
        let mut j: usize = 0;
        while j < n
            invariant
                self.wf(),
                n == self.entries@.len(),
                j <= n,
                forall|t: int| 0 <= t < j ==> (#[trigger] self.entries@[t]).0@ != term@,
            decreases n - j,
        {
            if term_eq(&self.entries[j].0, term) {
                proof {
                    lemma_tmap_index(self.entries@, j as int);
                    assert((self.list()[j as int]).1 == self.entries@[j as int].1);
                }
                return Some(&self.entries[j].1);
            }
            j += 1;
        }
        proof {
            lemma_tmap_absent(self.entries@, term@);
        }
        None
    }

    /// Keys `term` with exactly `v`.
    pub fn set(&mut self, term: Vec<char>, v: V)
        requires
            old(self).wf(),
        ensures
            final(self).wf(),
            final(self)@ == old(self)@.insert(term@, v@),
            forall|i: int|
                0 <= i < final(self).list().len() ==> ((#[trigger] final(self).list()[i]).1 == v
                    || old(self).list().contains(final(self).list()[i])),
    {
        let ghost es0 = self.entries@;
        let n = self.entries.len();
        let mut j: usize = 0;
        while j < n
            invariant
                self.entries@ == es0,
                es0 == old(self).entries@,
                tkeys_unique(es0),
                n == es0.len(),
                j <= n,
                forall|t: int| 0 <= t < j ==> (#[trigger] es0[t]).0@ != term@,
            decreases n - j,
        {
            if term_eq(&self.entries[j].0, &term) {
                self.entries[j] = (term, v);
                proof {
                    let e = self.entries@[j as int];
                    assert(self.entries@ == es0.update(j as int, e));
                    assert(e.0@ == es0[j as int].0@);
                    lemma_tmap_update(es0, j as int, e);
                    assert(entries_tmap(es0.update(j as int, e)) == entries_tmap(es0).insert(
                        e.0@,
                        e.1@,
                    ));
                    assert(entries_tmap(self.entries@) == entries_tmap(es0.update(j as int, e)));
                    assert(self@ =~= old(self)@.insert(e.0@, e.1@));
                    assert forall|i: int|
                        0 <= i < self.entries@.len() && i != j implies es0.contains(
                            #[trigger] self.entries@[i],
                        ) by {
                        assert(self.entries@[i] == es0[i]);
                    }
                }
                return ;
            }
            j += 1;
        }
        proof {
            lemma_tmap_push(es0, (term, v));
        }
        self.entries.push((term, v));
        proof {
            assert(forall|i: int| 0 <= i < es0.len() ==> self.entries@[i] == es0[i]);
            assert(self.entries@.last().0@ == term@);
            assert(tkeys_unique(self.entries@));
            assert forall|i: int|
                0 <= i < self.entries@.len() && i != es0.len() implies es0.contains(
                    #[trigger] self.entries@[i],
                ) by {
                assert(self.entries@[i] == es0[i]);
            }
        }
    }
}

} // verus!
