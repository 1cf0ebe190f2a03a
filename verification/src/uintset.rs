use vstd::prelude::*;

verus! {

/// Whether a sequence is strictly increasing.
pub open spec fn strictly_sorted(s: Seq<usize>) -> bool {
    forall|i: int, j: int| 0 <= i < j < s.len() ==> s[i] < s[j]
}

/// The set of values a sequence holds.
pub open spec fn seq_set(s: Seq<usize>) -> Set<usize> {
    Set::new(|x: usize| s.contains(x))
}

/// Taking one more element grows the value set by that element.
pub proof fn lemma_take_set_step_pub(s: Seq<usize>, j: int)
    requires
        0 <= j < s.len(),
    ensures
        seq_set(s.take(j + 1)) == seq_set(s.take(j)).insert(s[j]),
{
    lemma_take_set_step(s, j);
}

proof fn lemma_take_set_step(s: Seq<usize>, j: int)
    requires
        0 <= j < s.len(),
    ensures
        seq_set(s.take(j + 1)) == seq_set(s.take(j)).insert(s[j]),
{
    assert(s.take(j + 1) =~= s.take(j).push(s[j]));
    assert forall|y: usize| seq_set(s.take(j + 1)).contains(y) implies seq_set(
        s.take(j),
    ).insert(s[j]).contains(y) by {
        let t = choose|t: int| 0 <= t < s.take(j + 1).len() && #[trigger] s.take(j + 1)[t] == y;
        if t < j {
            assert(s.take(j)[t] == y);
        }
    }
    assert forall|y: usize| seq_set(s.take(j)).insert(s[j]).contains(y) implies seq_set(
        s.take(j + 1),
    ).contains(y) by {
        if y == s[j] {
            assert(s.take(j + 1)[j] == y);
        } else {
            let t = choose|t: int| 0 <= t < s.take(j).len() && #[trigger] s.take(j)[t] == y;
            assert(s.take(j + 1)[t] == y);
        }
    }
    assert(seq_set(s.take(j + 1)) =~= seq_set(s.take(j)).insert(s[j]));
}

proof fn lemma_whole_take(s: Seq<usize>)
    ensures
        s.take(s.len() as int) == s,
{
    assert(s.take(s.len() as int) =~= s);
}

/// A strictly sorted sequence holds as many values as its set.
pub proof fn lemma_sorted_card(s: Seq<usize>)
    requires
        strictly_sorted(s),
    ensures
        seq_set(s).finite(),
        seq_set(s).len() == s.len(),
    decreases s.len(),
{
    if s.len() == 0 {
        assert(seq_set(s) =~= Set::<usize>::empty());
    } else {
        let pre = s.drop_last();
        lemma_sorted_card(pre);
        assert(s.take(s.len() - 1) == pre);
        lemma_take_set_step(s, s.len() - 1);
        lemma_whole_take(s);
        assert(!pre.contains(s.last())) by {
            if pre.contains(s.last()) {
                let t = choose|t: int| 0 <= t < pre.len() && #[trigger] pre[t] == s.last();
                assert(s[t] == s.last());
            }
        }
        assert(!seq_set(pre).contains(s.last()));
    }
}

/// A finite set of nonnegative machine integers, stored strictly sorted.
#[derive(Debug)]
pub struct UintSet {
    items: Vec<usize>,
}

impl View for UintSet {
    type V = Set<usize>;

    /// The set of values held.
    closed spec fn view(&self) -> Set<usize> {
        seq_set(self.items@)
    }
}

impl UintSet {
    pub closed spec fn wf(&self) -> bool {
        strictly_sorted(self.items@)
    }

    /// The values in increasing order.
    pub closed spec fn ordered(&self) -> Seq<usize> {
        self.items@
    }

    pub proof fn lemma_ordered(&self)
        ensures
            seq_set(self.ordered()) == self@,
            self.wf() ==> strictly_sorted(self.ordered()),
    {
    }

    /// The set is finite and as large as its sorted listing.
    pub proof fn lemma_card(&self)
        requires
            self.wf(),
        ensures
            self@.finite(),
            self@.len() == self.ordered().len(),
    {
        lemma_sorted_card(self.items@);
    }

    /// The set holding the values of an already sorted listing.
    pub fn from_sorted(v: Vec<usize>) -> (r: UintSet)
        requires
            strictly_sorted(v@),
        ensures
            r.wf(),
            r@ == seq_set(v@),
            r.ordered() == v@,
    {
        UintSet { items: v }
    }

    /// A copy of this set.
    pub fn duplicate(&self) -> (r: UintSet)
        ensures
            r@ == self@,
            r.ordered() == self.ordered(),
            r.wf() == self.wf(),
    {
        let n = self.items.len();
        let mut v: Vec<usize> = Vec::new();
        let mut j: usize = 0;
        while j < n
            invariant
                n == self.items@.len(),
                j <= n,
                v@ == self.items@.take(j as int),
            decreases n - j,
        {
            v.push(self.items[j]);
            proof {
                assert(v@ =~= self.items@.take(j + 1));
            }
            j += 1;
        }
        proof {
            lemma_whole_take(self.items@);
        }
        UintSet { items: v }
    }

    pub fn new() -> (r: UintSet)
        ensures
            r.wf(),
            r@ == Set::<usize>::empty(),
            r.ordered().len() == 0,
    {
        let r = UintSet { items: Vec::new() };
        proof {
            assert(r@ =~= Set::<usize>::empty());
        }
        r
    }

    /// The sorted listing of the values, for iteration in canonical order.
    pub fn elems(&self) -> (r: &Vec<usize>)
        ensures
            r@ == self.ordered(),
    {
        &self.items
    }

    /// How many values are held.
    pub fn len(&self) -> (r: usize)
        requires
            self.wf(),
        ensures
            r == self@.len(),
    {
        proof {
            self.lemma_card();
        }
        self.items.len()
    }

    pub fn is_empty(&self) -> (r: bool)
        requires
            self.wf(),
        ensures
            r == (self@ =~= Set::<usize>::empty()),
    {
        proof {
            self.lemma_card();
            if self.items@.len() == 0 {
                assert(self@ =~= Set::<usize>::empty());
            } else {
                assert(self@.contains(self.items@[0])) by {
                    assert(self.items@.contains(self.items@[0]));
                }
            }
        }
        self.items.len() == 0
    }

    /// Whether `x` is held.
    pub fn contains(&self, x: usize) -> (r: bool)
        ensures
            r == self@.contains(x),
    {
        let n = self.items.len();
        let mut j: usize = 0;
        while j < n
            invariant
                n == self.items@.len(),
                j <= n,
                forall|t: int| 0 <= t < j ==> self.items@[t] != x,
            decreases n - j,
        {
            if self.items[j] == x {
                assert(self.items@.contains(x));
                return true;
            }
            j += 1;
        }
        proof {
            if self.items@.contains(x) {
                let t = choose|t: int| 0 <= t < self.items@.len() && #[trigger] self.items@[t] == x;
                assert(false);
            }
        }
        false
    }

    /// Adds `x`, keeping the listing sorted.
    pub fn insert(&mut self, x: usize)
        requires
            old(self).wf(),
        ensures
            final(self).wf(),
            final(self)@ == old(self)@.insert(x),
    {
        let ghost s0 = self.items@;
        let n = self.items.len();
        let mut j: usize = 0;
        while j < n && self.items[j] < x
            invariant
                self.items@ == s0,
                n == s0.len(),
                j <= n,
                forall|t: int| 0 <= t < j ==> s0[t] < x,
            decreases n - j,
        {
            j += 1;
        }
        if j < n && self.items[j] == x {
            proof {
                assert(self.items@.contains(x));
                assert(self@ =~= old(self)@.insert(x));
            }
            return ;
        }
        self.items.insert(j, x);
        proof {
            let s1 = self.items@;
            assert(s1 =~= s0.take(j as int) + seq![x] + s0.skip(j as int));
            assert forall|a: int, b: int| 0 <= a < b < s1.len() implies s1[a] < s1[b] by {
                assert(forall|t: int| 0 <= t < j ==> s1[t] == s0[t]);
                assert(s1[j as int] == x);
                assert(forall|t: int| j < t < s1.len() ==> s1[t] == s0[t - 1]);
                assert(forall|t: int| j <= t < s0.len() ==> s0[t] > x || s0[t] == x);
                assert(j < n ==> s0[j as int] != x);
                assert(forall|t: int| j <= t < s0.len() ==> s0[t] > x) by {
                    if j < n {
                        assert(s0[j as int] >= x);
                        assert(forall|t: int| j < t < s0.len() ==> s0[t] > s0[j as int]);
                    }
                }
            }
            assert forall|y: usize| self@.contains(y) implies old(self)@.insert(x).contains(y) by {
                let t = choose|t: int| 0 <= t < s1.len() && #[trigger] s1[t] == y;
                if t < j {
                    assert(s0[t] == y);
                    assert(s0.contains(y));
                } else if t > j {
                    assert(s0[t - 1] == y);
                    assert(s0.contains(y));
                }
            }
            assert forall|y: usize| old(self)@.insert(x).contains(y) implies self@.contains(y) by {
                if y == x {
                    assert(s1[j as int] == y);
                    assert(s1.contains(y));
                } else {
                    let t = choose|t: int| 0 <= t < s0.len() && #[trigger] s0[t] == y;
                    if t < j {
                        assert(s1[t] == y);
                    } else {
                        assert(s1[t + 1] == y);
                    }
                    assert(s1.contains(y));
                }
            }
            assert(self@ =~= old(self)@.insert(x));
        }
    }

    /// Appending a value greater than the last keeps a sorted run sorted.
    proof fn lemma_push_sorted(s: Seq<usize>, x: usize)
        requires
            strictly_sorted(s),
            s.len() == 0 || s.last() < x,
        ensures
            strictly_sorted(s.push(x)),
            seq_set(s.push(x)) == seq_set(s).insert(x),
    {
        assert forall|p: int, q: int| 0 <= p < q < s.push(x).len() implies s.push(x)[p] < s.push(
            x,
        )[q] by {
            if q == s.len() {
                if p < s.len() - 1 {
                    assert(s[p] < s[s.len() - 1]);
                }
            }
        }
        assert forall|y: usize| seq_set(s.push(x)).contains(y) implies seq_set(s).insert(
            x,
        ).contains(y) by {
            let t = choose|t: int| 0 <= t < s.push(x).len() && #[trigger] s.push(x)[t] == y;
            if t < s.len() {
                assert(s[t] == y);
            }
        }
        assert forall|y: usize| seq_set(s).insert(x).contains(y) implies seq_set(
            s.push(x),
        ).contains(y) by {
            if y == x {
                assert(s.push(x)[s.len() as int] == y);
            } else {
                let t = choose|t: int| 0 <= t < s.len() && #[trigger] s[t] == y;
                assert(s.push(x)[t] == y);
            }
        }
        assert(seq_set(s.push(x)) =~= seq_set(s).insert(x));
    }

    /// The set holding the values in either set, merged in one pass over the
    /// two sorted runs.
    pub fn union_with(&self, other: &UintSet) -> (r: UintSet)
        requires
            self.wf(),
            other.wf(),
        ensures
            r.wf(),
            r@ == self@.union(other@),
    {
        let na = self.items.len();
        let nb = other.items.len();
        let mut out: Vec<usize> = Vec::new();
        let mut i: usize = 0;
        let mut j: usize = 0;
        proof {
            assert(seq_set(out@) =~= seq_set(self.items@.take(0)).union(
                seq_set(other.items@.take(0)),
            ));
        }
        while i < na || j < nb
            invariant
                self.wf(),
                other.wf(),
                na == self.items@.len(),
                nb == other.items@.len(),
                i <= na,
                j <= nb,
                strictly_sorted(out@),
                seq_set(out@) == seq_set(self.items@.take(i as int)).union(
                    seq_set(other.items@.take(j as int)),
                ),
                i < na ==> (out@.len() == 0 || out@.last() < self.items@[i as int]),
                j < nb ==> (out@.len() == 0 || out@.last() < other.items@[j as int]),
            decreases na - i + nb - j,
        {
            let ghost out0 = out@;
            let ghost i0 = i as int;
            let ghost j0 = j as int;
            let x: usize;
            if j >= nb || (i < na && self.items[i] <= other.items[j]) {
                x = self.items[i];
                proof {
                    lemma_take_set_step(self.items@, i0);
                }
                i += 1;
                if j < nb && other.items[j] == x {
                    proof {
                        lemma_take_set_step(other.items@, j0);
                    }
                    j += 1;
                }
            } else {
                x = other.items[j];
                proof {
                    lemma_take_set_step(other.items@, j0);
                }
                j += 1;
            }
            out.push(x);
            proof {
                Self::lemma_push_sorted(out0, x);
                assert(out@ == out0.push(x));
                assert(seq_set(out@) =~= seq_set(self.items@.take(i as int)).union(
                    seq_set(other.items@.take(j as int)),
                ));
            }
        }
        proof {
            lemma_whole_take(self.items@);
            lemma_whole_take(other.items@);
        }
        let r = UintSet { items: out };
        proof {
            assert(r@ =~= self@.union(other@));
        }
        r
    }

    /// The set holding the values in both sets.    /// The set holding the values in both sets.
    pub fn intersect(&self, other: &UintSet) -> (r: UintSet)
        requires
            self.wf(),
            other.wf(),
        ensures
            r.wf(),
            r@ == self@.intersect(other@),
    {
        let mut r = UintSet::new();
        let n = self.items.len();
        let mut j: usize = 0;
        proof {
            assert(r@ =~= seq_set(self.items@.take(0)).intersect(other@));
        }
        while j < n
            invariant
                r.wf(),
                self.wf(),
                other.wf(),
                n == self.items@.len(),
                j <= n,
                r@ == seq_set(self.items@.take(j as int)).intersect(other@),
            decreases n - j,
        {
            proof {
                lemma_take_set_step(self.items@, j as int);
            }
            let x = self.items[j];
            if other.contains(x) {
                r.insert(x);
            }
            proof {
                assert(r@ =~= seq_set(self.items@.take(j + 1)).intersect(other@));
            }
            j += 1;
        }
        proof {
            lemma_whole_take(self.items@);
        }
        r
    }

    /// The set holding the values of this set that the other lacks.
    pub fn difference(&self, other: &UintSet) -> (r: UintSet)
        requires
            self.wf(),
            other.wf(),
        ensures
            r.wf(),
            r@ == self@.difference(other@),
    {
        let mut r = UintSet::new();
        let n = self.items.len();
        let mut j: usize = 0;
        proof {
            assert(r@ =~= seq_set(self.items@.take(0)).difference(other@));
        }
        while j < n
            invariant
                r.wf(),
                self.wf(),
                other.wf(),
                n == self.items@.len(),
                j <= n,
                r@ == seq_set(self.items@.take(j as int)).difference(other@),
            decreases n - j,
        {
            proof {
                lemma_take_set_step(self.items@, j as int);
            }
            let x = self.items[j];
            if !other.contains(x) {
                r.insert(x);
            }
            proof {
                assert(r@ =~= seq_set(self.items@.take(j + 1)).difference(other@));
            }
            j += 1;
        }
        proof {
            lemma_whole_take(self.items@);
        }
        r
    }

    /// Whether some value in `[lo, hi]` is held.
    pub fn has_in_range(&self, lo: usize, hi: usize) -> (r: bool)
        ensures
            r == exists|q: usize| self@.contains(q) && lo <= q <= hi,
    {
        let n = self.items.len();
        let mut j: usize = 0;
        while j < n
            invariant
                n == self.items@.len(),
                j <= n,
                forall|t: int| 0 <= t < j ==> !(lo <= #[trigger] self.items@[t] <= hi),
            decreases n - j,
        {
            let q = self.items[j];
            if lo <= q && q <= hi {
                assert(self.items@.contains(q));
                assert(self@.contains(q) && lo <= q <= hi);
                return true;
            }
            j += 1;
        }
        proof {
            if exists|q: usize| self@.contains(q) && lo <= q <= hi {
                let q = choose|q: usize| self@.contains(q) && lo <= q <= hi;
                let t = choose|t: int| 0 <= t < self.items@.len() && #[trigger] self.items@[t] == q;
                assert(false);
            }
        }
        false
    }

    /// The subset of values lying in `[lo, hi]`.
    pub fn in_range(&self, lo: usize, hi: usize) -> (r: UintSet)
        requires
            self.wf(),
        ensures
            r.wf(),
            r@ == Set::new(|q: usize| self@.contains(q) && lo <= q <= hi),
    {
        let mut r = UintSet::new();
        let n = self.items.len();
        let mut j: usize = 0;
        let ghost target = Set::new(|q: usize| self@.contains(q) && lo <= q <= hi);
        proof {
            assert(r@ =~= Set::new(
                |q: usize| seq_set(self.items@.take(0)).contains(q) && lo <= q <= hi,
            ));
        }
        while j < n
            invariant
                r.wf(),
                self.wf(),
                n == self.items@.len(),
                j <= n,
                r@ == Set::new(
                    |q: usize| seq_set(self.items@.take(j as int)).contains(q) && lo <= q <= hi,
                ),
            decreases n - j,
        {
            proof {
                lemma_take_set_step(self.items@, j as int);
            }
            let x = self.items[j];
            if lo <= x && x <= hi {
                r.insert(x);
            }
            proof {
                assert(r@ =~= Set::new(
                    |q: usize| seq_set(self.items@.take(j + 1)).contains(q) && lo <= q <= hi,
                ));
            }
            j += 1;
        }
        proof {
            lemma_whole_take(self.items@);
            assert(r@ =~= Set::new(|q: usize| self@.contains(q) && lo <= q <= hi));
        }
        r
    }
}

} // verus!
