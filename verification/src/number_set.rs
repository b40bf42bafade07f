use vstd::prelude::*;
use vstd::seq_lib::lemma_seq_contains_after_push;

verus! {

/// A finite set of unsigned integers, stored as a strictly increasing
/// vector so that iteration order is deterministic.
pub struct NumberSet {
    elems: Vec<u32>,
}

impl View for NumberSet {
    type V = Set<u32>;

    closed spec fn view(&self) -> Set<u32> {
        self.elems@.to_set()
    }
}

impl NumberSet {
    /// Well-formed: the backing vector is strictly increasing, hence duplicate-free.
    pub closed spec fn wf(&self) -> bool {
        forall|i: int, j: int|
            0 <= i < j < self.elems@.len() ==> self.elems@[i] < self.elems@[j]
    }

    /// The elements in increasing order, as a mathematical sequence. This is
    /// the order in which the set is walked, so it fixes enumeration orders
    /// downstream.
    pub closed spec fn seq_view(&self) -> Seq<u32> {
        self.elems@
    }

    /// The ordered sequence of a well-formed set: strictly increasing,
    /// duplicate-free, one slot per element of the set.
    pub proof fn lemma_seq_view(&self)
        requires
            self.wf(),
        ensures
            self.seq_view().to_set() == self@,
            self.seq_view().no_duplicates(),
            self.seq_view().len() == self@.len(),
            forall|i: int, j: int|
                0 <= i < j < self.seq_view().len() ==> self.seq_view()[i] < self.seq_view()[j],
    {
        self.lemma_card();
    }

    /// Two well-formed `NumberSet`s holding the same set walk their elements
    /// in the same order: the ordered sequence is a function of the set.
    pub proof fn lemma_seq_view_determined(a: &NumberSet, b: &NumberSet)
        requires
            a.wf(),
            b.wf(),
            a@ == b@,
        ensures
            a.seq_view() == b.seq_view(),
    {
        lemma_sorted_seq_determined(a.elems@, b.elems@);
    }

    /// The set a `NumberSet` holds is always finite.
    pub proof fn lemma_finite(&self)
        ensures
            self@.finite(),
    {
        self.elems@.lemma_cardinality_of_set();
    }

    /// In a well-formed `NumberSet` the backing vector has one slot per element.
    proof fn lemma_card(&self)
        requires
            self.wf(),
        ensures
            self@.finite(),
            self@.len() == self.elems@.len(),
    {
        assert(self.elems@.no_duplicates());
        self.elems@.unique_seq_to_set();
    }

    pub fn empty() -> (r: NumberSet)
        ensures
            r.wf(),
            r@ == Set::<u32>::empty(),
    {
        let r = NumberSet { elems: Vec::new() };
        proof {
            assert(r@ =~= Set::<u32>::empty());
        }
        r
    }

    pub fn singleton(x: u32) -> (r: NumberSet)
        ensures
            r.wf(),
            r@ == set![x],
    {
        let mut r = NumberSet::empty();
        r.insert(x);
        proof {
            assert(r@ =~= set![x]);
        }
        r
    }

    pub fn len(&self) -> (r: usize)
        requires
            self.wf(),
        ensures
            r == self@.len(),
            self@.finite(),
    {
        proof {
            self.lemma_card();
        }
        self.elems.len()
    }

    pub fn contains(&self, x: u32) -> (r: bool)
        ensures
            r == self@.contains(x),
    {
        let mut i: usize = 0;
        while i < self.elems.len()
            invariant
                i <= self.elems@.len(),
                forall|j: int| 0 <= j < i ==> self.elems@[j] != x,
            decreases self.elems@.len() - i,
        {
            if self.elems[i] == x {
                assert(self.elems@.contains(x));
                return true;
            }
            i += 1;
        }
        assert(!self.elems@.contains(x));
        false
    }

    /// Insert `x`, keeping the vector sorted; the set grows by `x`.
    pub fn insert(&mut self, x: u32)
        requires
            old(self).wf(),
        ensures
            final(self).wf(),
            final(self)@ == old(self)@.insert(x),
    {
        let mut i: usize = 0;
        while i < self.elems.len() && self.elems[i] < x
            invariant
                i <= self.elems@.len(),
                forall|j: int| 0 <= j < i ==> self.elems@[j] < x,
            decreases self.elems@.len() - i,
        {
            i += 1;
        }
        if i < self.elems.len() && self.elems[i] == x {
            proof {
                assert(self.elems@.contains(x));
                assert(self@ =~= old(self)@.insert(x));
            }
            return;
        }
        let ghost prev = self.elems@;
        self.elems.insert(i, x);
        proof {
            assert(self.elems@ =~= prev.take(i as int) + seq![x] + prev.skip(i as int));
            assert forall|a: int, b: int|
                0 <= a < b < self.elems@.len() implies self.elems@[a] < self.elems@[b] by {
                if a < i && b > i {
                    assert(prev[a] < x);
                }
                if a == i && b > i {
                    assert(!(prev[b - 1] < x) && prev[b - 1] != x);
                }
            }
            assert forall|y: u32| self@.contains(y) implies old(self)@.insert(x).contains(y) by {
                if y != x {
                    let idx = choose|idx: int| 0 <= idx < self.elems@.len() && self.elems@[idx] == y;
                    if idx < i {
                        assert(prev[idx] == y);
                    } else {
                        assert(prev[idx - 1] == y);
                    }
                    assert(prev.contains(y));
                }
            }
            assert forall|y: u32| old(self)@.insert(x).contains(y) implies self@.contains(y) by {
                if y == x {
                    assert(self.elems@[i as int] == x);
                } else {
                    let idx = choose|idx: int| 0 <= idx < prev.len() && prev[idx] == y;
                    if idx < i {
                        assert(self.elems@[idx] == y);
                    } else {
                        assert(self.elems@[idx + 1] == y);
                    }
                }
            }
            assert(self@ =~= old(self)@.insert(x));
        }
    }

    /// A copy of this set with `x` added.
    pub fn with(&self, x: u32) -> (r: NumberSet)
        requires
            self.wf(),
        ensures
            r.wf(),
            r@ == self@.insert(x),
    {
        let mut r = NumberSet { elems: self.elems.clone() };
        r.insert(x);
        r
    }

    /// An identical copy.
    pub fn duplicate(&self) -> (r: NumberSet)
        ensures
            r.wf() == self.wf(),
            r@ == self@,
            r.seq_view() == self.seq_view(),
    {
        let r = NumberSet { elems: self.elems.clone() };
        proof {
            assert(r.elems@ =~= self.elems@);
        }
        r
    }

    /// Collapse an arbitrary vector (duplicates allowed) into a set.
    pub fn from_vec(v: &Vec<u32>) -> (r: NumberSet)
        ensures
            r.wf(),
            r@ == v@.to_set(),
    {
        let mut r = NumberSet::empty();
        let mut i: usize = 0;
        while i < v.len()
            invariant
                i <= v@.len(),
                r.wf(),
                r@ == v@.take(i as int).to_set(),
            decreases v@.len() - i,
        {
            let ghost prev = r@;
            r.insert(v[i]);
            proof {
                assert(v@.take(i + 1) =~= v@.take(i as int).push(v@[i as int]));
                lemma_seq_contains_after_push(v@.take(i as int), v@[i as int], v@[i as int]);
                assert forall|y: u32| v@.take(i + 1).to_set().contains(y) <==> prev.insert(
                    v@[i as int],
                ).contains(y) by {
                    lemma_seq_contains_after_push(v@.take(i as int), v@[i as int], y);
                }
                assert(r@ =~= v@.take(i + 1).to_set());
            }
            i += 1;
        }
        proof {
            assert(v@.take(v@.len() as int) =~= v@);
        }
        r
    }

    /// The smallest element together with the set of all the others.
    pub fn split_first(&self) -> (r: (u32, NumberSet))
        requires
            self.wf(),
            self@.len() > 0,
        ensures
            r.1.wf(),
            !r.1@.contains(r.0),
            self@ == r.1@.insert(r.0),
            r.1@.len() == self@.len() - 1,
            r.0 == self.seq_view()[0],
            r.1.seq_view() == self.seq_view().skip(1),
    {
        proof {
            self.lemma_card();
        }
        let first = self.elems[0];
        let mut rest_elems: Vec<u32> = Vec::new();
        let mut i: usize = 1;
        while i < self.elems.len()
            invariant
                1 <= i <= self.elems@.len(),
                rest_elems@ == self.elems@.subrange(1, i as int),
                self.wf(),
            decreases self.elems@.len() - i,
        {
            rest_elems.push(self.elems[i]);
            proof {
                assert(rest_elems@ =~= self.elems@.subrange(1, i + 1));
            }
            i += 1;
        }
        let rest = NumberSet { elems: rest_elems };
        proof {
            assert(rest.elems@ =~= self.elems@.subrange(1, self.elems@.len() as int));
            assert(rest.wf());
            rest.lemma_card();
            assert forall|y: u32| rest@.contains(y) implies y != first by {
                let idx = choose|idx: int| 0 <= idx < rest.elems@.len() && rest.elems@[idx] == y;
                assert(self.elems@[0] < self.elems@[idx + 1]);
            }
            assert forall|y: u32| self@.contains(y) implies rest@.insert(first).contains(y) by {
                let idx = choose|idx: int| 0 <= idx < self.elems@.len() && self.elems@[idx] == y;
                if idx > 0 {
                    assert(rest.elems@[idx - 1] == y);
                    assert(rest.elems@.contains(y));
                }
            }
            assert forall|y: u32| rest@.insert(first).contains(y) implies self@.contains(y) by {
                if y == first {
                    assert(self.elems@[0] == y);
                } else {
                    let idx = choose|idx: int| 0 <= idx < rest.elems@.len() && rest.elems@[idx] == y;
                    assert(self.elems@[idx + 1] == y);
                }
            }
            assert(self@ =~= rest@.insert(first));
            assert(self@.len() == rest@.insert(first).len());
        }
        (first, rest)
    }

    /// Does this set contain every element of `other`?
    pub fn is_superset(&self, other: &NumberSet) -> (r: bool)
        ensures
            r == other@.subset_of(self@),
    {
        let mut i: usize = 0;
        while i < other.elems.len()
            invariant
                i <= other.elems@.len(),
                forall|j: int| 0 <= j < i ==> self@.contains(other.elems@[j]),
            decreases other.elems@.len() - i,
        {
            if !self.contains(other.elems[i]) {
                assert(other.elems@.contains(other.elems@[i as int]));
                assert(other@.contains(other.elems@[i as int]));
                return false;
            }
            i += 1;
        }
        assert forall|y: u32| other@.contains(y) implies self@.contains(y) by {
            let idx = choose|idx: int| 0 <= idx < other.elems@.len() && other.elems@[idx] == y;
        }
        true
    }

    /// The elements this set shares with `other`.
    pub fn intersection(&self, other: &NumberSet) -> (r: NumberSet)
        requires
            self.wf(),
        ensures
            r.wf(),
            r@ == self@.intersect(other@),
    {
        let mut r = NumberSet::empty();
        let mut i: usize = 0;
        while i < self.elems.len()
            invariant
                i <= self.elems@.len(),
                self.wf(),
                r.wf(),
                r@ == self.elems@.take(i as int).to_set().intersect(other@),
            decreases self.elems@.len() - i,
        {
            let x = self.elems[i];
            let ghost prev = r@;
            if other.contains(x) {
                r.insert(x);
            }
            proof {
                let s_new = self.elems@.take(i + 1).to_set().intersect(other@);
                assert(self.elems@.take(i + 1) =~= self.elems@.take(i as int).push(x));
                assert forall|y: u32| #[trigger] s_new.contains(y) implies r@.contains(y) by {
                    lemma_seq_contains_after_push(self.elems@.take(i as int), x, y);
                }
                assert forall|y: u32| #[trigger] r@.contains(y) implies s_new.contains(y) by {
                    lemma_seq_contains_after_push(self.elems@.take(i as int), x, y);
                    lemma_seq_contains_after_push(self.elems@.take(i as int), x, x);
                }
                assert(r@ =~= s_new);
            }
            i += 1;
        }
        proof {
            assert(self.elems@.take(self.elems@.len() as int) =~= self.elems@);
        }
        r
    }

    /// The elements of this set that are not in `other`.
    pub fn difference(&self, other: &NumberSet) -> (r: NumberSet)
        requires
            self.wf(),
        ensures
            r.wf(),
            r@ == self@.difference(other@),
    {
        let mut r = NumberSet::empty();
        let mut i: usize = 0;
        while i < self.elems.len()
            invariant
                i <= self.elems@.len(),
                self.wf(),
                r.wf(),
                r@ == self.elems@.take(i as int).to_set().difference(other@),
            decreases self.elems@.len() - i,
        {
            let x = self.elems[i];
            let ghost prev = r@;
            if !other.contains(x) {
                r.insert(x);
            }
            proof {
                let s_new = self.elems@.take(i + 1).to_set().difference(other@);
                assert(self.elems@.take(i + 1) =~= self.elems@.take(i as int).push(x));
                assert forall|y: u32| #[trigger] s_new.contains(y) implies r@.contains(y) by {
                    lemma_seq_contains_after_push(self.elems@.take(i as int), x, y);
                }
                assert forall|y: u32| #[trigger] r@.contains(y) implies s_new.contains(y) by {
                    lemma_seq_contains_after_push(self.elems@.take(i as int), x, y);
                    lemma_seq_contains_after_push(self.elems@.take(i as int), x, x);
                }
                assert(r@ =~= s_new);
            }
            i += 1;
        }
        proof {
            assert(self.elems@.take(self.elems@.len() as int) =~= self.elems@);
        }
        r
    }

    /// The elements in increasing order, for callers that need to walk them.
    pub fn as_sorted_vec(&self) -> (r: Vec<u32>)
        requires
            self.wf(),
        ensures
            r@ == self.seq_view(),
            r@.to_set() == self@,
            r@.no_duplicates(),
            r@.len() == self@.len(),
            forall|i: int, j: int| 0 <= i < j < r@.len() ==> r@[i] < r@[j],
    {
        proof {
            self.lemma_card();
        }
        self.elems.clone()
    }
}

/// Two strictly increasing sequences over the same set of values are equal.
proof fn lemma_sorted_seq_determined(s1: Seq<u32>, s2: Seq<u32>)
    requires
        forall|i: int, j: int| 0 <= i < j < s1.len() ==> s1[i] < s1[j],
        forall|i: int, j: int| 0 <= i < j < s2.len() ==> s2[i] < s2[j],
        s1.to_set() == s2.to_set(),
    ensures
        s1 == s2,
    decreases s1.len(),
{
    assert(s1.no_duplicates());
    assert(s2.no_duplicates());
    s1.unique_seq_to_set();
    s2.unique_seq_to_set();
    if s1.len() == 0 {
        assert(s1 =~= s2);
    } else {
        // Each head is the least value of the common set, so they are equal.
        assert(s2.to_set().contains(s1[0]));
        let j1 = choose|j: int| 0 <= j < s2.len() && s2[j] == s1[0];
        assert(s1.to_set().contains(s2[0]));
        let j2 = choose|j: int| 0 <= j < s1.len() && s1[j] == s2[0];
        assert(j1 > 0 ==> s2[0] < s2[j1]);
        assert(j2 > 0 ==> s1[0] < s1[j2]);
        assert(s1[0] == s2[0]);
        // The tails hold the common set without that head.
        assert forall|y: u32|
            s1.skip(1).to_set().contains(y) implies s2.skip(1).to_set().contains(y) by {
            let i = choose|i: int| 0 <= i < s1.skip(1).len() && s1.skip(1)[i] == y;
            assert(s1[i + 1] == y);
            assert(s1[0] < s1[i + 1]);
            assert(s1.to_set().contains(y));
            let m = choose|m: int| 0 <= m < s2.len() && s2[m] == y;
            assert(s2.skip(1)[m - 1] == y);
            assert(s2.skip(1).contains(y));
        }
        assert forall|y: u32|
            s2.skip(1).to_set().contains(y) implies s1.skip(1).to_set().contains(y) by {
            let i = choose|i: int| 0 <= i < s2.skip(1).len() && s2.skip(1)[i] == y;
            assert(s2[i + 1] == y);
            assert(s2[0] < s2[i + 1]);
            assert(s2.to_set().contains(y));
            let m = choose|m: int| 0 <= m < s1.len() && s1[m] == y;
            assert(s1.skip(1)[m - 1] == y);
            assert(s1.skip(1).contains(y));
        }
        assert(s1.skip(1).to_set() =~= s2.skip(1).to_set());
        assert forall|i: int, j: int|
            0 <= i < j < s1.skip(1).len() implies s1.skip(1)[i] < s1.skip(1)[j] by {
            assert(s1[i + 1] < s1[j + 1]);
        }
        assert forall|i: int, j: int|
            0 <= i < j < s2.skip(1).len() implies s2.skip(1)[i] < s2.skip(1)[j] by {
            assert(s2[i + 1] < s2[j + 1]);
        }
        lemma_sorted_seq_determined(s1.skip(1), s2.skip(1));
        assert forall|i: int| 0 <= i < s1.len() implies s1[i] == s2[i] by {
            if i >= 1 {
                assert(s1.skip(1)[i - 1] == s1[i]);
                assert(s2.skip(1)[i - 1] == s2[i]);
            }
        }
        assert(s1 =~= s2);
    }
}

} // verus!
