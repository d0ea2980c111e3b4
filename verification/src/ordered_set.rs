//! A deduplicating set of identifiers kept in strictly increasing order.
//!
//! Partial responses and the per-session reporter sets of the aggregate
//! result must not depend on the order their elements were discovered in:
//! the sorted, duplicate-free vector is a canonical representation, so two
//! sets with the same elements are structurally identical however they
//! were built.

use vstd::prelude::*;

verus! {

/// The set of elements of a sequence.
pub open spec fn seq_as_set(s: Seq<u64>) -> Set<u64> {
    Set::new(|x: u64| s.contains(x))
}

/// Strictly increasing: sorted, with no element repeated.
pub open spec fn strictly_sorted(s: Seq<u64>) -> bool {
    forall|i: int, j: int| 0 <= i < j < s.len() ==> s[i] < s[j]
}

/// An ordered set of identifiers (node or session identities).
#[derive(Clone)]
pub struct IdSet {
    pub ids: Vec<u64>,
}

impl View for IdSet {
    type V = Set<u64>;

    open spec fn view(&self) -> Set<u64> {
        seq_as_set(self.ids@)
    }
}

impl IdSet {
    /// The representation invariant: elements strictly increase.
    pub open spec fn wf(&self) -> bool {
        strictly_sorted(self.ids@)
    }

    /// The empty set.
    pub fn new() -> (r: IdSet)
        ensures
            r.wf(),
            r@ == Set::<u64>::empty(),
            r.ids@.len() == 0,
    {
        let r = IdSet { ids: Vec::new() };
        proof {
            assert(r@ =~= Set::<u64>::empty());
        }
        r
    }

    pub fn len(&self) -> (r: usize)
        ensures
            r == self.ids@.len(),
    {
        self.ids.len()
    }

    /// Whether the set has no element.
    pub fn is_empty(&self) -> (r: bool)
        ensures
            r <==> self@ == Set::<u64>::empty(),
    {
        let r = self.ids.is_empty();
        proof {
            if self.ids@.len() == 0 {
                assert(self@ =~= Set::<u64>::empty());
            } else {
                assert(self.ids@.contains(self.ids@[0]));
                assert(self@.contains(self.ids@[0]));
            }
        }
        r
    }

    /// The element at one position of the increasing order.
    pub fn index(&self, i: usize) -> (r: u64)
        requires
            i < self.ids@.len(),
        ensures
            r == self.ids@[i as int],
            self@.contains(r),
    {
        let r = self.ids[i];
        proof {
            assert(self.ids@.contains(self.ids@[i as int]));
        }
        r
    }

    /// Membership test.
    pub fn contains(&self, x: u64) -> (r: bool)
        ensures
            r == self@.contains(x),
    {
        let n = self.ids.len();
        let mut i: usize = 0;
        while i < n
            invariant
                n == self.ids@.len(),
                i <= n,
                forall|k: int| 0 <= k < i ==> self.ids@[k] != x,
            decreases n - i,
        {
            if self.ids[i] == x {
                proof {
                    assert(self.ids@.contains(x));
                }
                return true;
            }
            i += 1;
        }
        proof {
            assert(!self.ids@.contains(x));
        }
        false
    }

    /// Adds an element, keeping the order; adding an element already
    /// present leaves the set unchanged.
    pub fn insert(&mut self, x: u64)
        requires
            old(self).wf(),
        ensures
            final(self).wf(),
            final(self)@ == old(self)@.insert(x),
    {
        let ghost s0 = self.ids@;
        let n = self.ids.len();
        let mut i: usize = 0;
        while i < n && self.ids[i] < x
            invariant
                self == old(self),
                n == self.ids@.len(),
                i <= n,
                forall|k: int| 0 <= k < i ==> self.ids@[k] < x,
            decreases n - i,
        {
            i += 1;
        }
        if i < n && self.ids[i] == x {
            proof {
                assert(s0.contains(x));
                assert(self@ =~= old(self)@.insert(x));
            }
        } else {
            proof {
                assert(i < s0.len() ==> s0[i as int] > x);
            }
            self.ids.insert(i, x);
            proof {
                let s1 = self.ids@;
                assert forall|p: int, q: int| 0 <= p < q < s1.len() implies s1[p] < s1[q] by {
                    assert(p < i ==> s1[p] == s0[p]);
                    assert(p == i ==> s1[p] == x);
                    assert(p > i ==> s1[p] == s0[p - 1]);
                    assert(q < i ==> s1[q] == s0[q]);
                    assert(q == i ==> s1[q] == x);
                    assert(q > i ==> s1[q] == s0[q - 1]);
                }
                assert forall|y: u64| self@.contains(y) implies old(self)@.insert(x).contains(y) by {
                    let p = choose|p: int| 0 <= p < s1.len() && s1[p] == y;
                    if p < i {
                        assert(s0[p] == y);
                        assert(s0.contains(y));
                    } else if p == i {
                        assert(y == x);
                    } else {
                        assert(s0[p - 1] == y);
                        assert(s0.contains(y));
                    }
                }
                assert forall|y: u64| old(self)@.insert(x).contains(y) implies self@.contains(y) by {
                    if y == x {
                        assert(s1[i as int] == y);
                        assert(s1.contains(y));
                    } else {
                        let p = choose|p: int| 0 <= p < s0.len() && s0[p] == y;
                        if p < i {
                            assert(s1[p] == y);
                        } else {
                            assert(s1[p + 1] == y);
                        }
                        assert(s1.contains(y));
                    }
                }
                assert(self@ =~= old(self)@.insert(x));
            }
        }
    }
}

/// Extending a prefix by one element extends the set it holds by that
/// element.
pub proof fn lemma_take_insert(s: Seq<u64>, j: int)
    requires
        0 <= j < s.len(),
    ensures
        seq_as_set(s.take(j + 1)) == seq_as_set(s.take(j)).insert(s[j]),
{
    assert forall|x: u64|
        seq_as_set(s.take(j + 1)).contains(x) == seq_as_set(s.take(j)).insert(s[j]).contains(
            x,
        ) by {
        if s.take(j + 1).contains(x) {
            let k = choose|k: int| 0 <= k < s.take(j + 1).len() && #[trigger] s.take(j + 1)[k] == x;
            if k < j {
                assert(s.take(j)[k] == x);
                assert(s.take(j).contains(x));
            } else {
                assert(x == s[j]);
            }
        }
        if x == s[j] {
            assert(s.take(j + 1)[j] == x);
            assert(s.take(j + 1).contains(x));
        }
        if s.take(j).contains(x) {
            let k = choose|k: int| 0 <= k < s.take(j).len() && #[trigger] s.take(j)[k] == x;
            assert(s.take(j + 1)[k] == x);
            assert(s.take(j + 1).contains(x));
        }
    }
    assert(seq_as_set(s.take(j + 1)) =~= seq_as_set(s.take(j)).insert(s[j]));
}

/// The sorted representation is canonical: two well-formed ordered sets
/// with the same elements hold them in the same positions. This is what
/// makes every result of this job reproducible byte for byte across
/// coordinators, whatever order the elements were discovered in.
pub proof fn lemma_sorted_representation_canonical(s1: Seq<u64>, s2: Seq<u64>)
    requires
        strictly_sorted(s1),
        strictly_sorted(s2),
        seq_as_set(s1) == seq_as_set(s2),
    ensures
        s1 == s2,
    decreases s1.len(),
{
    if s1.len() == 0 {
        if s2.len() > 0 {
            assert(seq_as_set(s2).contains(s2[0]));
            assert(seq_as_set(s1).contains(s2[0]));
            assert(false);
        }
        assert(s1 =~= s2);
    } else {
        assert(seq_as_set(s1).contains(s1[0]));
        if s2.len() == 0 {
            assert(seq_as_set(s2).contains(s1[0]));
            assert(false);
        }
        // The heads are each the minimum of the common element set, so
        // they are equal.
        assert(seq_as_set(s2).contains(s1[0]));
        let p2 = choose|p: int| 0 <= p < s2.len() && s2[p] == s1[0];
        assert(s2[0] <= s1[0]);
        assert(seq_as_set(s1).contains(s2[0]));
        let p1 = choose|p: int| 0 <= p < s1.len() && s1[p] == s2[0];
        assert(s1[0] <= s2[0]);
        assert(s1[0] == s2[0]);
        // The heads do not reappear in the tails, so the tails hold the
        // same element set and the induction applies.
        let t1 = s1.drop_first();
        let t2 = s2.drop_first();
        assert(strictly_sorted(t1));
        assert(strictly_sorted(t2));
        assert forall|y: u64| seq_as_set(t1).contains(y) implies seq_as_set(t2).contains(y) by {
            let p = choose|p: int| 0 <= p < t1.len() && t1[p] == y;
            assert(s1[p + 1] == y);
            assert(s1.contains(y));
            assert(seq_as_set(s2).contains(y));
            let q = choose|q: int| 0 <= q < s2.len() && s2[q] == y;
            assert(y > s1[0]);
            assert(q != 0);
            assert(t2[q - 1] == y);
            assert(t2.contains(y));
        }
        assert forall|y: u64| seq_as_set(t2).contains(y) implies seq_as_set(t1).contains(y) by {
            let p = choose|p: int| 0 <= p < t2.len() && t2[p] == y;
            assert(s2[p + 1] == y);
            assert(s2.contains(y));
            assert(seq_as_set(s1).contains(y));
            let q = choose|q: int| 0 <= q < s1.len() && s1[q] == y;
            assert(y > s2[0]);
            assert(q != 0);
            assert(t1[q - 1] == y);
            assert(t1.contains(y));
        }
        assert(seq_as_set(t1) =~= seq_as_set(t2));
        lemma_sorted_representation_canonical(t1, t2);
        assert(s1.len() == s2.len());
        assert forall|k: int| 0 <= k < s1.len() implies s1[k] == s2[k] by {
            if k > 0 {
                assert(t1[k - 1] == s1[k]);
                assert(t2[k - 1] == s2[k]);
            }
        }
        assert(s1 =~= s2);
    }
}

} // verus!
