//! A set of vertex indices that hands out its largest member first.
use vstd::prelude::*;

verus! {

/// Each element is smaller than every later one.
pub open spec fn ascending(s: Seq<usize>) -> bool {
    forall|i: int, j: int| 0 <= i < j < s.len() ==> s[i] < s[j]
}

/// The set of the elements of a sequence.
pub open spec fn members(s: Seq<usize>) -> Set<usize> {
    Set::new(|v: usize| s.contains(v))
}

/// A set of indices has one ascending list: two ascending sequences with the same
/// members are the same sequence.
pub proof fn lemma_ascending_unique(a: Seq<usize>, b: Seq<usize>)
    requires
        ascending(a),
        ascending(b),
        members(a) == members(b),
    ensures
        a == b,
    decreases a.len(),
{
    if a.len() == 0 {
        if b.len() > 0 {
            assert(b.contains(b[0]));
            assert(members(b).contains(b[0]));
            assert(a.contains(b[0]));
        }
        assert(a =~= b);
    } else {
        let top = a[a.len() - 1];
        assert(a.contains(top));
        assert(members(a).contains(top));
        assert(b.contains(top));
        let k = choose|k: int| 0 <= k < b.len() && b[k] == top;
        if k < b.len() - 1 {
            let above = b[b.len() - 1];
            assert(b[k] < above);
            assert(b.contains(above));
            assert(members(b).contains(above));
            assert(a.contains(above));
            let j = choose|j: int| 0 <= j < a.len() && a[j] == above;
            if j < a.len() - 1 {
                assert(a[j] < a[a.len() - 1]);
            }
        }
        let a_rest = a.drop_last();
        let b_rest = b.drop_last();
        assert forall|v: usize| a_rest.contains(v) <==> b_rest.contains(v) by {
            if a_rest.contains(v) {
                let i = choose|i: int| 0 <= i < a_rest.len() && a_rest[i] == v;
                assert(a[i] == v && a[i] < a[a.len() - 1]);
                assert(a.contains(v));
                assert(members(a).contains(v));
                assert(b.contains(v));
                let j = choose|j: int| 0 <= j < b.len() && b[j] == v;
                assert(b_rest[j] == v);
            }
            if b_rest.contains(v) {
                let i = choose|i: int| 0 <= i < b_rest.len() && b_rest[i] == v;
                assert(b[i] == v && b[i] < b[b.len() - 1]);
                assert(b.contains(v));
                assert(members(b).contains(v));
                assert(a.contains(v));
                let j = choose|j: int| 0 <= j < a.len() && a[j] == v;
                assert(a_rest[j] == v);
            }
        }
        assert(members(a_rest) =~= members(b_rest));
        lemma_ascending_unique(a_rest, b_rest);
        assert(a =~= a_rest.push(top));
        assert(b =~= b_rest.push(top));
    }
}

/// A finite set of indices, kept in ascending order.
pub struct IndexSet {
    pub items: Vec<usize>,
}

impl View for IndexSet {
    type V = Set<usize>;

    open spec fn view(&self) -> Set<usize> {
        members(self.items@)
    }
}

impl IndexSet {
    /// The stored sequence is strictly ascending, so it holds no index twice.
    pub open spec fn wf(&self) -> bool {
        ascending(self.items@)
    }

    pub fn new() -> (s: IndexSet)
        ensures
            s.wf(),
            s@ == Set::<usize>::empty(),
            s.items@.len() == 0,
    {
        let s = IndexSet { items: Vec::new() };
        assert(s@ =~= Set::<usize>::empty());
        s
    }

    pub fn len(&self) -> (n: usize)
        ensures
            n == self.items@.len(),
    {
        self.items.len()
    }

    /// Adds `v`; a set that already holds it is left as it was.
    pub fn insert(&mut self, v: usize)
        requires
            old(self).wf(),
        ensures
            final(self).wf(),
            final(self)@ == old(self)@.insert(v),
            old(self)@.contains(v) ==> final(self).items@ == old(self).items@,
            !old(self)@.contains(v) ==> final(self).items@.len() == old(self).items@.len() + 1,
    {
        let n: usize = self.items.len();
        let mut k: usize = 0;
        while k < n && self.items[k] < v
            invariant
                n == self.items@.len(),
                k <= n,
                self.items == old(self).items,
                forall|i: int| 0 <= i < k ==> self.items@[i] < v,
            decreases n - k,
        {
            k += 1;
        }
        let ghost before = self.items@;
        if k < n && self.items[k] == v {
            assert(before.contains(v));
            assert(self@ =~= old(self)@.insert(v));
        } else {
            self.items.insert(k, v);
            let ghost after = self.items@;
            assert(!before.contains(v)) by {
                if before.contains(v) {
                    let i = choose|i: int| 0 <= i < before.len() && before[i] == v;
                    if i < k {
                    } else if i > k {
                        assert(before[k as int] < before[i]);
                    }
                }
            }
            assert forall|w: usize| after.contains(w) <==> (before.contains(w) || w == v) by {
                if after.contains(w) {
                    let i = choose|i: int| 0 <= i < after.len() && after[i] == w;
                    if i < k {
                        assert(before[i] == w);
                    } else if i > k {
                        assert(before[i - 1] == w);
                    }
                }
                if before.contains(w) {
                    let i = choose|i: int| 0 <= i < before.len() && before[i] == w;
                    if i < k {
                        assert(after[i] == w);
                    } else {
                        assert(after[i + 1] == w);
                    }
                }
                if w == v {
                    assert(after[k as int] == w);
                }
            }
            assert(self@ =~= old(self)@.insert(v));
            assert forall|i: int, j: int| 0 <= i < j < after.len() implies after[i] < after[j] by {
                if j < k {
                    assert(after[i] == before[i] && after[j] == before[j]);
                } else if j == k {
                    assert(after[i] == before[i]);
                } else if i < k {
                    assert(after[i] == before[i] && after[j] == before[j - 1]);
                } else if i == k {
                    assert(after[j] == before[j - 1]);
                    assert(before[k as int] <= before[j - 1]);
                } else {
                    assert(after[i] == before[i - 1] && after[j] == before[j - 1]);
                }
            }
        }
    }

    /// Whether `v` is a member.
    pub fn contains(&self, v: usize) -> (r: bool)
        ensures
            r == self@.contains(v),
    {
        let n: usize = self.items.len();
        let mut k: usize = 0;
        while k < n
            invariant
                n == self.items@.len(),
                k <= n,
                forall|i: int| 0 <= i < k ==> self.items@[i] != v,
            decreases n - k,
        {
            if self.items[k] == v {
                return true;
            }
            k += 1;
        }
        false
    }

    /// Removes and returns the largest member, if there is one.
    pub fn pop_max(&mut self) -> (r: Option<usize>)
        requires
            old(self).wf(),
        ensures
            final(self).wf(),
            r.is_none() <==> old(self)@ == Set::<usize>::empty(),
            r.is_none() ==> final(self)@ == old(self)@,
            r matches Some(m) ==> {
                &&& old(self)@.contains(m)
                &&& final(self)@ == old(self)@.remove(m)
                &&& forall|w: usize| old(self)@.contains(w) ==> w <= m
                &&& final(self).items@.len() + 1 == old(self).items@.len()
            },
    {
        let ghost before = self.items@;
        let r = self.items.pop();
        let ghost after = self.items@;
        match r {
            None => {
                assert(self@ =~= Set::<usize>::empty());
                assert(old(self)@ =~= Set::<usize>::empty());
            },
            Some(m) => {
                assert(before[before.len() - 1] == m);
                assert(before.contains(m));
                assert(old(self)@.contains(m));
                assert forall|w: usize| after.contains(w) <==> (before.contains(w) && w != m) by {
                    if after.contains(w) {
                        let i = choose|i: int| 0 <= i < after.len() && after[i] == w;
                        assert(before[i] == w);
                        assert(before[i] < before[before.len() - 1]);
                    }
                    if before.contains(w) && w != m {
                        let i = choose|i: int| 0 <= i < before.len() && before[i] == w;
                        assert(after[i] == w);
                    }
                }
                assert(self@ =~= old(self)@.remove(m));
                assert forall|w: usize| old(self)@.contains(w) implies w <= m by {
                    let i = choose|i: int| 0 <= i < before.len() && before[i] == w;
                    if i < before.len() - 1 {
                        assert(before[i] < before[before.len() - 1]);
                    }
                }
            },
        }
        r
    }

    /// The members in ascending order.
    pub fn into_sorted_vec(self) -> (r: Vec<usize>)
        requires
            self.wf(),
        ensures
            ascending(r@),
            members(r@) == self@,
            r@ == self.items@,
    {
        self.items
    }
}

} // verus!
