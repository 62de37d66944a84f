//! An ordered lookup collection of numeric entries, held as a strictly
//! ascending vector, so that membership and iteration order are fully
//! pinned down by the contents.

use vstd::prelude::*;

verus! {

/// Strictly ascending: sorted, no duplicates.
pub open spec fn strictly_sorted(s: Seq<usize>) -> bool {
    forall|k1: int, k2: int| 0 <= k1 < k2 < s.len() ==> s[k1] < s[k2]
}

/// An ordered set of numeric entries.
pub struct Lookup {
    pub collection: Vec<usize>,
}

impl View for Lookup {
    type V = Seq<usize>;

    open spec fn view(&self) -> Seq<usize> {
        self.collection@
    }
}

impl Lookup {
    /// The vector is strictly ascending; all operations keep it so.
    pub open spec fn wf(&self) -> bool {
        strictly_sorted(self@)
    }

    /// A fresh, empty collection.
    pub fn new() -> (s: Lookup)
        ensures
            s@ == Seq::<usize>::empty(),
            s.wf(),
    {
        Lookup { collection: Vec::new() }
    }

    /// Whether `item` is an entry.
    pub fn contains(&self, item: usize) -> (r: bool)
        ensures
            r == self@.contains(item),
    {
        let n = self.collection.len();
        let mut k: usize = 0;
        while k < n
            invariant
                0 <= k <= n,
                n == self@.len(),
                forall|j: int| 0 <= j < k ==> self@[j] != item,
            decreases n - k,
        {
            if self.collection[k] == item {
                return true;
            }
            k += 1;
        }
        false
    }

    /// Adds `item`; afterwards the entries are exactly the old ones plus
    /// `item`, still strictly ascending.
    pub fn insert(&mut self, item: usize)
        requires
            old(self).wf(),
        ensures
            final (self).wf(),
            final (self)@.to_set() == old(self)@.to_set().insert(item),
    {
        let ghost o = self@;
        let n = self.collection.len();
        let mut i: usize = 0;
        while i < n && self.collection[i] < item
            invariant
                0 <= i <= n,
                n == self@.len(),
                self@ == o,
                forall|j: int| 0 <= j < i ==> self@[j] < item,
            decreases n - i,
        {
            i += 1;
        }
        if i < n && self.collection[i] == item {
            proof {
                assert(o.contains(item));
                assert(o.to_set() =~= o.to_set().insert(item));
            }
            return ;
        }
        self.collection.insert(i, item);
        proof {
            o.insert_ensures(i as int, item);
            let t = self@;
            assert(i < n ==> o[i as int] > item);
            assert(strictly_sorted(t)) by {
                assert forall|k1: int, k2: int| 0 <= k1 < k2 < t.len() implies t[k1] < t[k2] by {
                    if k2 < i {
                        assert(t[k1] == o[k1] && t[k2] == o[k2]);
                    } else if k2 == i {
                        assert(t[k1] == o[k1] && t[k2] == item);
                    } else {
                        assert(t[k2] == o[k2 - 1]);
                        assert(i <= k2 - 1 < o.len());
                        assert(o[k2 - 1] >= o[i as int]);
                        if k1 < i {
                            assert(t[k1] == o[k1] && o[k1] < item);
                        } else if k1 == i {
                            assert(t[k1] == item);
                        } else {
                            assert(t[k1] == o[k1 - 1] && o[k1 - 1] < o[k2 - 1]);
                        }
                    }
                }
            }
            assert(t.to_set() =~= o.to_set().insert(item)) by {
                assert forall|x: usize| #[trigger] t.to_set().contains(x) implies o.to_set()
                    .insert(item).contains(x) by {
                    let k = choose|k: int| 0 <= k < t.len() && t[k] == x;
                    if k < i {
                        assert(o[k] == x);
                    } else if k > i {
                        assert(o[k - 1] == x);
                    }
                }
                assert forall|x: usize| #[trigger] o.to_set().insert(item).contains(x) implies t
                    .to_set().contains(x) by {
                    if x == item {
                        assert(t[i as int] == x);
                    } else {
                        let k = choose|k: int| 0 <= k < o.len() && o[k] == x;
                        if k < i {
                            assert(t[k] == x);
                        } else {
                            assert(t[k + 1] == x);
                        }
                    }
                }
            }
        }
    }

    /// Adds every entry of `other`.
    pub fn merge(&mut self, other: &Lookup)
        requires
            old(self).wf(),
        ensures
            final (self).wf(),
            final (self)@.to_set() == old(self)@.to_set().union(other@.to_set()),
    {
        let ghost o = self@;
        let n = other.collection.len();
        let mut k: usize = 0;
        proof {
            assert(o.to_set() =~= o.to_set().union(other@.subrange(0, 0).to_set()));
        }
        while k < n
            invariant
                0 <= k <= n,
                n == other@.len(),
                self.wf(),
                self@.to_set() == o.to_set().union(other@.subrange(0, k as int).to_set()),
            decreases n - k,
        {
            let ghost pre = self@;
            let item = other.collection[k];
            self.insert(item);
            proof {
                let took = other@.subrange(0, k as int);
                let took2 = other@.subrange(0, k + 1);
                assert(took2.drop_last() =~= took);
                assert(took2.last() == other@[k as int]);
                assert(took2.to_set() =~= took.to_set().insert(item)) by {
                    assert forall|x: usize| #[trigger] took2.to_set().contains(x) implies took
                        .to_set().insert(item).contains(x) by {
                        let j = choose|j: int| 0 <= j < took2.len() && took2[j] == x;
                        if j < k {
                            assert(took[j] == x);
                        }
                    }
                    assert forall|x: usize| #[trigger] took.to_set().insert(item).contains(
                        x,
                    ) implies took2.to_set().contains(x) by {
                        if x == item {
                            assert(took2[k as int] == x);
                        } else {
                            let j = choose|j: int| 0 <= j < took.len() && took[j] == x;
                            assert(took2[j] == x);
                        }
                    }
                }
                assert(self@.to_set() =~= o.to_set().union(took2.to_set()));
            }
            k += 1;
        }
        proof {
            assert(other@.subrange(0, n as int) =~= other@);
        }
    }

    /// Removes every entry.
    pub fn clear(&mut self)
        ensures
            final (self)@ == Seq::<usize>::empty(),
            final (self).wf(),
    {
        self.collection.clear();
    }
}

} // verus!
