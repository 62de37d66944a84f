//! The filter-side collection of numeric entries: an ordered set of `i64`
//! values with a deterministic textual rendering.

use vstd::prelude::*;

use crate::strings::{dec_seq_signed, push_char, push_dec_signed, push_str};

verus! {

/// Strictly ascending: sorted, no duplicates.
pub open spec fn strictly_sorted_i64(s: Seq<i64>) -> bool {
    forall|k1: int, k2: int| 0 <= k1 < k2 < s.len() ==> s[k1] < s[k2]
}

/// The `", "`-separated decimal rendering of the first `k` entries.
pub open spec fn entries_upto(s: Seq<i64>, k: int) -> Seq<char>
    decreases k,
{
    if k <= 0 {
        Seq::empty()
    } else if k == 1 {
        dec_seq_signed(s[0] as int)
    } else {
        entries_upto(s, k - 1) + ", "@ + dec_seq_signed(s[k - 1] as int)
    }
}

/// The rendering of a whole entry set: the entries in ascending order,
/// comma-separated, in braces, behind the collection's name.
pub open spec fn inspect_spec(s: Seq<i64>) -> Seq<char> {
    "Filter {"@ + entries_upto(s, s.len() as int) + seq!['}']
}

/// An ordered set of `i64` entries.
pub struct Filter {
    pub collection: Vec<i64>,
}

impl View for Filter {
    type V = Seq<i64>;

    open spec fn view(&self) -> Seq<i64> {
        self.collection@
    }
}

impl Filter {
    /// The vector is strictly ascending; all operations keep it so.
    pub open spec fn wf(&self) -> bool {
        strictly_sorted_i64(self@)
    }

    /// A fresh, empty collection.
    pub fn new() -> (s: Filter)
        ensures
            s@ == Seq::<i64>::empty(),
            s.wf(),
    {
        Filter { collection: Vec::new() }
    }

    /// Adds `entry`; afterwards the entries are exactly the old ones plus
    /// `entry`, still strictly ascending.
    pub fn push(&mut self, entry: i64)
        requires
            old(self).wf(),
        ensures
            final (self).wf(),
            final (self)@.to_set() == old(self)@.to_set().insert(entry),
    {
        let ghost o = self@;
        let n = self.collection.len();
        let mut i: usize = 0;
        while i < n && self.collection[i] < entry
            invariant
                0 <= i <= n,
                n == self@.len(),
                self@ == o,
                forall|j: int| 0 <= j < i ==> self@[j] < entry,
            decreases n - i,
        {
            i += 1;
        }
        if i < n && self.collection[i] == entry {
            proof {
                assert(o.contains(entry));
                assert(o.to_set() =~= o.to_set().insert(entry));
            }
            return ;
        }
        self.collection.insert(i, entry);
        proof {
            o.insert_ensures(i as int, entry);
            let t = self@;
            assert(i < n ==> o[i as int] > entry);
            assert(strictly_sorted_i64(t)) by {
                assert forall|k1: int, k2: int| 0 <= k1 < k2 < t.len() implies t[k1] < t[k2] by {
                    if k2 < i {
                        assert(t[k1] == o[k1] && t[k2] == o[k2]);
                    } else if k2 == i {
                        assert(t[k1] == o[k1] && t[k2] == entry);
                    } else {
                        assert(t[k2] == o[k2 - 1]);
                        assert(i <= k2 - 1 < o.len());
                        assert(o[k2 - 1] >= o[i as int]);
                        if k1 < i {
                            assert(t[k1] == o[k1] && o[k1] < entry);
                        } else if k1 == i {
                            assert(t[k1] == entry);
                        } else {
                            assert(t[k1] == o[k1 - 1] && o[k1 - 1] < o[k2 - 1]);
                        }
                    }
                }
            }
            assert(t.to_set() =~= o.to_set().insert(entry)) by {
                assert forall|x: i64| #[trigger] t.to_set().contains(x) implies o.to_set().insert(
                    entry,
                ).contains(x) by {
                    let k = choose|k: int| 0 <= k < t.len() && t[k] == x;
                    if k < i {
                        assert(o[k] == x);
                    } else if k > i {
                        assert(o[k - 1] == x);
                    }
                }
                assert forall|x: i64| #[trigger] o.to_set().insert(entry).contains(x) implies t
                    .to_set().contains(x) by {
                    if x == entry {
                        assert(t[i as int] == x);
                    } else {
                        let k = choose|k: int| 0 <= k < o.len() && o[k] == x;
                        if k < i {
                            assert(t[k] == x);
                        } else {
                            assert(t[k + 1] == x);
                        }
                    }
                }
            }
        }
    }

    /// Whether `entry` is held.
    pub fn includes(&self, entry: i64) -> (r: bool)
        ensures
            r == self@.contains(entry),
    {
        let n = self.collection.len();
        let mut k: usize = 0;
        while k < n
            invariant
                0 <= k <= n,
                n == self@.len(),
                forall|j: int| 0 <= j < k ==> self@[j] != entry,
            decreases n - k,
        {
            if self.collection[k] == entry {
                return true;
            }
            k += 1;
        }
        false
    }

    /// An independent copy with the same entries.
    pub fn dup(&self) -> (r: Filter)
        ensures
            r@ == self@,
    {
        let n = self.collection.len();
        let mut copy: Vec<i64> = Vec::new();
        let mut k: usize = 0;
        while k < n
            invariant
                0 <= k <= n,
                n == self@.len(),
                copy@ =~= self@.subrange(0, k as int),
            decreases n - k,
        {
            copy.push(self.collection[k]);
            k += 1;
            proof {
                assert(copy@ =~= self@.subrange(0, k as int));
            }
        }
        proof {
            assert(copy@ =~= self@);
        }
        Filter { collection: copy }
    }

    /// Whether nothing is held.
    pub fn is_empty(&self) -> (r: bool)
        ensures
            r == (self@.len() == 0),
    {
        self.collection.is_empty()
    }

    /// Removes every entry.
    pub fn clear(&mut self)
        ensures
            final (self)@ == Seq::<i64>::empty(),
            final (self).wf(),
    {
        self.collection.clear();
    }

    /// How many entries are held, saturated at `i64::MAX`.
    pub fn size(&self) -> (r: i64)
        ensures
            r as int == (if self@.len() <= i64::MAX {
                self@.len() as int
            } else {
                i64::MAX as int
            }),
    {
        let n = self.collection.len();
        if (n as u64) <= 0x7fff_ffff_ffff_ffffu64 {
            n as i64
        } else {
            i64::MAX
        }
    }

    /// A deterministic rendering of the entries, ascending, for diagnostics.
    pub fn inspect(&self) -> (r: String)
        ensures
            r@ == inspect_spec(self@),
    {
        let mut out = String::new();
        push_str(&mut out, "Filter {");
        let n = self.collection.len();
        let mut k: usize = 0;
        while k < n
            invariant
                0 <= k <= n,
                n == self@.len(),
                out@ =~= "Filter {"@ + entries_upto(self@, k as int),
            decreases n - k,
        {
            if k > 0 {
                push_str(&mut out, ", ");
            }
            push_dec_signed(&mut out, self.collection[k]);
            k += 1;
            proof {
                assert(out@ =~= "Filter {"@ + entries_upto(self@, k as int));
            }
        }
        push_char(&mut out, '}');
        proof {
            assert(out@ =~= inspect_spec(self@));
        }
        out
    }
}

} // verus!
