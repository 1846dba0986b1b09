//! The key→location index: the single source of truth for which keys
//! are live and where their newest version sits in the log.
//!
//! Beside the map itself, this module defines the per-segment counting
//! functions (how many indexed entries, and how many of their bytes,
//! sit in a given segment) that tie the index to the allocator's
//! liveness counters.

use vstd::prelude::*;

verus! {

/// An opaque handle to one entry's position in the log: the segment
/// holding it, the byte offset of its header within that segment, and
/// the total encoded size of the record.
///
/// A location is valid only until the segment containing it is
/// reclaimed; it is two indices and a length validated against current
/// segment state, never a dangling reference.
#[derive(Clone, Copy)]
pub struct Location {
    pub seg: usize,
    pub off: usize,
    pub len: usize,
}

/// No two index entries name the same key.
pub open spec fn keys_unique(s: Seq<(Vec<u8>, Location)>) -> bool {
    forall|i: int, j: int|
        0 <= i < j < s.len() ==> (#[trigger] s[i]).0@ != (#[trigger] s[j]).0@
}

/// Whether some entry of the index names `k`.
pub open spec fn has_key(s: Seq<(Vec<u8>, Location)>, k: Seq<u8>) -> bool {
    exists|i: int| 0 <= i < s.len() && (#[trigger] s[i]).0@ == k
}

/// The position of the entry naming `k`; meaningful when `has_key`
/// holds and the keys are unique.
pub open spec fn key_index(s: Seq<(Vec<u8>, Location)>, k: Seq<u8>) -> int {
    choose|i: int| 0 <= i < s.len() && (#[trigger] s[i]).0@ == k
}

/// The location currently associated with `k`.
pub open spec fn loc_of(s: Seq<(Vec<u8>, Location)>, k: Seq<u8>) -> Location {
    s[key_index(s, k)].1
}

/// How many index entries point into segment `g`.
pub open spec fn count_in_seg(s: Seq<(Vec<u8>, Location)>, g: int) -> int
    decreases s.len(),
{
    if s.len() == 0 {
        0
    } else {
        count_in_seg(s.drop_last(), g) + if s.last().1.seg == g {
            1int
        } else {
            0int
        }
    }
}

/// How many encoded bytes of index entries sit in segment `g`.
pub open spec fn bytes_in_seg(s: Seq<(Vec<u8>, Location)>, g: int) -> int
    decreases s.len(),
{
    if s.len() == 0 {
        0
    } else {
        bytes_in_seg(s.drop_last(), g) + if s.last().1.seg == g {
            s.last().1.len as int
        } else {
            0int
        }
    }
}

/// Both per-segment counts are non-negative.
pub proof fn lemma_count_nonneg(s: Seq<(Vec<u8>, Location)>, g: int)
    ensures
        count_in_seg(s, g) >= 0,
        bytes_in_seg(s, g) >= 0,
    decreases s.len(),
{
    if s.len() > 0 {
        lemma_count_nonneg(s.drop_last(), g);
    }
}

/// An entry pointing into segment `g` contributes at least one object
/// and its own length to that segment's counts.
pub proof fn lemma_count_member(s: Seq<(Vec<u8>, Location)>, j: int, g: int)
    requires
        0 <= j < s.len(),
        s[j].1.seg == g,
    ensures
        count_in_seg(s, g) >= 1,
        bytes_in_seg(s, g) >= s[j].1.len,
    decreases s.len(),
{
    lemma_count_nonneg(s.drop_last(), g);
    if j == s.len() - 1 {
        assert(s.last() == s[j]);
    } else {
        lemma_count_member(s.drop_last(), j, g);
    }
}

/// Appending one entry raises the counts of exactly its segment.
pub proof fn lemma_count_push(s: Seq<(Vec<u8>, Location)>, e: (Vec<u8>, Location), g: int)
    ensures
        count_in_seg(s.push(e), g) == count_in_seg(s, g) + if e.1.seg == g {
            1int
        } else {
            0int
        },
        bytes_in_seg(s.push(e), g) == bytes_in_seg(s, g) + if e.1.seg == g {
            e.1.len as int
        } else {
            0int
        },
{
    assert(s.push(e).drop_last() =~= s);
    assert(s.push(e).last() == e);
}

/// Replacing the entry at `j` exchanges its contribution for the new
/// entry's.
pub proof fn lemma_count_update(
    s: Seq<(Vec<u8>, Location)>,
    j: int,
    e: (Vec<u8>, Location),
    g: int,
)
    requires
        0 <= j < s.len(),
    ensures
        count_in_seg(s.update(j, e), g) == count_in_seg(s, g) - (if s[j].1.seg == g {
            1int
        } else {
            0int
        }) + (if e.1.seg == g {
            1int
        } else {
            0int
        }),
        bytes_in_seg(s.update(j, e), g) == bytes_in_seg(s, g) - (if s[j].1.seg == g {
            s[j].1.len as int
        } else {
            0int
        }) + (if e.1.seg == g {
            e.1.len as int
        } else {
            0int
        }),
    decreases s.len(),
{
    let t = s.update(j, e);
    if j == s.len() - 1 {
        assert(t.drop_last() =~= s.drop_last());
        assert(t.last() == e);
        assert(s.last() == s[j]);
    } else {
        lemma_count_update(s.drop_last(), j, e, g);
        assert(t.drop_last() =~= s.drop_last().update(j, e));
        assert(t.last() == s.last());
    }
}

/// Removing the entry at `j` lowers the counts of exactly its segment.
pub proof fn lemma_count_remove(s: Seq<(Vec<u8>, Location)>, j: int, g: int)
    requires
        0 <= j < s.len(),
    ensures
        count_in_seg(s.remove(j), g) == count_in_seg(s, g) - (if s[j].1.seg == g {
            1int
        } else {
            0int
        }),
        bytes_in_seg(s.remove(j), g) == bytes_in_seg(s, g) - (if s[j].1.seg == g {
            s[j].1.len as int
        } else {
            0int
        }),
    decreases s.len(),
{
    let t = s.remove(j);
    if j == s.len() - 1 {
        assert(t =~= s.drop_last());
        assert(s.last() == s[j]);
    } else {
        lemma_count_remove(s.drop_last(), j, g);
        assert(t.drop_last() =~= s.drop_last().remove(j));
        assert(t.last() == s.last());
    }
}

/// Sum of the per-segment counts over segments `0 .. n`.
pub open spec fn sum_counts(s: Seq<(Vec<u8>, Location)>, n: int) -> int
    decreases n,
{
    if n <= 0 {
        0
    } else {
        sum_counts(s, n - 1) + count_in_seg(s, n - 1)
    }
}

proof fn lemma_sum_counts_empty(s: Seq<(Vec<u8>, Location)>, n: int)
    requires
        s.len() == 0,
    ensures
        sum_counts(s, n) == 0,
    decreases n,
{
    if n > 0 {
        lemma_sum_counts_empty(s, n - 1);
    }
}

proof fn lemma_sum_counts_drop(s: Seq<(Vec<u8>, Location)>, n: int)
    requires
        s.len() > 0,
    ensures
        sum_counts(s, n) == sum_counts(s.drop_last(), n) + (if 0 <= s.last().1.seg < n {
            1int
        } else {
            0int
        }),
    decreases n,
{
    if n > 0 {
        lemma_sum_counts_drop(s, n - 1);
    }
}

/// Every entry points into one of the segments `0 .. n`, so the
/// per-segment counts sum to the number of index entries.
pub proof fn lemma_sum_counts_len(s: Seq<(Vec<u8>, Location)>, n: int)
    requires
        forall|i: int| 0 <= i < s.len() ==> 0 <= (#[trigger] s[i]).1.seg < n,
    ensures
        sum_counts(s, n) == s.len(),
    decreases s.len(),
{
    if s.len() == 0 {
        lemma_sum_counts_empty(s, n);
    } else {
        lemma_sum_counts_drop(s, n);
        assert(s.last() == s[s.len() - 1]);
        lemma_sum_counts_len(s.drop_last(), n);
    }
}

/// With unique keys, an entry naming `k` pins down `key_index`.
pub proof fn lemma_key_index_unique(s: Seq<(Vec<u8>, Location)>, k: Seq<u8>, j: int)
    requires
        keys_unique(s),
        0 <= j < s.len(),
        s[j].0@ == k,
    ensures
        has_key(s, k),
        key_index(s, k) == j,
{
    assert(has_key(s, k));
    let ki = key_index(s, k);
    assert(0 <= ki < s.len() && s[ki].0@ == k);
    if ki < j {
        assert(s[ki].0@ != s[j].0@);
    } else if j < ki {
        assert(s[j].0@ != s[ki].0@);
    }
}

/// Byte-for-byte equality of two keys.
fn bytes_eq(a: &Vec<u8>, b: &Vec<u8>) -> (r: bool)
    ensures
        r <==> a@ == b@,
{
    let n = a.len();
    if n != b.len() {
        return false;
    }
    let mut i: usize = 0;
    while i < n
        invariant
            i <= n,
            n == a@.len(),
            a@.len() == b@.len(),
            forall|j: int| 0 <= j < i ==> a@[j] == b@[j],
        decreases n - i,
    {
        if a[i] != b[i] {
            return false;
        }
        i = i + 1;
    }
    proof {
        assert(a@ =~= b@);
    }
    true
}

/// The mapping from key to current location: at most one live location
/// per key at any time; a key absent here has no live object.
pub struct Index {
    pub entries: Vec<(Vec<u8>, Location)>,
}

impl Index {
    /// No key occurs twice.
    pub open spec fn wf(self) -> bool {
        keys_unique(self.entries@)
    }

    pub fn new() -> (r: Index)
        ensures
            r.wf(),
            r.entries@.len() == 0,
    {
        Index { entries: Vec::new() }
    }

    /// Point lookup: the location of `key`'s newest version, or `None`
    /// if the key is not live.
    pub fn get(&self, key: &Vec<u8>) -> (r: Option<Location>)
        requires
            self.wf(),
        ensures
            r is Some <==> has_key(self.entries@, key@),
            r matches Some(loc) ==> loc == loc_of(self.entries@, key@),
    {
        let n = self.entries.len();
        let mut i: usize = 0;
        while i < n
            invariant
                i <= n,
                n == self.entries@.len(),
                self.wf(),
                forall|j: int| 0 <= j < i ==> (#[trigger] self.entries@[j]).0@ != key@,
            decreases n - i,
        {
            if bytes_eq(&self.entries[i].0, key) {
                proof {
                    let ki = key_index(self.entries@, key@);
                    assert(self.entries@[i as int].0@ == key@);
                    assert(0 <= ki < self.entries@.len() && self.entries@[ki].0@ == key@);
                    assert(ki == i as int);
                }
                return Some(self.entries[i].1);
            }
            i = i + 1;
        }
        None
    }

    /// Atomically associates `key` with `loc` and hands back whatever
    /// location was previously associated (`None` if the key is new).
    pub fn update(&mut self, key: Vec<u8>, loc: Location) -> (r: Option<Location>)
        requires
            old(self).wf(),
        ensures
            final(self).wf(),
            r is Some <==> has_key(old(self).entries@, key@),
            r matches Some(ol) ==> {
                &&& ol == loc_of(old(self).entries@, key@)
                &&& final(self).entries@ == old(self).entries@.update(
                    key_index(old(self).entries@, key@),
                    (key, loc),
                )
            },
            r is None ==> final(self).entries@ == old(self).entries@.push((key, loc)),
    {
        let n = self.entries.len();
        let mut i: usize = 0;
        while i < n
            invariant
                i <= n,
                n == self.entries@.len(),
                *self == *old(self),
                self.wf(),
                forall|j: int| 0 <= j < i ==> (#[trigger] self.entries@[j]).0@ != key@,
            decreases n - i,
        {
            if bytes_eq(&self.entries[i].0, &key) {
                proof {
                    let ki = key_index(self.entries@, key@);
                    assert(self.entries@[i as int].0@ == key@);
                    assert(0 <= ki < self.entries@.len() && self.entries@[ki].0@ == key@);
                    assert(ki == i as int);
                }
                let ol = self.entries[i].1;
                self.entries[i] = (key, loc);
                proof {
                    assert forall|a: int, b: int|
                        0 <= a < b < self.entries@.len() implies (#[trigger] self.entries@[a]).0@
                        != (#[trigger] self.entries@[b]).0@ by {
                        assert(old(self).entries@[a].0@ != old(self).entries@[b].0@);
                    }
                }
                return Some(ol);
            }
            i = i + 1;
        }
        self.entries.push((key, loc));
        proof {
            assert forall|a: int, b: int|
                0 <= a < b < self.entries@.len() implies (#[trigger] self.entries@[a]).0@ != (
            #[trigger] self.entries@[b]).0@ by {
                if b < self.entries@.len() - 1 {
                    assert(old(self).entries@[a].0@ != old(self).entries@[b].0@);
                } else {
                    assert(old(self).entries@[a].0@ != key@);
                }
            }
        }
        None
    }

    /// Removes the mapping for `key` entirely, handing back the last
    /// location so the caller can invalidate it in the log.
    pub fn remove(&mut self, key: &Vec<u8>) -> (r: Option<Location>)
        requires
            old(self).wf(),
        ensures
            final(self).wf(),
            r is Some <==> has_key(old(self).entries@, key@),
            r matches Some(ol) ==> {
                &&& ol == loc_of(old(self).entries@, key@)
                &&& final(self).entries@ == old(self).entries@.remove(
                    key_index(old(self).entries@, key@),
                )
            },
            r is None ==> *final(self) == *old(self),
    {
        let n = self.entries.len();
        let mut i: usize = 0;
        while i < n
            invariant
                i <= n,
                n == self.entries@.len(),
                *self == *old(self),
                self.wf(),
                forall|j: int| 0 <= j < i ==> (#[trigger] self.entries@[j]).0@ != key@,
            decreases n - i,
        {
            if bytes_eq(&self.entries[i].0, key) {
                proof {
                    let ki = key_index(self.entries@, key@);
                    assert(self.entries@[i as int].0@ == key@);
                    assert(0 <= ki < self.entries@.len() && self.entries@[ki].0@ == key@);
                    assert(ki == i as int);
                }
                let e = self.entries.remove(i);
                proof {
                    let s = old(self).entries@;
                    assert(self.entries@ =~= s.remove(i as int));
                    assert forall|a: int, b: int|
                        0 <= a < b < self.entries@.len() implies (#[trigger] self.entries@[a]).0@
                        != (#[trigger] self.entries@[b]).0@ by {
                        let a0 = if a < i as int { a } else { a + 1 };
                        let b0 = if b < i as int { b } else { b + 1 };
                        assert(self.entries@[a] == s[a0]);
                        assert(self.entries@[b] == s[b0]);
                        assert(s[a0].0@ != s[b0].0@);
                    }
                }
                return Some(e.1);
            }
            i = i + 1;
        }
        None
    }

    /// Number of live keys.
    pub fn len(&self) -> (r: usize)
        ensures
            r == self.entries@.len(),
    {
        self.entries.len()
    }
}

} // verus!
