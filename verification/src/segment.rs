//! Fixed-size segments and the allocator that owns the store's memory
//! budget.
//!
//! The manager carves the total capacity into `capacity / segment_size`
//! segments, hands out `Active` segments to the log, retires them to
//! `Closed` when full, and tracks per-segment liveness counters (live
//! object count and live bytes) that a compactor would consume.

use vstd::prelude::*;
use vstd::arithmetic::div_mod::{lemma_fundamental_div_mod, lemma_mod_bound};
use vstd::arithmetic::mul::{lemma_mul_inequality, lemma_mul_is_commutative};

use crate::codec::{HEADER_SIZE, VALID_DEAD};
use crate::common::ErrorCode;

verus! {

/// Size of one segment in bytes (1 MiB).
pub const SEGMENT_SIZE: usize = 1048576;

/// Lifecycle of a segment: `Free` (available for allocation), `Active`
/// (currently receiving appends), `Closed` (full and immutable until
/// reclaimed).
#[derive(Clone, Copy, PartialEq, Eq, Structural, Debug)]
pub enum SegState {
    Free,
    Active,
    Closed,
}

/// One fixed-capacity, append-only region of the log. `data` grows up
/// to the manager's segment size; the liveness counters account for
/// the entries in it that are still current.
pub struct Segment {
    pub state: SegState,
    pub data: Vec<u8>,
    pub live_objects: usize,
    pub live_bytes: usize,
}

impl Segment {
    /// Internal consistency of one segment against the configured
    /// segment size.
    pub open spec fn wf(self, segment_size: int) -> bool {
        &&& self.data@.len() <= segment_size
        &&& self.live_objects <= self.data@.len()
        &&& self.live_bytes <= self.data@.len()
        &&& self.state is Free ==> self.data@.len() == 0 && self.live_objects == 0
            && self.live_bytes == 0
    }

    /// Copies `bytes` onto the end of this segment and counts the new
    /// entry as live.
    pub fn append_bytes(&mut self, bytes: &Vec<u8>)
        requires
            old(self).data@.len() + bytes@.len() <= usize::MAX,
            old(self).live_objects <= old(self).data@.len(),
            old(self).live_bytes <= old(self).data@.len(),
            1 <= bytes@.len(),
        ensures
            final(self).state == old(self).state,
            final(self).data@ == old(self).data@ + bytes@,
            final(self).live_objects == old(self).live_objects + 1,
            final(self).live_bytes == old(self).live_bytes + bytes@.len(),
    {
        let mut i: usize = 0;
        while i < bytes.len()
            invariant
                i <= bytes@.len(),
                self.state == old(self).state,
                self.live_objects == old(self).live_objects,
                self.live_bytes == old(self).live_bytes,
                self.data@ == old(self).data@ + bytes@.subrange(0, i as int),
                old(self).data@.len() + bytes@.len() <= usize::MAX,
            decreases bytes@.len() - i,
        {
            self.data.push(bytes[i]);
            i = i + 1;
            proof {
                assert(self.data@ =~= old(self).data@ + bytes@.subrange(0, i as int));
            }
        }
        proof {
            assert(bytes@.subrange(0, bytes@.len() as int) =~= bytes@);
        }
        self.live_objects = self.live_objects + 1;
        self.live_bytes = self.live_bytes + bytes.len();
    }
}

/// Sum of the live-object counters over a run of segments. `Free`
/// segments contribute zero, so the sum over all segments equals the
/// sum over the non-`Free` ones.
pub open spec fn total_live_objects(segs: Seq<Segment>) -> int
    decreases segs.len(),
{
    if segs.len() == 0 {
        0
    } else {
        total_live_objects(segs.drop_last()) + segs.last().live_objects
    }
}

/// Owner of all segment memory: the segment table with its lifecycle
/// states and liveness counters.
pub struct SegmentManager {
    pub segment_size: usize,
    pub segments: Vec<Segment>,
}

impl SegmentManager {
    /// Internal consistency of the whole segment table.
    pub open spec fn wf(self) -> bool {
        &&& HEADER_SIZE < self.segment_size
        &&& self.segments@.len() * self.segment_size <= usize::MAX
        &&& forall|i: int|
            0 <= i < self.segments@.len() ==> (#[trigger] self.segments@[i]).wf(
                self.segment_size as int,
            )
    }

    /// Reserves `capacity` bytes, partitioned into
    /// `capacity / segment_size` segments, all initially `Free`.
    pub fn new(segment_size: usize, capacity: usize) -> (r: SegmentManager)
        requires
            HEADER_SIZE < segment_size,
        ensures
            r.wf(),
            r.segment_size == segment_size,
            r.segments@.len() == capacity as int / segment_size as int,
            forall|i: int|
                0 <= i < r.segments@.len() ==> (#[trigger] r.segments@[i]).state is Free,
    {
        let num: usize = capacity / segment_size;
        proof {
            lemma_fundamental_div_mod(capacity as int, segment_size as int);
            lemma_mod_bound(capacity as int, segment_size as int);
            lemma_mul_is_commutative(num as int, segment_size as int);
        }
        let mut segments: Vec<Segment> = Vec::new();
        let mut i: usize = 0;
        while i < num
            invariant
                i <= num,
                segments@.len() == i,
                forall|j: int|
                    0 <= j < i ==> (#[trigger] segments@[j]).state is Free && segments@[j].data@.len()
                        == 0 && segments@[j].live_objects == 0 && segments@[j].live_bytes == 0,
            decreases num - i,
        {
            segments.push(
                Segment { state: SegState::Free, data: Vec::new(), live_objects: 0, live_bytes: 0 },
            );
            i = i + 1;
        }
        SegmentManager { segment_size, segments }
    }

    /// Pops a `Free` segment and marks it `Active`, or reports
    /// `OutOfSegments` exactly when none is free.
    pub fn allocate_segment(&mut self) -> (r: Result<usize, ErrorCode>)
        requires
            old(self).wf(),
        ensures
            final(self).wf(),
            final(self).segment_size == old(self).segment_size,
            final(self).segments@.len() == old(self).segments@.len(),
            r is Ok <==> exists|j: int|
                0 <= j < old(self).segments@.len() && (#[trigger] old(
                    self,
                ).segments@[j]).state is Free,
            r matches Ok(j) ==> {
                &&& j < old(self).segments@.len()
                &&& old(self).segments@[j as int].state is Free
                &&& final(self).segments@[j as int].state is Active
                &&& final(self).segments@[j as int].data@ == old(self).segments@[j as int].data@
                &&& final(self).segments@[j as int].data@.len() == 0
                &&& final(self).segments@[j as int].live_objects == 0
                &&& final(self).segments@[j as int].live_bytes == 0
                &&& forall|k: int|
                    0 <= k < old(self).segments@.len() && k != j ==> final(self).segments@[k]
                        == old(self).segments@[k]
            },
            r matches Err(e) ==> e == ErrorCode::OutOfSegments && *final(self) == *old(self),
    {
        let n = self.segments.len();
        let mut i: usize = 0;
        while i < n
            invariant
                i <= n,
                n == self.segments@.len(),
                *self == *old(self),
                self.wf(),
                forall|j: int| 0 <= j < i ==> !((#[trigger] self.segments@[j]).state is Free),
            decreases n - i,
        {
            if matches!(self.segments[i].state, SegState::Free) {
                let ghost oldseg = self.segments@[i as int];
                let seg = &mut self.segments[i];
                seg.state = SegState::Active;
                proof {
                    assert(self.segments@[i as int].state is Active);
                    assert(self.segments@[i as int].data@ == oldseg.data@);
                    assert(forall|k: int|
                        0 <= k < self.segments@.len() && k != i ==> self.segments@[k] == old(
                            self,
                        ).segments@[k]);
                    assert forall|k: int| 0 <= k < self.segments@.len() implies (
                    #[trigger] self.segments@[k]).wf(self.segment_size as int) by {
                        assert(old(self).segments@[k].wf(old(self).segment_size as int));
                    }
                }
                return Ok(i);
            }
            i = i + 1;
        }
        Err(ErrorCode::OutOfSegments)
    }

    /// Transitions an `Active` segment to `Closed` once the log finds
    /// it has no room for the next entry.
    pub fn close_segment(&mut self, idx: usize)
        requires
            old(self).wf(),
            idx < old(self).segments@.len(),
            old(self).segments@[idx as int].state is Active,
        ensures
            final(self).wf(),
            final(self).segment_size == old(self).segment_size,
            final(self).segments@.len() == old(self).segments@.len(),
            final(self).segments@[idx as int].state is Closed,
            final(self).segments@[idx as int].data@ == old(self).segments@[idx as int].data@,
            final(self).segments@[idx as int].live_objects == old(self).segments@[idx as int].live_objects,
            final(self).segments@[idx as int].live_bytes == old(self).segments@[idx as int].live_bytes,
            forall|k: int|
                0 <= k < old(self).segments@.len() && k != idx ==> final(self).segments@[k] == old(
                    self,
                ).segments@[k],
    {
        let seg = &mut self.segments[idx];
        seg.state = SegState::Closed;
    }

    /// Transitions a `Closed` segment back to `Free`, dropping its
    /// contents and zeroing its liveness counters. The caller must
    /// guarantee that no outstanding location still references this
    /// segment.
    pub fn reclaim_segment(&mut self, idx: usize)
        requires
            old(self).wf(),
            idx < old(self).segments@.len(),
            old(self).segments@[idx as int].state is Closed,
        ensures
            final(self).wf(),
            final(self).segment_size == old(self).segment_size,
            final(self).segments@.len() == old(self).segments@.len(),
            final(self).segments@[idx as int].state is Free,
            final(self).segments@[idx as int].data@.len() == 0,
            final(self).segments@[idx as int].live_objects == 0,
            final(self).segments@[idx as int].live_bytes == 0,
            forall|k: int|
                0 <= k < old(self).segments@.len() && k != idx ==> final(self).segments@[k] == old(
                    self,
                ).segments@[k],
    {
        let seg = &mut self.segments[idx];
        seg.data.clear();
        seg.live_objects = 0;
        seg.live_bytes = 0;
        seg.state = SegState::Free;
    }

    /// Copies one encoded entry onto the end of the `Active` segment
    /// `idx` and counts it live; returns the entry's offset.
    pub fn append_entry(&mut self, idx: usize, bytes: &Vec<u8>) -> (off: usize)
        requires
            old(self).wf(),
            idx < old(self).segments@.len(),
            old(self).segments@[idx as int].state is Active,
            old(self).segments@[idx as int].data@.len() + bytes@.len() <= old(self).segment_size,
            HEADER_SIZE <= bytes@.len(),
        ensures
            final(self).wf(),
            final(self).segment_size == old(self).segment_size,
            final(self).segments@.len() == old(self).segments@.len(),
            final(self).segments@[idx as int].state is Active,
            final(self).segments@[idx as int].data@ == old(self).segments@[idx as int].data@
                + bytes@,
            final(self).segments@[idx as int].live_objects == old(self).segments@[idx as int].live_objects
                + 1,
            final(self).segments@[idx as int].live_bytes == old(self).segments@[idx as int].live_bytes
                + bytes@.len(),
            forall|k: int|
                0 <= k < old(self).segments@.len() && k != idx ==> final(self).segments@[k] == old(
                    self,
                ).segments@[k],
            off == old(self).segments@[idx as int].data@.len(),
    {
        let off = self.segments[idx].data.len();
        let seg = &mut self.segments[idx];
        seg.append_bytes(bytes);
        off
    }

    /// Flips the validity marker at `(idx, off)` to "dead". The byte at
    /// that offset must be the first header byte of the entry being
    /// invalidated.
    pub fn mark_dead(&mut self, idx: usize, off: usize)
        requires
            old(self).wf(),
            idx < old(self).segments@.len(),
            off < old(self).segments@[idx as int].data@.len(),
        ensures
            final(self).wf(),
            final(self).segment_size == old(self).segment_size,
            final(self).segments@.len() == old(self).segments@.len(),
            final(self).segments@[idx as int].state == old(self).segments@[idx as int].state,
            final(self).segments@[idx as int].data@ == old(self).segments@[idx as int].data@.update(
                off as int,
                VALID_DEAD,
            ),
            final(self).segments@[idx as int].live_objects == old(self).segments@[idx as int].live_objects,
            final(self).segments@[idx as int].live_bytes == old(self).segments@[idx as int].live_bytes,
            forall|k: int|
                0 <= k < old(self).segments@.len() && k != idx ==> final(self).segments@[k] == old(
                    self,
                ).segments@[k],
    {
        let seg = &mut self.segments[idx];
        seg.data[off] = VALID_DEAD;
    }

    /// Decrements the owning segment's liveness counters by one object
    /// and `entry_size` bytes. The caller must have established that
    /// the counters cover the invalidated entry: counts never go
    /// negative.
    pub fn record_invalidation(&mut self, idx: usize, entry_size: usize)
        requires
            old(self).wf(),
            idx < old(self).segments@.len(),
            1 <= old(self).segments@[idx as int].live_objects,
            entry_size <= old(self).segments@[idx as int].live_bytes,
        ensures
            final(self).wf(),
            final(self).segment_size == old(self).segment_size,
            final(self).segments@.len() == old(self).segments@.len(),
            final(self).segments@[idx as int].state == old(self).segments@[idx as int].state,
            final(self).segments@[idx as int].data@ == old(self).segments@[idx as int].data@,
            final(self).segments@[idx as int].live_objects == old(self).segments@[idx as int].live_objects
                - 1,
            final(self).segments@[idx as int].live_bytes == old(self).segments@[idx as int].live_bytes
                - entry_size,
            forall|k: int|
                0 <= k < old(self).segments@.len() && k != idx ==> final(self).segments@[k] == old(
                    self,
                ).segments@[k],
    {
        let seg = &mut self.segments[idx];
        seg.live_objects = seg.live_objects - 1;
        seg.live_bytes = seg.live_bytes - entry_size;
    }

    /// Sum of the live-object counters across all segments; `Free`
    /// segments hold zero, so this is the count over the non-`Free`
    /// ones. A diagnostics signal for tests and a future compactor.
    pub fn live_object_count(&self) -> (r: usize)
        requires
            self.wf(),
        ensures
            r == total_live_objects(self.segments@),
    {
        let n = self.segments.len();
        let mut acc: usize = 0;
        let mut i: usize = 0;
        while i < n
            invariant
                i <= n,
                n == self.segments@.len(),
                self.wf(),
                acc == total_live_objects(self.segments@.subrange(0, i as int)),
                acc <= i * self.segment_size,
            decreases n - i,
        {
            proof {
                assert(self.segments@.subrange(0, i + 1).drop_last() =~= self.segments@.subrange(
                    0,
                    i as int,
                ));
                assert(self.segments@.subrange(0, i + 1).last() == self.segments@[i as int]);
                assert((i + 1) * self.segment_size == i * self.segment_size + self.segment_size)
                    by (nonlinear_arith);
                lemma_mul_inequality(i + 1, n as int, self.segment_size as int);
            }
            acc = acc + self.segments[i].live_objects;
            i = i + 1;
        }
        proof {
            assert(self.segments@.subrange(0, n as int) =~= self.segments@);
        }
        acc
    }
}

} // verus!
