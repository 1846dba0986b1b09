//! The store facade: composes the index, the log and the segment
//! allocator into the public put/get/delete contract.
//!
//! The facade owns the orchestration invariant of the store: every
//! indexed key points at a live, well-formed log entry holding its
//! newest payload, entries of distinct keys occupy disjoint byte
//! spans, and each segment's liveness counters equal the number and
//! size of the indexed entries inside it.

use vstd::prelude::*;

use crate::codec::{decode_header, entry_len, payload_span, HEADER_SIZE, VALID_LIVE};
use crate::common::{copy_bytes, Buffer, ErrorCode, ObjDesc, Status};
use crate::index::{bytes_in_seg, count_in_seg, has_key, key_index, keys_unique,
    lemma_count_member, lemma_count_nonneg, lemma_count_push, lemma_count_remove,
    lemma_count_update, lemma_key_index_unique, lemma_sum_counts_len, loc_of, sum_counts, Index,
    Location};
use crate::segment::{total_live_objects, Segment, SegmentManager, SEGMENT_SIZE};
use crate::thelog::{append_err_frame, append_ok_post, appendable, entry_at, has_free_segment,
    invalidate_ok_post, lemma_live_entry_stable, lemma_live_entry_valid, lemma_subrange_extend,
    lemma_subrange_update_outside, live_entry_for, log_wf, needs_rollover, payload_at, Log};

verus! {

/// Two byte spans of one segment do not overlap.
pub open spec fn spans_disjoint(a: Location, b: Location) -> bool {
    a.off + a.len <= b.off || b.off + b.len <= a.off
}

/// The per-segment liveness counters equal the count and the total
/// size of the indexed entries in each segment.
pub open spec fn counters_match(entries: Seq<(Vec<u8>, Location)>, mgr: SegmentManager) -> bool {
    &&& forall|s: int|
        0 <= s < mgr.segments@.len() ==> (#[trigger] mgr.segments@[s]).live_objects
            == count_in_seg(entries, s)
    &&& forall|s: int|
        0 <= s < mgr.segments@.len() ==> (#[trigger] mgr.segments@[s]).live_bytes == bytes_in_seg(
            entries,
            s,
        )
}

/// The main store interface: an in-memory, log-structured key/value
/// object store.
pub struct Nibble {
    pub index: Index,
    pub manager: SegmentManager,
    pub log: Log,
}

impl Nibble {
    /// The index entries, as (key, location) pairs.
    pub open spec fn entries(self) -> Seq<(Vec<u8>, Location)> {
        self.index.entries@
    }

    pub open spec fn num_segments(self) -> int {
        self.manager.segments@.len() as int
    }

    /// The store's orchestration invariant.
    pub open spec fn wf(self) -> bool {
        &&& log_wf(self.log, self.manager)
        &&& keys_unique(self.entries())
        &&& forall|j: int|
            0 <= j < self.entries().len() ==> live_entry_for(
                self.manager,
                (#[trigger] self.entries()[j]).0@,
                self.entries()[j].1,
            )
        &&& forall|i: int, j: int|
            0 <= i < self.entries().len() && 0 <= j < self.entries().len() && i != j && (
            #[trigger] self.entries()[i]).1.seg == (#[trigger] self.entries()[j]).1.seg
                ==> spans_disjoint(self.entries()[i].1, self.entries()[j].1)
        &&& counters_match(self.entries(), self.manager)
    }

    /// Whether `k` currently has a live object.
    pub open spec fn has_key(self, k: Seq<u8>) -> bool {
        has_key(self.entries(), k)
    }

    /// The location of `k`'s newest version.
    pub open spec fn loc_for(self, k: Seq<u8>) -> Location {
        loc_of(self.entries(), k)
    }

    /// The payload currently stored under `k`.
    pub open spec fn value_of(self, k: Seq<u8>) -> Seq<u8> {
        payload_at(self.manager, self.loc_for(k), k.len() as int)
    }

    /// Number of live objects in the store.
    pub open spec fn num_live(self) -> int {
        self.entries().len() as int
    }

    /// Live-object counter of segment `s`.
    pub open spec fn seg_live_objects(self, s: int) -> int {
        self.manager.segments@[s].live_objects as int
    }

    /// Live-byte counter of segment `s`.
    pub open spec fn seg_live_bytes(self, s: int) -> int {
        self.manager.segments@[s].live_bytes as int
    }

    /// Whether a write of `k`/`v` can succeed in the current state:
    /// the entry is encodable and fits a segment, and either the
    /// active segment has room or a free segment remains.
    pub open spec fn can_put(self, k: Seq<u8>, v: Seq<u8>) -> bool {
        appendable(k, v, self.manager.segment_size as int) && (!needs_rollover(
            self.log,
            self.manager,
            entry_len(k, v),
        ) || has_free_segment(self.manager))
    }

    /// Creates a store over `capacity` bytes of segment memory.
    pub fn new(capacity: usize) -> (r: Nibble)
        ensures
            r.wf(),
            r.num_live() == 0,
            forall|k: Seq<u8>| !(#[trigger] r.has_key(k)),
            r.manager.segment_size == SEGMENT_SIZE,
            r.num_segments() == capacity as int / SEGMENT_SIZE as int,
            forall|s: int|
                0 <= s < r.num_segments() ==> (#[trigger] r.manager.segments@[s]).state is Free,
            r.log.head is None,
            forall|s: int|
                0 <= s < r.num_segments() ==> #[trigger] r.seg_live_objects(s) == 0
                    && r.seg_live_bytes(s) == 0,
    {
        let manager = SegmentManager::new(SEGMENT_SIZE, capacity);
        let r = Nibble { index: Index::new(), manager, log: Log::new() };
        proof {
            assert forall|s: int| 0 <= s < r.manager.segments@.len() implies (
            #[trigger] r.manager.segments@[s]).live_objects == count_in_seg(r.entries(), s)
                && r.manager.segments@[s].live_bytes == bytes_in_seg(r.entries(), s) by {
                assert(r.manager.segments@[s].state is Free);
            }
        }
        r
    }

    /// Diagnostics: total number of live objects, summed from the
    /// per-segment counters. Equals the number of live keys.
    pub fn test_count_live_objects(&self) -> (r: usize)
        requires
            self.wf(),
        ensures
            r == self.num_live(),
    {
        let c = self.manager.live_object_count();
        proof {
            lemma_total_eq_sum(self.manager.segments@, self.entries());
            assert forall|i: int| 0 <= i < self.entries().len() implies 0 <= (
            #[trigger] self.entries()[i]).1.seg < self.manager.segments@.len() by {
                assert(live_entry_for(self.manager, self.entries()[i].0@, self.entries()[i].1));
            }
            lemma_sum_counts_len(self.entries(), self.manager.segments@.len() as int);
        }
        c
    }

    /// Writes one object: appends its entry to the log, points the
    /// index at the new location, and, if the key was live before,
    /// invalidates the superseded entry and books the invalidation
    /// against its segment.
    ///
    /// Fails with `EncodingError` exactly when key or payload exceed
    /// the size limits, and with `OutOfSegments` exactly when a fresh
    /// segment is needed but none is free; a failed write changes
    /// nothing observable.
    pub fn put_object(&mut self, obj: &ObjDesc) -> (r: Status)
        requires
            old(self).wf(),
        ensures
            final(self).wf(),
            r is Ok <==> old(self).can_put(obj.key@, obj.value@),
            r matches Ok(v) ==> v == 1,
            r is Ok ==> put_ok_post(*old(self), *final(self), obj.key@, obj.value@),
            r matches Err(e) ==> e == (if !appendable(
                obj.key@,
                obj.value@,
                old(self).manager.segment_size as int,
            ) {
                ErrorCode::EncodingError
            } else {
                ErrorCode::OutOfSegments
            }),
            r is Err ==> views_preserved(*old(self), *final(self)),
    {
        let ghost pre = *old(self);
        let va = match self.log.append(&mut self.manager, obj) {
            Err(code) => {
                proof {
                    lemma_wf_after_err(pre, *self);
                }
                return Err(code);
            },
            Ok(v) => v,
        };
        let ghost m1 = self.manager;
        proof {
            lemma_entries_stable_after_append(pre, m1, self.log, obj.key@, obj.value@, va);
        }
        let okey = copy_bytes(&obj.key);
        let old_opt = self.index.update(okey, va);
        match old_opt {
            None => {
                proof {
                    lemma_put_new_key(pre, *self, obj.key@, obj.value@, va);
                }
                Ok(1)
            },
            Some(ol) => {
                proof {
                    let e0 = pre.entries();
                    let j0 = key_index(e0, obj.key@);
                    assert(0 <= j0 < e0.len() && e0[j0].0@ == obj.key@);
                    assert(live_entry_for(pre.manager, obj.key@, ol));
                    lemma_live_entry_stable(pre.manager, m1, obj.key@, ol);
                    lemma_live_entry_valid(m1, obj.key@, ol);
                    lemma_count_member(e0, j0, ol.seg as int);
                    lemma_count_nonneg(e0, ol.seg as int);
                    assert(m1.segments@[ol.seg as int].live_objects >= 1);
                    assert(m1.segments@[ol.seg as int].live_bytes >= ol.len);
                }
                match self.log.invalidate_entry(&mut self.manager, ol) {
                    Err(_) => {
                        proof {
                            assert(false);
                        }
                        Err(ErrorCode::CorruptEntry)
                    },
                    Ok(_) => {
                        proof {
                            lemma_put_replace(pre, m1, *self, obj.key@, obj.value@, va, ol);
                        }
                        Ok(1)
                    },
                }
            },
        }
    }

    /// Deletes one object: removes the key from the index and
    /// invalidates its log entry, symmetric to the stale-entry
    /// handling in `put_object`. Fails with `KeyNotExist` exactly
    /// when the key has no live object.
    pub fn del_object(&mut self, key: &Vec<u8>) -> (r: Status)
        requires
            old(self).wf(),
        ensures
            final(self).wf(),
            r is Ok <==> old(self).has_key(key@),
            r matches Ok(v) ==> v == 1,
            r is Ok ==> del_ok_post(*old(self), *final(self), key@),
            r matches Err(e) ==> e == ErrorCode::KeyNotExist && *final(self) == *old(self),
    {
        let ghost pre = *old(self);
        let ol = match self.index.remove(key) {
            None => {
                return Err(ErrorCode::KeyNotExist);
            },
            Some(v) => v,
        };
        proof {
            let e0 = pre.entries();
            let j0 = key_index(e0, key@);
            assert(0 <= j0 < e0.len() && e0[j0].0@ == key@);
            assert(live_entry_for(pre.manager, key@, ol));
            lemma_live_entry_valid(pre.manager, key@, ol);
            lemma_count_member(e0, j0, ol.seg as int);
            assert(pre.manager.segments@[ol.seg as int].live_objects >= 1);
            assert(pre.manager.segments@[ol.seg as int].live_bytes >= ol.len);
        }
        match self.log.invalidate_entry(&mut self.manager, ol) {
            Err(_) => {
                proof {
                    assert(false);
                }
                Err(ErrorCode::CorruptEntry)
            },
            Ok(_) => {
                proof {
                    lemma_del(pre, *self, key@, ol);
                }
                Ok(1)
            },
        }
    }

    /// Looks up `key` and hands back an owned copy of its payload.
    /// Fails with `KeyNotExist` exactly when the key has no live
    /// object.
    #[verifier::rlimit(50)]
    pub fn get_object(&self, key: &Vec<u8>) -> (r: (Status, Option<Buffer>))
        requires
            self.wf(),
        ensures
            self.has_key(key@) ==> r.0 == Ok::<usize, ErrorCode>(1usize) && (r.1 matches Some(buf)
                && buf@ == self.value_of(key@)),
            !self.has_key(key@) ==> r.0 == Err::<usize, ErrorCode>(ErrorCode::KeyNotExist)
                && r.1 is None,
    {
        let va = match self.index.get(key) {
            None => {
                return (Err(ErrorCode::KeyNotExist), None);
            },
            Some(v) => v,
        };
        proof {
            let ki = key_index(self.entries(), key@);
            assert(0 <= ki < self.entries().len() && self.entries()[ki].0@ == key@);
            assert(live_entry_for(self.manager, self.entries()[ki].0@, self.entries()[ki].1));
            lemma_live_entry_valid(self.manager, key@, va);
        }
        let data = &self.manager.segments[va.seg].data;
        let header = match decode_header(data, va.off) {
            Ok(h) => h,
            Err(_) => {
                proof {
                    assert(false);
                }
                return (Err(ErrorCode::CorruptEntry), None);
            },
        };
        proof {
            assert(header.klen == key@.len());
            assert(header.dlen == va.len - HEADER_SIZE - key@.len());
        }
        let (start, count) = payload_span(va.off, &header);
        let dn = data.len();
        let mut out: Vec<u8> = Vec::new();
        let mut i: usize = 0;
        while i < count
            invariant
                i <= count,
                dn == data@.len(),
                start + count <= dn,
                out@ == data@.subrange(start as int, start + i),
            decreases count - i,
        {
            out.push(data[start + i]);
            i = i + 1;
            proof {
                assert(out@ =~= data@.subrange(start as int, start + i));
            }
        }
        proof {
            assert(out@ == payload_at(self.manager, va, key@.len() as int));
        }
        (Ok(1), Some(Buffer::new(out)))
    }
}

/// The byte image of a live entry for `key` with payload `p`.
pub open spec fn entry_bytes_of(key: Seq<u8>, p: Seq<u8>) -> Seq<u8> {
    crate::codec::entry_bytes(VALID_LIVE, key, p)
}

/// A failed or read-only operation changes nothing a caller can
/// observe: the same keys are live with the same payloads, and every
/// segment keeps its liveness counters.
pub open spec fn views_preserved(pre: Nibble, post: Nibble) -> bool {
    &&& post.num_segments() == pre.num_segments()
    &&& post.num_live() == pre.num_live()
    &&& forall|k: Seq<u8>| #[trigger] post.has_key(k) == pre.has_key(k)
    &&& forall|k: Seq<u8>| pre.has_key(k) ==> #[trigger] post.value_of(k) == pre.value_of(k)
    &&& forall|s: int|
        0 <= s < pre.num_segments() ==> #[trigger] post.seg_live_objects(s)
            == pre.seg_live_objects(s)
    &&& forall|s: int|
        0 <= s < pre.num_segments() ==> #[trigger] post.seg_live_bytes(s) == pre.seg_live_bytes(s)
}

/// How a successful write moves the liveness counters: one new object
/// in the segment that received the entry, and, when the key was
/// already live, one invalidation (an object and the old entry's
/// bytes) against the segment that held the previous version.
pub open spec fn put_counters_updated(pre: Nibble, post: Nibble, k: Seq<u8>, v: Seq<u8>) -> bool {
    let ns = post.loc_for(k).seg as int;
    if pre.has_key(k) {
        let os = pre.loc_for(k).seg as int;
        let olen = pre.loc_for(k).len as int;
        &&& forall|s: int|
            0 <= s < pre.num_segments() ==> #[trigger] post.seg_live_objects(s)
                == pre.seg_live_objects(s) + (if s == ns {
                1int
            } else {
                0int
            }) - (if s == os {
                1int
            } else {
                0int
            })
        &&& forall|s: int|
            0 <= s < pre.num_segments() ==> #[trigger] post.seg_live_bytes(s)
                == pre.seg_live_bytes(s) + (if s == ns {
                entry_len(k, v)
            } else {
                0int
            }) - (if s == os {
                olen
            } else {
                0int
            })
    } else {
        &&& forall|s: int|
            0 <= s < pre.num_segments() ==> #[trigger] post.seg_live_objects(s)
                == pre.seg_live_objects(s) + (if s == ns {
                1int
            } else {
                0int
            })
        &&& forall|s: int|
            0 <= s < pre.num_segments() ==> #[trigger] post.seg_live_bytes(s)
                == pre.seg_live_bytes(s) + (if s == ns {
                entry_len(k, v)
            } else {
                0int
            })
    }
}

/// What a successful write of `k`/`v` leaves behind: `k` is live with
/// payload `v`, every other key is untouched, the number of live
/// objects grows only if `k` was new, and the liveness counters move
/// as `put_counters_updated` says.
pub open spec fn put_ok_post(pre: Nibble, post: Nibble, k: Seq<u8>, v: Seq<u8>) -> bool {
    &&& post.wf()
    &&& post.num_segments() == pre.num_segments()
    &&& post.has_key(k)
    &&& post.value_of(k) == v
    &&& post.loc_for(k).seg < post.num_segments()
    &&& post.loc_for(k).len == entry_len(k, v)
    &&& forall|k2: Seq<u8>| #[trigger] post.has_key(k2) == (pre.has_key(k2) || k2 == k)
    &&& forall|k2: Seq<u8>|
        pre.has_key(k2) && k2 != k ==> #[trigger] post.value_of(k2) == pre.value_of(k2)
    &&& post.num_live() == pre.num_live() + (if pre.has_key(k) {
        0int
    } else {
        1int
    })
    &&& (pre.has_key(k) ==> pre.loc_for(k).len == entry_len(k, pre.value_of(k)))
    &&& put_counters_updated(pre, post, k, v)
}

/// What a successful delete of `k` leaves behind: `k` is no longer
/// live, every other key is untouched, and the segment that held
/// `k`'s entry loses one live object and that entry's bytes.
pub open spec fn del_ok_post(pre: Nibble, post: Nibble, k: Seq<u8>) -> bool {
    let os = pre.loc_for(k).seg as int;
    let olen = pre.loc_for(k).len as int;
    &&& post.wf()
    &&& post.num_segments() == pre.num_segments()
    &&& !post.has_key(k)
    &&& forall|k2: Seq<u8>| k2 != k ==> #[trigger] post.has_key(k2) == pre.has_key(k2)
    &&& forall|k2: Seq<u8>|
        pre.has_key(k2) && k2 != k ==> #[trigger] post.value_of(k2) == pre.value_of(k2)
    &&& post.num_live() == pre.num_live() - 1
    &&& pre.loc_for(k).len == entry_len(k, pre.value_of(k))
    &&& forall|s: int|
        0 <= s < pre.num_segments() ==> #[trigger] post.seg_live_objects(s)
            == pre.seg_live_objects(s) - (if s == os {
            1int
        } else {
            0int
        })
    &&& forall|s: int|
        0 <= s < pre.num_segments() ==> #[trigger] post.seg_live_bytes(s) == pre.seg_live_bytes(s)
            - (if s == os {
            olen
        } else {
            0int
        })
}

/// A live entry records exactly the size of its key and payload.
proof fn lemma_entry_size(m: SegmentManager, k: Seq<u8>, loc: Location)
    requires
        live_entry_for(m, k, loc),
    ensures
        loc.len == entry_len(k, payload_at(m, loc, k.len() as int)),
{
    let p = payload_at(m, loc, k.len() as int);
    assert(entry_at(m, loc).len() == loc.len);
    assert(entry_bytes_of(k, p).len() == entry_len(k, p));
}

/// A store whose segment data and counters are untouched keeps its
/// invariant and its observable views.
proof fn lemma_wf_after_err(pre: Nibble, post: Nibble)
    requires
        pre.wf(),
        post.index == pre.index,
        log_wf(post.log, post.manager),
        post.manager.segments@.len() == pre.manager.segments@.len(),
        append_err_frame(pre.manager, post.manager),
    ensures
        post.wf(),
        views_preserved(pre, post),
{
    assert forall|j: int| 0 <= j < post.entries().len() implies live_entry_for(
        post.manager,
        (#[trigger] post.entries()[j]).0@,
        post.entries()[j].1,
    ) by {
        let kj = pre.entries()[j].0@;
        let loc = pre.entries()[j].1;
        assert(live_entry_for(pre.manager, kj, loc));
        assert(post.manager.segments@[loc.seg as int].data@
            == pre.manager.segments@[loc.seg as int].data@);
        lemma_live_entry_stable(pre.manager, post.manager, kj, loc);
    }
    assert forall|k: Seq<u8>| pre.has_key(k) implies #[trigger] post.value_of(k) == pre.value_of(
        k,
    ) by {
        let j = key_index(pre.entries(), k);
        assert(0 <= j < pre.entries().len() && pre.entries()[j].0@ == k);
        let loc = pre.entries()[j].1;
        assert(live_entry_for(pre.manager, k, loc));
        assert(post.manager.segments@[loc.seg as int].data@
            == pre.manager.segments@[loc.seg as int].data@);
    }
}

/// After a successful append, every previously indexed entry is still
/// live and unchanged, and every previous entry in the receiving
/// segment lies wholly below the new entry's offset.
proof fn lemma_entries_stable_after_append(
    pre: Nibble,
    m1: SegmentManager,
    l1: Log,
    k: Seq<u8>,
    v: Seq<u8>,
    va: Location,
)
    requires
        pre.wf(),
        m1.segments@.len() == pre.manager.segments@.len(),
        append_ok_post(pre.manager, m1, l1, k, v, va),
    ensures
        forall|j: int|
            0 <= j < pre.entries().len() ==> live_entry_for(
                m1,
                (#[trigger] pre.entries()[j]).0@,
                pre.entries()[j].1,
            ) && payload_at(m1, pre.entries()[j].1, pre.entries()[j].0@.len() as int) == payload_at(
                pre.manager,
                pre.entries()[j].1,
                pre.entries()[j].0@.len() as int,
            ),
        forall|j: int|
            0 <= j < pre.entries().len() && (#[trigger] pre.entries()[j]).1.seg == va.seg
                ==> pre.entries()[j].1.off + pre.entries()[j].1.len <= va.off,
{
    assert forall|j: int| 0 <= j < pre.entries().len() implies live_entry_for(
        m1,
        (#[trigger] pre.entries()[j]).0@,
        pre.entries()[j].1,
    ) && payload_at(m1, pre.entries()[j].1, pre.entries()[j].0@.len() as int) == payload_at(
        pre.manager,
        pre.entries()[j].1,
        pre.entries()[j].0@.len() as int,
    ) && (pre.entries()[j].1.seg == va.seg ==> pre.entries()[j].1.off + pre.entries()[j].1.len
        <= va.off) by {
        let kj = pre.entries()[j].0@;
        let loc = pre.entries()[j].1;
        assert(live_entry_for(pre.manager, kj, loc));
        if loc.seg == va.seg {
            lemma_subrange_extend(
                pre.manager.segments@[loc.seg as int].data@,
                entry_bytes_of(k, v),
                loc.off as int,
                loc.off + loc.len,
            );
        }
        lemma_live_entry_stable(pre.manager, m1, kj, loc);
    }
}

/// Re-establishes the store invariant and the write contract when the
/// key was new: the index grew by one entry pointing at the appended
/// record.
proof fn lemma_put_new_key(pre: Nibble, post: Nibble, k: Seq<u8>, v: Seq<u8>, va: Location)
    requires
        pre.wf(),
        !pre.has_key(k),
        post.manager.segments@.len() == pre.manager.segments@.len(),
        log_wf(post.log, post.manager),
        append_ok_post(pre.manager, post.manager, post.log, k, v, va),
        keys_unique(post.entries()),
        post.entries().len() == pre.entries().len() + 1,
        post.entries()[pre.entries().len() as int].0@ == k,
        post.entries()[pre.entries().len() as int].1 == va,
        forall|j: int|
            0 <= j < pre.entries().len() ==> #[trigger] post.entries()[j] == pre.entries()[j],
    ensures
        post.wf(),
        put_ok_post(pre, post, k, v),
{
    let e0 = pre.entries();
    let e1 = post.entries();
    let n0 = e0.len() as int;
    lemma_entries_stable_after_append(pre, post.manager, post.log, k, v, va);
    assert(e1 =~= e0.push(e1[n0]));
    lemma_key_index_unique(e1, k, n0);
    assert(post.loc_for(k) == va);
    // every indexed entry is live
    assert forall|j: int| 0 <= j < e1.len() implies live_entry_for(
        post.manager,
        (#[trigger] e1[j]).0@,
        e1[j].1,
    ) by {
        if j < n0 {
            assert(live_entry_for(post.manager, e0[j].0@, e0[j].1));
        }
    }
    // spans stay pairwise disjoint
    assert forall|i: int, j: int|
        0 <= i < e1.len() && 0 <= j < e1.len() && i != j && (#[trigger] e1[i]).1.seg == (
        #[trigger] e1[j]).1.seg implies spans_disjoint(e1[i].1, e1[j].1) by {
        if i < n0 && j < n0 {
            assert(spans_disjoint(e0[i].1, e0[j].1));
        } else if i < n0 {
            assert(e0[i].1.off + e0[i].1.len <= va.off);
        } else {
            assert(e0[j].1.off + e0[j].1.len <= va.off);
        }
    }
    // counters follow the index
    assert forall|s: int| 0 <= s < post.manager.segments@.len() implies (
    #[trigger] post.manager.segments@[s]).live_objects == count_in_seg(e1, s)
        && post.manager.segments@[s].live_bytes == bytes_in_seg(e1, s) by {
        lemma_count_push(e0, e1[n0], s);
        assert(pre.manager.segments@[s].live_objects == count_in_seg(e0, s));
        assert(pre.manager.segments@[s].live_bytes == bytes_in_seg(e0, s));
    }
    // key views
    assert forall|k2: Seq<u8>| #[trigger] post.has_key(k2) == (pre.has_key(k2) || k2 == k) by {
        if post.has_key(k2) {
            let i = key_index(e1, k2);
            assert(0 <= i < e1.len() && e1[i].0@ == k2);
            if i < n0 {
                assert(has_key(e0, k2));
            }
        }
        if pre.has_key(k2) {
            let i = key_index(e0, k2);
            assert(0 <= i < e0.len() && e0[i].0@ == k2);
            assert(e1[i].0@ == k2);
            assert(post.has_key(k2));
        }
        if k2 == k {
            assert(post.has_key(k2));
        }
    }
    assert forall|k2: Seq<u8>| pre.has_key(k2) && k2 != k implies #[trigger] post.value_of(k2)
        == pre.value_of(k2) by {
        let i = key_index(e0, k2);
        assert(0 <= i < e0.len() && e0[i].0@ == k2);
        lemma_key_index_unique(e1, k2, i);
        assert(post.loc_for(k2) == e0[i].1);
        lemma_key_index_unique(e0, k2, i);
        assert(payload_at(post.manager, e0[i].1, k2.len() as int) == payload_at(
            pre.manager,
            e0[i].1,
            k2.len() as int,
        ));
    }
    assert(post.value_of(k) == v);
    assert forall|s: int| 0 <= s < pre.num_segments() implies #[trigger] post.seg_live_objects(s)
        == pre.seg_live_objects(s) + (if s == va.seg as int {
        1int
    } else {
        0int
    }) by {
        lemma_count_push(e0, e1[n0], s);
    }
    assert forall|s: int| 0 <= s < pre.num_segments() implies #[trigger] post.seg_live_bytes(s)
        == pre.seg_live_bytes(s) + (if s == va.seg as int {
        entry_len(k, v)
    } else {
        0int
    }) by {
        lemma_count_push(e0, e1[n0], s);
    }
}

/// Re-establishes the store invariant and the write contract when the
/// key was already live: its index entry was redirected to the new
/// record and the old record was invalidated.
proof fn lemma_put_replace(
    pre: Nibble,
    m1: SegmentManager,
    post: Nibble,
    k: Seq<u8>,
    v: Seq<u8>,
    va: Location,
    ol: Location,
)
    requires
        pre.wf(),
        pre.has_key(k),
        ol == pre.loc_for(k),
        m1.segments@.len() == pre.manager.segments@.len(),
        log_wf(post.log, m1),
        post.manager.wf(),
        append_ok_post(pre.manager, m1, post.log, k, v, va),
        post.manager.segments@.len() == m1.segments@.len(),
        invalidate_ok_post(m1, post.manager, ol),
        keys_unique(post.entries()),
        post.entries().len() == pre.entries().len(),
        post.entries()[key_index(pre.entries(), k)].0@ == k,
        post.entries()[key_index(pre.entries(), k)].1 == va,
        forall|j: int|
            0 <= j < pre.entries().len() && j != key_index(pre.entries(), k)
                ==> #[trigger] post.entries()[j] == pre.entries()[j],
    ensures
        post.wf(),
        put_ok_post(pre, post, k, v),
{
    let e0 = pre.entries();
    let e1 = post.entries();
    let j0 = key_index(e0, k);
    assert(0 <= j0 < e0.len() && e0[j0].0@ == k);
    assert(e0[j0].1 == ol);
    assert forall|s: int| 0 <= s < post.manager.segments@.len() implies ((
    #[trigger] post.manager.segments@[s]).state is Active <==> post.log.head == Some(
        s as usize,
    )) by {
        if s != ol.seg {
            assert(post.manager.segments@[s] == m1.segments@[s]);
        }
        assert(m1.segments@[s].state is Active <==> post.log.head == Some(s as usize));
    }
    assert(log_wf(post.log, post.manager));
    lemma_entries_stable_after_append(pre, m1, post.log, k, v, va);
    assert(e1 =~= e0.update(j0, e1[j0]));
    lemma_key_index_unique(e1, k, j0);
    assert(post.loc_for(k) == va);
    assert(live_entry_for(pre.manager, k, ol));
    lemma_entry_size(pre.manager, k, ol);
    // the dead marker lands outside every still-indexed span
    assert forall|j: int| 0 <= j < e1.len() implies live_entry_for(
        post.manager,
        (#[trigger] e1[j]).0@,
        e1[j].1,
    ) && payload_at(post.manager, e1[j].1, e1[j].0@.len() as int) == payload_at(
        m1,
        e1[j].1,
        e1[j].0@.len() as int,
    ) by {
        let kj = e1[j].0@;
        let loc = e1[j].1;
        assert(live_entry_for(m1, kj, loc));
        if loc.seg == ol.seg {
            if j == j0 {
                // the new entry sits above the old data, the old entry below
                assert(ol.off + ol.len <= va.off);
            } else {
                assert(spans_disjoint(e0[j].1, ol));
            }
            lemma_subrange_update_outside(
                m1.segments@[loc.seg as int].data@,
                ol.off as int,
                crate::codec::VALID_DEAD,
                loc.off as int,
                loc.off + loc.len,
            );
        }
        lemma_live_entry_stable(m1, post.manager, kj, loc);
    }
    // spans stay pairwise disjoint
    assert forall|i: int, j: int|
        0 <= i < e1.len() && 0 <= j < e1.len() && i != j && (#[trigger] e1[i]).1.seg == (
        #[trigger] e1[j]).1.seg implies spans_disjoint(e1[i].1, e1[j].1) by {
        if i != j0 && j != j0 {
            assert(spans_disjoint(e0[i].1, e0[j].1));
        } else if j == j0 {
            assert(e0[i].1.off + e0[i].1.len <= va.off);
        } else {
            assert(e0[j].1.off + e0[j].1.len <= va.off);
        }
    }
    // counters follow the index
    assert forall|s: int| 0 <= s < post.manager.segments@.len() implies (
    #[trigger] post.manager.segments@[s]).live_objects == count_in_seg(e1, s)
        && post.manager.segments@[s].live_bytes == bytes_in_seg(e1, s) by {
        lemma_count_update(e0, j0, e1[j0], s);
        assert(pre.manager.segments@[s].live_objects == count_in_seg(e0, s));
        assert(pre.manager.segments@[s].live_bytes == bytes_in_seg(e0, s));
    }
    // key views
    assert forall|k2: Seq<u8>| #[trigger] post.has_key(k2) == (pre.has_key(k2) || k2 == k) by {
        if post.has_key(k2) {
            let i = key_index(e1, k2);
            assert(0 <= i < e1.len() && e1[i].0@ == k2);
            if i != j0 {
                assert(has_key(e0, k2));
            }
        }
        if pre.has_key(k2) {
            let i = key_index(e0, k2);
            assert(0 <= i < e0.len() && e0[i].0@ == k2);
            if i != j0 {
                assert(e1[i].0@ == k2);
            } else {
                assert(k2 == k);
                assert(e1[j0].0@ == k2);
            }
            assert(post.has_key(k2));
        }
        if k2 == k {
            assert(post.has_key(k2));
        }
    }
    assert forall|k2: Seq<u8>| pre.has_key(k2) && k2 != k implies #[trigger] post.value_of(k2)
        == pre.value_of(k2) by {
        let i = key_index(e0, k2);
        assert(0 <= i < e0.len() && e0[i].0@ == k2);
        assert(i != j0);
        lemma_key_index_unique(e1, k2, i);
        assert(post.loc_for(k2) == e0[i].1);
        lemma_key_index_unique(e0, k2, i);
    }
    assert(post.value_of(k) == v);
    assert forall|s: int| 0 <= s < pre.num_segments() implies #[trigger] post.seg_live_objects(s)
        == pre.seg_live_objects(s) + (if s == va.seg as int {
        1int
    } else {
        0int
    }) - (if s == ol.seg as int {
        1int
    } else {
        0int
    }) by {
        lemma_count_update(e0, j0, e1[j0], s);
    }
    assert forall|s: int| 0 <= s < pre.num_segments() implies #[trigger] post.seg_live_bytes(s)
        == pre.seg_live_bytes(s) + (if s == va.seg as int {
        entry_len(k, v)
    } else {
        0int
    }) - (if s == ol.seg as int {
        ol.len as int
    } else {
        0int
    }) by {
        lemma_count_update(e0, j0, e1[j0], s);
    }
}

/// Re-establishes the store invariant and the delete contract: the
/// key's entry left the index and was invalidated in the log.
proof fn lemma_del(pre: Nibble, post: Nibble, k: Seq<u8>, ol: Location)
    requires
        pre.wf(),
        pre.has_key(k),
        ol == pre.loc_for(k),
        post.log == pre.log,
        post.manager.wf(),
        post.manager.segments@.len() == pre.manager.segments@.len(),
        invalidate_ok_post(pre.manager, post.manager, ol),
        keys_unique(post.entries()),
        post.entries() == pre.entries().remove(key_index(pre.entries(), k)),
    ensures
        post.wf(),
        del_ok_post(pre, post, k),
{
    let e0 = pre.entries();
    let e1 = post.entries();
    let j0 = key_index(e0, k);
    assert(0 <= j0 < e0.len() && e0[j0].0@ == k);
    assert(e0[j0].1 == ol);
    assert(live_entry_for(pre.manager, k, ol));
    lemma_entry_size(pre.manager, k, ol);
    assert forall|s: int| 0 <= s < post.manager.segments@.len() implies ((
    #[trigger] post.manager.segments@[s]).state is Active <==> post.log.head == Some(
        s as usize,
    )) by {
        if s != ol.seg {
            assert(post.manager.segments@[s] == pre.manager.segments@[s]);
        }
        assert(pre.manager.segments@[s].state is Active <==> pre.log.head == Some(s as usize));
    }
    assert(log_wf(post.log, post.manager));
    // each remaining entry is the old entry at a possibly shifted slot
    assert forall|i: int| 0 <= i < e1.len() implies #[trigger] e1[i] == e0[if i < j0 {
        i
    } else {
        i + 1
    }] by {}
    assert forall|i: int| 0 <= i < e1.len() implies live_entry_for(
        post.manager,
        (#[trigger] e1[i]).0@,
        e1[i].1,
    ) && payload_at(post.manager, e1[i].1, e1[i].0@.len() as int) == payload_at(
        pre.manager,
        e1[i].1,
        e1[i].0@.len() as int,
    ) by {
        let i0: int = if i < j0 {
            i
        } else {
            i + 1
        };
        let ki = e0[i0].0@;
        let loc = e0[i0].1;
        assert(live_entry_for(pre.manager, ki, loc));
        if loc.seg == ol.seg {
            assert(spans_disjoint(loc, ol));
            lemma_subrange_update_outside(
                pre.manager.segments@[loc.seg as int].data@,
                ol.off as int,
                crate::codec::VALID_DEAD,
                loc.off as int,
                loc.off + loc.len,
            );
        }
        lemma_live_entry_stable(pre.manager, post.manager, ki, loc);
    }
    assert forall|i: int, j: int|
        0 <= i < e1.len() && 0 <= j < e1.len() && i != j && (#[trigger] e1[i]).1.seg == (
        #[trigger] e1[j]).1.seg implies spans_disjoint(e1[i].1, e1[j].1) by {
        let i0: int = if i < j0 {
            i
        } else {
            i + 1
        };
        let j1: int = if j < j0 {
            j
        } else {
            j + 1
        };
        assert(spans_disjoint(e0[i0].1, e0[j1].1));
    }
    assert forall|s: int| 0 <= s < post.manager.segments@.len() implies (
    #[trigger] post.manager.segments@[s]).live_objects == count_in_seg(e1, s)
        && post.manager.segments@[s].live_bytes == bytes_in_seg(e1, s) by {
        lemma_count_remove(e0, j0, s);
        assert(pre.manager.segments@[s].live_objects == count_in_seg(e0, s));
        assert(pre.manager.segments@[s].live_bytes == bytes_in_seg(e0, s));
    }
    // key views
    assert(!post.has_key(k)) by {
        if post.has_key(k) {
            let i = key_index(e1, k);
            assert(0 <= i < e1.len() && e1[i].0@ == k);
            let i0: int = if i < j0 {
                i
            } else {
                i + 1
            };
            assert(e0[i0].0@ == k && i0 != j0);
            assert(e0[i0].0@ != e0[j0].0@);
        }
    }
    assert forall|k2: Seq<u8>| k2 != k implies #[trigger] post.has_key(k2) == pre.has_key(k2) by {
        if post.has_key(k2) {
            let i = key_index(e1, k2);
            assert(0 <= i < e1.len() && e1[i].0@ == k2);
            assert(has_key(e0, k2));
        }
        if pre.has_key(k2) {
            let i = key_index(e0, k2);
            assert(0 <= i < e0.len() && e0[i].0@ == k2);
            assert(i != j0);
            let i1: int = if i < j0 {
                i
            } else {
                i - 1
            };
            assert(e1[i1].0@ == k2);
            assert(has_key(e1, k2));
        }
    }
    assert forall|k2: Seq<u8>| pre.has_key(k2) && k2 != k implies #[trigger] post.value_of(k2)
        == pre.value_of(k2) by {
        let i = key_index(e0, k2);
        assert(0 <= i < e0.len() && e0[i].0@ == k2);
        assert(i != j0);
        let i1: int = if i < j0 {
            i
        } else {
            i - 1
        };
        assert(e1[i1] == e0[i]);
        lemma_key_index_unique(e1, k2, i1);
        assert(post.loc_for(k2) == e0[i].1);
        lemma_key_index_unique(e0, k2, i);
    }
    assert forall|s: int| 0 <= s < pre.num_segments() implies #[trigger] post.seg_live_objects(s)
        == pre.seg_live_objects(s) - (if s == ol.seg as int {
        1int
    } else {
        0int
    }) by {
        lemma_count_remove(e0, j0, s);
    }
    assert forall|s: int| 0 <= s < pre.num_segments() implies #[trigger] post.seg_live_bytes(s)
        == pre.seg_live_bytes(s) - (if s == ol.seg as int {
        ol.len as int
    } else {
        0int
    }) by {
        lemma_count_remove(e0, j0, s);
    }
}

/// Round trip: a successful write of key `k` with payload `v` leaves
/// `k` live with exactly the payload `v`, so a lookup immediately
/// after it hands back `v` byte for byte.
pub proof fn lemma_round_trip(pre: Nibble, post: Nibble, k: Seq<u8>, v: Seq<u8>)
    requires
        put_ok_post(pre, post, k, v),
    ensures
        post.has_key(k),
        post.value_of(k) == v,
{
}

/// Single writer wins: after any run of successful sequential writes
/// to one key, a lookup sees the payload of the last write, and the
/// key accounts for exactly one live object — not one per write.
pub proof fn lemma_single_writer_wins(states: Seq<Nibble>, k: Seq<u8>, vals: Seq<Seq<u8>>)
    requires
        states.len() == vals.len() + 1,
        vals.len() >= 1,
        forall|i: int|
            0 <= i < vals.len() ==> put_ok_post(#[trigger] states[i], states[i + 1], k, vals[i]),
    ensures
        states.last().has_key(k),
        states.last().value_of(k) == vals.last(),
        states.last().num_live() == states[0].num_live() + (if states[0].has_key(k) {
            0int
        } else {
            1int
        }),
    decreases vals.len(),
{
    let n = vals.len() as int;
    assert(put_ok_post(states[n - 1], states[n], k, vals[n - 1]));
    if n > 1 {
        assert forall|i: int|
            0 <= i < vals.drop_last().len() implies put_ok_post(
            #[trigger] states.drop_last()[i],
            states.drop_last()[i + 1],
            k,
            vals.drop_last()[i],
        ) by {
            assert(put_ok_post(states[i], states[i + 1], k, vals[i]));
        }
        lemma_single_writer_wins(states.drop_last(), k, vals.drop_last());
        assert(states.drop_last().last() == states[n - 1]);
        assert(states[n - 1].has_key(k));
    }
}

/// Invalidation accounting: writing key `k` with payload `v1` and
/// then with payload `v2` books exactly one invalidation against the
/// segment that held `v1`'s entry — its live-object count drops by
/// one and its live bytes drop by `v1`'s encoded entry size — net of
/// the one new object the second write adds if it lands in the same
/// segment.
pub proof fn lemma_invalidation_accounting(
    s0: Nibble,
    s1: Nibble,
    s2: Nibble,
    k: Seq<u8>,
    v1: Seq<u8>,
    v2: Seq<u8>,
)
    requires
        put_ok_post(s0, s1, k, v1),
        put_ok_post(s1, s2, k, v2),
    ensures
        ({
            let g = s1.loc_for(k).seg as int;
            let g2 = s2.loc_for(k).seg as int;
            &&& s1.loc_for(k).len == entry_len(k, v1)
            &&& s2.seg_live_objects(g) == s1.seg_live_objects(g) - 1 + (if g2 == g {
                1int
            } else {
                0int
            })
            &&& s2.seg_live_bytes(g) == s1.seg_live_bytes(g) - entry_len(k, v1) + (if g2 == g {
                entry_len(k, v2)
            } else {
                0int
            })
        }),
{
    assert(s1.has_key(k));
    assert(s1.value_of(k) == v1);
    assert(s1.loc_for(k).len == entry_len(k, v1));
}

/// Under matching counters, the segment counters sum to the
/// per-segment counts of the index.
proof fn lemma_total_eq_sum(segs: Seq<Segment>, entries: Seq<(Vec<u8>, Location)>)
    requires
        forall|s: int|
            0 <= s < segs.len() ==> (#[trigger] segs[s]).live_objects == count_in_seg(entries, s),
    ensures
        total_live_objects(segs) == sum_counts(entries, segs.len() as int),
    decreases segs.len(),
{
    if segs.len() > 0 {
        assert forall|s: int| 0 <= s < segs.drop_last().len() implies (
        #[trigger] segs.drop_last()[s]).live_objects == count_in_seg(entries, s) by {
            assert(segs.drop_last()[s] == segs[s]);
        }
        lemma_total_eq_sum(segs.drop_last(), entries);
        assert(segs.last().live_objects == count_in_seg(entries, segs.len() - 1));
    }
}

} // verus!
