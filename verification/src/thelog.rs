//! The append-only log: serialization of new entries into the active
//! segment, rollover to fresh segments, and in-place invalidation of
//! superseded entries.
//!
//! The log's only mutation primitives are appending at the active
//! segment's write cursor and flipping an entry's validity marker,
//! which never changes an entry's size or offset: the log stays
//! linearly scannable.

use vstd::prelude::*;

use crate::codec::{encode, entry_bytes, entry_len, encodable, lemma_entry_bytes_parts,
    lemma_u32_le_roundtrip, read_u32_le, u32_from_le, u32_le, HEADER_SIZE, VALID_DEAD, VALID_LIVE};
use crate::common::{ErrorCode, ObjDesc, Status};
use crate::index::Location;
use crate::segment::{SegState, SegmentManager};

verus! {

/// The byte image of the record at `loc`.
pub open spec fn entry_at(mgr: SegmentManager, loc: Location) -> Seq<u8> {
    mgr.segments@[loc.seg as int].data@.subrange(loc.off as int, loc.off + loc.len)
}

/// The payload bytes of the record at `loc`, whose key is `klen` bytes
/// long.
pub open spec fn payload_at(mgr: SegmentManager, loc: Location, klen: int) -> Seq<u8> {
    mgr.segments@[loc.seg as int].data@.subrange(
        loc.off + HEADER_SIZE + klen,
        loc.off + loc.len,
    )
}

/// The record at `loc` is a live, well-formed entry carrying `key`.
pub open spec fn live_entry_for(mgr: SegmentManager, key: Seq<u8>, loc: Location) -> bool {
    &&& loc.seg < mgr.segments@.len()
    &&& !(mgr.segments@[loc.seg as int].state is Free)
    &&& loc.off + loc.len <= mgr.segments@[loc.seg as int].data@.len()
    &&& HEADER_SIZE + key.len() <= loc.len
    &&& key.len() <= u32::MAX
    &&& loc.len - HEADER_SIZE - key.len() <= u32::MAX
    &&& entry_at(mgr, loc) == entry_bytes(VALID_LIVE, key, payload_at(mgr, loc, key.len() as int))
}

/// What invalidation checks of the record at `loc`: the header is
/// consistent with the location and the entry is still marked live.
pub open spec fn valid_entry_at(mgr: SegmentManager, loc: Location) -> bool {
    &&& loc.seg < mgr.segments@.len()
    &&& !(mgr.segments@[loc.seg as int].state is Free)
    &&& HEADER_SIZE <= loc.len
    &&& loc.off + loc.len <= mgr.segments@[loc.seg as int].data@.len()
    &&& ({
        let d = mgr.segments@[loc.seg as int].data@;
        &&& d[loc.off as int] == VALID_LIVE
        &&& HEADER_SIZE + u32_from_le(
            d[loc.off + 1],
            d[loc.off + 2],
            d[loc.off + 3],
            d[loc.off + 4],
        ) + u32_from_le(d[loc.off + 5], d[loc.off + 6], d[loc.off + 7], d[loc.off + 8])
            == loc.len
    })
}

/// A live, well-formed entry passes the invalidation checks, and its
/// header fields decode to its key and payload lengths.
pub proof fn lemma_live_entry_valid(mgr: SegmentManager, key: Seq<u8>, loc: Location)
    requires
        live_entry_for(mgr, key, loc),
    ensures
        valid_entry_at(mgr, loc),
        ({
            let d = mgr.segments@[loc.seg as int].data@;
            &&& u32_from_le(d[loc.off + 1], d[loc.off + 2], d[loc.off + 3], d[loc.off + 4])
                == key.len()
            &&& u32_from_le(d[loc.off + 5], d[loc.off + 6], d[loc.off + 7], d[loc.off + 8])
                == loc.len - HEADER_SIZE - key.len()
        }),
{
    let d = mgr.segments@[loc.seg as int].data@;
    let p = payload_at(mgr, loc, key.len() as int);
    let eb = entry_bytes(VALID_LIVE, key, p);
    lemma_entry_bytes_parts(VALID_LIVE, key, p);
    assert forall|i: int| 0 <= i < loc.len implies d[loc.off + i] == eb[i] by {
        assert(entry_at(mgr, loc)[i] == d[loc.off + i]);
    }
    let kl = key.len() as u32;
    let dl = p.len() as u32;
    lemma_u32_le_roundtrip(kl);
    lemma_u32_le_roundtrip(dl);
    assert(d[loc.off + 1] == u32_le(kl)[0]);
    assert(d[loc.off + 2] == u32_le(kl)[1]);
    assert(d[loc.off + 3] == u32_le(kl)[2]);
    assert(d[loc.off + 4] == u32_le(kl)[3]);
    assert(d[loc.off + 5] == u32_le(dl)[0]);
    assert(d[loc.off + 6] == u32_le(dl)[1]);
    assert(d[loc.off + 7] == u32_le(dl)[2]);
    assert(d[loc.off + 8] == u32_le(dl)[3]);
}

/// Appending to a byte sequence leaves every existing range of it
/// unchanged.
pub proof fn lemma_subrange_extend(d: Seq<u8>, e: Seq<u8>, a: int, b: int)
    requires
        0 <= a <= b <= d.len(),
    ensures
        (d + e).subrange(a, b) == d.subrange(a, b),
{
    assert((d + e).subrange(a, b) =~= d.subrange(a, b));
}

/// Updating a byte outside a range leaves that range unchanged.
pub proof fn lemma_subrange_update_outside(d: Seq<u8>, p: int, v: u8, a: int, b: int)
    requires
        0 <= a <= b <= d.len(),
        0 <= p < d.len(),
        p < a || b <= p,
    ensures
        d.update(p, v).subrange(a, b) == d.subrange(a, b),
{
    assert(d.update(p, v).subrange(a, b) =~= d.subrange(a, b));
}

/// A live entry survives any change of the segment table that keeps
/// its byte span, keeps its segment out of the `Free` state, and does
/// not shrink its segment below the span.
pub proof fn lemma_live_entry_stable(
    m0: SegmentManager,
    m1: SegmentManager,
    key: Seq<u8>,
    loc: Location,
)
    requires
        live_entry_for(m0, key, loc),
        loc.seg < m1.segments@.len(),
        !(m1.segments@[loc.seg as int].state is Free),
        loc.off + loc.len <= m1.segments@[loc.seg as int].data@.len(),
        m1.segments@[loc.seg as int].data@.subrange(loc.off as int, loc.off + loc.len)
            == m0.segments@[loc.seg as int].data@.subrange(loc.off as int, loc.off + loc.len),
    ensures
        live_entry_for(m1, key, loc),
        payload_at(m1, loc, key.len() as int) == payload_at(m0, loc, key.len() as int),
{
    assert(entry_at(m1, loc) == entry_at(m0, loc));
    assert(payload_at(m1, loc, key.len() as int) =~= entry_at(m1, loc).subrange(
        HEADER_SIZE + key.len(),
        loc.len as int,
    ));
    assert(payload_at(m0, loc, key.len() as int) =~= entry_at(m0, loc).subrange(
        HEADER_SIZE + key.len(),
        loc.len as int,
    ));
}

/// Whether the active segment (if any) lacks room for an entry of
/// `elen` bytes, so that the next append must roll over to a fresh
/// segment.
pub open spec fn needs_rollover(log: Log, mgr: SegmentManager, elen: int) -> bool {
    match log.head {
        Some(h) => mgr.segments@[h as int].data@.len() + elen > mgr.segment_size,
        None => true,
    }
}

/// Whether some segment is still free for allocation.
pub open spec fn has_free_segment(mgr: SegmentManager) -> bool {
    exists|j: int| 0 <= j < mgr.segments@.len() && (#[trigger] mgr.segments@[j]).state is Free
}

/// What a successful append leaves behind: the entry stands at `loc`
/// in the (now) active segment, that segment's liveness counters have
/// grown by one object and `loc.len` bytes, no other segment's data or
/// counters changed, and no segment left the `Free` state except the
/// one the entry may have been placed in.
pub open spec fn append_ok_post(
    pre: SegmentManager,
    post: SegmentManager,
    post_log: Log,
    key: Seq<u8>,
    value: Seq<u8>,
    loc: Location,
) -> bool {
    &&& loc.seg < pre.segments@.len()
    &&& loc.len == entry_len(key, value)
    &&& loc.off == pre.segments@[loc.seg as int].data@.len()
    &&& post_log.head == Some(loc.seg)
    &&& post.segments@[loc.seg as int].data@ == pre.segments@[loc.seg as int].data@ + entry_bytes(
        VALID_LIVE,
        key,
        value,
    )
    &&& forall|s: int|
        0 <= s < pre.segments@.len() && s != loc.seg ==> (#[trigger] post.segments@[s]).data@
            == pre.segments@[s].data@
    &&& forall|s: int|
        0 <= s < pre.segments@.len() ==> (#[trigger] post.segments@[s]).live_objects
            == pre.segments@[s].live_objects + (if s == loc.seg {
            1int
        } else {
            0int
        })
    &&& forall|s: int|
        0 <= s < pre.segments@.len() ==> (#[trigger] post.segments@[s]).live_bytes
            == pre.segments@[s].live_bytes + (if s == loc.seg {
            loc.len as int
        } else {
            0int
        })
    &&& forall|s: int|
        0 <= s < pre.segments@.len() ==> ((#[trigger] post.segments@[s]).state is Free ==> pre.segments@[s].state is Free)
    &&& live_entry_for(post, key, loc)
    &&& payload_at(post, loc, key.len() as int) == value
}

/// What a failed append leaves behind: no segment's data or counters
/// changed, and no segment changed to or from `Free` (at most the
/// active segment was closed).
pub open spec fn append_err_frame(pre: SegmentManager, post: SegmentManager) -> bool {
    forall|s: int|
        0 <= s < pre.segments@.len() ==> (#[trigger] post.segments@[s]).data@
            == pre.segments@[s].data@ && post.segments@[s].live_objects
            == pre.segments@[s].live_objects && post.segments@[s].live_bytes
            == pre.segments@[s].live_bytes && (post.segments@[s].state is Free
            <==> pre.segments@[s].state is Free)
}

/// The append-only sequence of segments. `head` names the single
/// `Active` segment currently receiving appends, if any.
pub struct Log {
    pub head: Option<usize>,
}

/// The log agrees with the segment table: exactly the segment named by
/// `head` is `Active`.
pub open spec fn log_wf(log: Log, mgr: SegmentManager) -> bool {
    &&& mgr.wf()
    &&& (log.head matches Some(h) ==> h < mgr.segments@.len())
    &&& forall|s: int|
        0 <= s < mgr.segments@.len() ==> ((#[trigger] mgr.segments@[s]).state is Active <==> log.head
            == Some(s as usize))
}

impl Log {
    pub fn new() -> (r: Log)
        ensures
            r.head is None,
    {
        Log { head: None }
    }

    /// Encodes the descriptor and writes it at the active segment's
    /// write cursor, rolling over to a freshly allocated segment when
    /// the active one lacks room. Returns the new entry's location.
    ///
    /// Fails with `EncodingError` exactly when the entry exceeds the
    /// size limits or could not fit even an empty segment, and with
    /// `OutOfSegments` exactly when a rollover is needed but no
    /// segment is free.
    pub fn append(&mut self, mgr: &mut SegmentManager, desc: &ObjDesc) -> (r: Result<
        Location,
        ErrorCode,
    >)
        requires
            log_wf(*old(self), *old(mgr)),
        ensures
            log_wf(*final(self), *final(mgr)),
            final(mgr).segment_size == old(mgr).segment_size,
            final(mgr).segments@.len() == old(mgr).segments@.len(),
            r is Ok <==> (appendable(desc.key@, desc.value@, old(mgr).segment_size as int) && (
            !needs_rollover(*old(self), *old(mgr), entry_len(desc.key@, desc.value@))
                || has_free_segment(*old(mgr)))),
            r matches Err(e) ==> e == (if !appendable(
                desc.key@,
                desc.value@,
                old(mgr).segment_size as int,
            ) {
                ErrorCode::EncodingError
            } else {
                ErrorCode::OutOfSegments
            }),
            r is Err ==> append_err_frame(*old(mgr), *final(mgr)),
            r matches Ok(loc) ==> append_ok_post(
                *old(mgr),
                *final(mgr),
                *final(self),
                desc.key@,
                desc.value@,
                loc,
            ),
    {
        let encoded = match encode(desc) {
            Err(e) => {
                return Err(e);
            },
            Ok(b) => b,
        };
        let elen = encoded.len();
        if elen > mgr.segment_size {
            return Err(ErrorCode::EncodingError);
        }
        let nseg = mgr.segments.len();
        let mut target: usize = 0;
        let mut have: bool = false;
        match self.head {
            Some(h) => {
                let used = mgr.segments[h].data.len();
                if elen <= mgr.segment_size - used {
                    target = h;
                    have = true;
                } else {
                    mgr.close_segment(h);
                    self.head = None;
                    proof {
                        assert forall|s: int| 0 <= s < mgr.segments@.len() implies !((
                        #[trigger] mgr.segments@[s]).state is Active) by {
                            assert(s < nseg);
                            if s != h {
                                assert(old(mgr).segments@[s].state is Active <==> old(self).head
                                    == Some(s as usize));
                            }
                        }
                    }
                }
            },
            None => {},
        }
        if !have {
            match mgr.allocate_segment() {
                Err(_) => {
                    proof {
                        assert(log_wf(*self, *mgr));
                    }
                    return Err(ErrorCode::OutOfSegments);
                },
                Ok(j) => {
                    self.head = Some(j);
                    target = j;
                },
            }
        }
        proof {
            assert forall|s: int| 0 <= s < mgr.segments@.len() implies ((
            #[trigger] mgr.segments@[s]).state is Active <==> self.head == Some(s as usize)) by {
                assert(s < nseg);
                if s != target {
                    assert(old(mgr).segments@[s].state is Active <==> old(self).head == Some(
                        s as usize,
                    ));
                }
            }
        }
        let ghost pre_data = mgr.segments@[target as int].data@;
        let off = mgr.append_entry(target, &encoded);
        let loc = Location { seg: target, off, len: elen };
        proof {
            let key = desc.key@;
            let value = desc.value@;
            let eb = entry_bytes(VALID_LIVE, key, value);
            lemma_entry_bytes_parts(VALID_LIVE, key, value);
            let d = mgr.segments@[target as int].data@;
            assert(d == pre_data + eb);
            assert(entry_at(*mgr, loc) =~= eb);
            assert(payload_at(*mgr, loc, key.len() as int) =~= eb.subrange(
                HEADER_SIZE + key.len(),
                elen as int,
            ));
        }
        Ok(loc)
    }

    /// Reads the header at `loc`, checks it is consistent with the
    /// location and still marked live, flips the validity marker to
    /// "dead" and books the invalidation against the owning segment's
    /// liveness counters.
    ///
    /// Fails with `CorruptEntry` exactly when the header checks fail:
    /// a sign that the index and log diverged, treated as fatal by the
    /// store.
    pub fn invalidate_entry(&self, mgr: &mut SegmentManager, loc: Location) -> (r: Status)
        requires
            old(mgr).wf(),
            valid_entry_at(*old(mgr), loc) ==> 1 <= old(mgr).segments@[loc.seg as int].live_objects
                && loc.len <= old(mgr).segments@[loc.seg as int].live_bytes,
        ensures
            final(mgr).wf(),
            final(mgr).segment_size == old(mgr).segment_size,
            final(mgr).segments@.len() == old(mgr).segments@.len(),
            r is Ok <==> valid_entry_at(*old(mgr), loc),
            r matches Err(e) ==> e == ErrorCode::CorruptEntry && *final(mgr) == *old(mgr),
            r is Ok ==> invalidate_ok_post(*old(mgr), *final(mgr), loc),
    {
        if loc.seg >= mgr.segments.len() {
            return Err(ErrorCode::CorruptEntry);
        }
        if matches!(mgr.segments[loc.seg].state, SegState::Free) {
            return Err(ErrorCode::CorruptEntry);
        }
        if loc.len < HEADER_SIZE {
            return Err(ErrorCode::CorruptEntry);
        }
        let dlen_seg = mgr.segments[loc.seg].data.len();
        if loc.off > dlen_seg || loc.len > dlen_seg - loc.off {
            return Err(ErrorCode::CorruptEntry);
        }
        let valid = mgr.segments[loc.seg].data[loc.off];
        if valid != VALID_LIVE {
            return Err(ErrorCode::CorruptEntry);
        }
        let klen = read_u32_le(&mgr.segments[loc.seg].data, loc.off + 1);
        let dlen = read_u32_le(&mgr.segments[loc.seg].data, loc.off + 5);
        let body = loc.len - HEADER_SIZE;
        if klen as usize > body {
            return Err(ErrorCode::CorruptEntry);
        }
        if dlen as usize != body - klen as usize {
            return Err(ErrorCode::CorruptEntry);
        }
        mgr.mark_dead(loc.seg, loc.off);
        mgr.record_invalidation(loc.seg, loc.len);
        Ok(1)
    }
}

/// What a successful invalidation leaves behind: the entry's validity
/// marker is flipped to "dead", the owning segment's counters drop by
/// one object and `loc.len` bytes, and every other segment is
/// untouched.
pub open spec fn invalidate_ok_post(pre: SegmentManager, post: SegmentManager, loc: Location) -> bool {
    &&& post.segments@[loc.seg as int].data@ == pre.segments@[loc.seg as int].data@.update(
        loc.off as int,
        VALID_DEAD,
    )
    &&& post.segments@[loc.seg as int].state == pre.segments@[loc.seg as int].state
    &&& post.segments@[loc.seg as int].live_objects == pre.segments@[loc.seg as int].live_objects
        - 1
    &&& post.segments@[loc.seg as int].live_bytes == pre.segments@[loc.seg as int].live_bytes
        - loc.len
    &&& forall|s: int|
        0 <= s < pre.segments@.len() && s != loc.seg ==> (#[trigger] post.segments@[s])
            == pre.segments@[s]
}

/// Whether a descriptor with this key and payload can be stored at
/// all: it passes the codec's limits and its encoded entry fits one
/// segment.
pub open spec fn appendable(key: Seq<u8>, value: Seq<u8>, segment_size: int) -> bool {
    encodable(key, value) && entry_len(key, value) <= segment_size
}

} // verus!
