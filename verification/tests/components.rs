use nibble::codec::{decode_header, encode, payload_span, read_u32_le};
use nibble::common::{ErrorCode, ObjDesc};
use nibble::index::{Index, Location};
use nibble::segment::{SegState, SegmentManager};
use nibble::thelog::Log;

#[test]
fn codec_encodes_self_describing_entry() {
    let desc = ObjDesc::new(vec![0xAB, 0xCD], vec![0x01, 0x02, 0x03]);
    let bytes = encode(&desc).unwrap();
    // validity marker, key length (LE), payload length (LE), key, payload
    assert_eq!(
        bytes,
        vec![1, 2, 0, 0, 0, 3, 0, 0, 0, 0xAB, 0xCD, 0x01, 0x02, 0x03]
    );
}

#[test]
fn codec_rejects_oversized() {
    let too_long_key = ObjDesc::new(vec![0u8; 65536], Vec::new());
    assert_eq!(encode(&too_long_key).unwrap_err(), ErrorCode::EncodingError);
    let too_long_val = ObjDesc::new(Vec::new(), vec![0u8; 524289]);
    assert_eq!(encode(&too_long_val).unwrap_err(), ErrorCode::EncodingError);
}

#[test]
fn codec_header_round_trip() {
    let desc = ObjDesc::new(vec![0xAB, 0xCD], vec![0x01, 0x02, 0x03]);
    let bytes = encode(&desc).unwrap();
    let header = decode_header(&bytes, 0).unwrap();
    assert_eq!(header.valid, 1);
    assert_eq!(header.getkeylen(), 2);
    assert_eq!(header.getdatalen(), 3);
    let (start, len) = payload_span(0, &header);
    assert_eq!(start, 11);
    assert_eq!(len, 3);
    assert_eq!(&bytes[start..start + len], &[0x01, 0x02, 0x03]);
}

#[test]
fn codec_header_rejects_inconsistent() {
    // unknown validity marker
    let bad_marker = vec![7u8, 0, 0, 0, 0, 0, 0, 0, 0];
    assert_eq!(
        decode_header(&bad_marker, 0).unwrap_err(),
        ErrorCode::CorruptEntry
    );
    // span runs past the end of the data
    let bad_span = vec![1u8, 200, 0, 0, 0, 0, 0, 0, 0];
    assert_eq!(
        decode_header(&bad_span, 0).unwrap_err(),
        ErrorCode::CorruptEntry
    );
    // the header itself runs past the end of the data
    let short = vec![1u8, 0, 0, 0];
    assert_eq!(decode_header(&short, 0).unwrap_err(), ErrorCode::CorruptEntry);
    assert_eq!(decode_header(&short, 100).unwrap_err(), ErrorCode::CorruptEntry);
}

#[test]
fn codec_u32_little_endian() {
    let data = vec![0x78, 0x56, 0x34, 0x12];
    assert_eq!(read_u32_le(&data, 0), 0x12345678);
    let data2 = vec![0xFF, 0xFF, 0xFF, 0xFF, 0xFF];
    assert_eq!(read_u32_le(&data2, 1), u32::MAX);
}

#[test]
fn segment_lifecycle_and_exhaustion() {
    let mut mgr = SegmentManager::new(1024, 3 * 1024);
    assert_eq!(mgr.segments.len(), 3);
    let a = mgr.allocate_segment().unwrap();
    assert!(matches!(mgr.segments[a].state, SegState::Active));
    let _b = mgr.allocate_segment().unwrap();
    let _c = mgr.allocate_segment().unwrap();
    assert_eq!(mgr.allocate_segment().unwrap_err(), ErrorCode::OutOfSegments);
    // closing and reclaiming frees the segment for reuse
    mgr.close_segment(a);
    assert!(matches!(mgr.segments[a].state, SegState::Closed));
    mgr.reclaim_segment(a);
    assert!(matches!(mgr.segments[a].state, SegState::Free));
    let d = mgr.allocate_segment().unwrap();
    assert_eq!(d, a);
    assert_eq!(mgr.live_object_count(), 0);
}

#[test]
fn segment_capacity_rounds_down() {
    let mgr = SegmentManager::new(1024, 2500);
    assert_eq!(mgr.segments.len(), 2);
    let none = SegmentManager::new(1024, 1000);
    assert_eq!(none.segments.len(), 0);
}

#[test]
fn index_update_returns_previous_location() {
    let mut idx = Index::new();
    let key = b"a".to_vec();
    assert!(idx.get(&key).is_none());
    let l1 = Location { seg: 0, off: 0, len: 10 };
    assert!(idx.update(key.clone(), l1).is_none());
    let l2 = Location { seg: 1, off: 5, len: 12 };
    let old = idx.update(key.clone(), l2).unwrap();
    assert_eq!(old.seg, 0);
    assert_eq!(old.off, 0);
    assert_eq!(old.len, 10);
    let got = idx.get(&key).unwrap();
    assert_eq!(got.seg, 1);
    assert_eq!(got.off, 5);
    assert_eq!(got.len, 12);
    assert_eq!(idx.len(), 1);
    let rem = idx.remove(&key).unwrap();
    assert_eq!(rem.len, 12);
    assert!(idx.get(&key).is_none());
    assert_eq!(idx.len(), 0);
}

#[test]
fn invalidate_rejects_corrupt_location() {
    let log = Log::new();
    let mut mgr = SegmentManager::new(1024, 1024);
    // the location points into a free segment: nothing live there
    let bogus = Location { seg: 0, off: 0, len: 9 };
    let st = log.invalidate_entry(&mut mgr, bogus);
    assert_eq!(st.unwrap_err(), ErrorCode::CorruptEntry);
    // a location past the segment table is corrupt too
    let out = Location { seg: 5, off: 0, len: 9 };
    assert_eq!(log.invalidate_entry(&mut mgr, out).unwrap_err(), ErrorCode::CorruptEntry);
}
