//! The self-describing entry format of the log.
//!
//! Every record is `header + key bytes + payload bytes`, where the
//! fixed-size header holds a validity marker and the two lengths, so a
//! segment can be scanned linearly without external metadata.

use vstd::prelude::*;

use crate::common::{ErrorCode, ObjDesc};

verus! {

/// Bytes of the fixed header: one validity marker plus two
/// little-endian 32-bit lengths (key, payload).
pub const HEADER_SIZE: usize = 9;

/// Largest admitted key, in bytes.
pub const MAX_KEY_LEN: usize = 65535;

/// Largest admitted payload, in bytes. Together with `MAX_KEY_LEN` it
/// keeps every encoded entry within a single segment.
pub const MAX_VALUE_LEN: usize = 524288;

/// Validity marker of a live entry.
pub const VALID_LIVE: u8 = 1;

/// Validity marker of an invalidated (dead) entry.
pub const VALID_DEAD: u8 = 0;

/// The four little-endian bytes of a 32-bit value.
pub open spec fn u32_le(v: u32) -> Seq<u8> {
    seq![
        (v & 0xff) as u8,
        ((v >> 8) & 0xff) as u8,
        ((v >> 16) & 0xff) as u8,
        ((v >> 24) & 0xff) as u8,
    ]
}

/// The 32-bit value read back from four little-endian bytes.
pub open spec fn u32_from_le(b0: u8, b1: u8, b2: u8, b3: u8) -> u32 {
    (b0 as u32) | ((b1 as u32) << 8) | ((b2 as u32) << 16) | ((b3 as u32) << 24)
}

/// Total encoded size of an entry with the given key and payload.
pub open spec fn entry_len(key: Seq<u8>, value: Seq<u8>) -> int {
    HEADER_SIZE + key.len() + value.len()
}

/// Whether a descriptor's sizes are admitted by the codec.
pub open spec fn encodable(key: Seq<u8>, value: Seq<u8>) -> bool {
    key.len() <= MAX_KEY_LEN && value.len() <= MAX_VALUE_LEN
}

/// The full byte image of an entry: validity marker, key length,
/// payload length, key bytes, payload bytes.
pub open spec fn entry_bytes(valid: u8, key: Seq<u8>, value: Seq<u8>) -> Seq<u8> {
    seq![valid] + u32_le(key.len() as u32) + u32_le(value.len() as u32) + key + value
}

/// Decoding the four little-endian bytes of a value yields the value
/// back.
pub proof fn lemma_u32_le_roundtrip(v: u32)
    ensures
        u32_from_le(u32_le(v)[0], u32_le(v)[1], u32_le(v)[2], u32_le(v)[3]) == v,
{
    let b0 = (v & 0xff) as u8;
    let b1 = ((v >> 8) & 0xff) as u8;
    let b2 = ((v >> 16) & 0xff) as u8;
    let b3 = ((v >> 24) & 0xff) as u8;
    assert((b0 as u32) | ((b1 as u32) << 8) | ((b2 as u32) << 16) | ((b3 as u32) << 24) == v)
        by (bit_vector)
        requires
            b0 == (v & 0xff) as u8,
            b1 == ((v >> 8) & 0xff) as u8,
            b2 == ((v >> 16) & 0xff) as u8,
            b3 == ((v >> 24) & 0xff) as u8,
    ;
}

/// How an entry's byte image decomposes into marker, length fields,
/// key and payload.
pub proof fn lemma_entry_bytes_parts(valid: u8, key: Seq<u8>, value: Seq<u8>)
    ensures
        entry_bytes(valid, key, value).len() == entry_len(key, value),
        entry_bytes(valid, key, value)[0] == valid,
        entry_bytes(valid, key, value).subrange(1, 5) == u32_le(key.len() as u32),
        entry_bytes(valid, key, value).subrange(5, 9) == u32_le(value.len() as u32),
        entry_bytes(valid, key, value).subrange(9, 9 + key.len() as int) == key,
        entry_bytes(valid, key, value).subrange(
            9 + key.len() as int,
            entry_len(key, value),
        ) == value,
{
    let eb = entry_bytes(valid, key, value);
    assert(eb.subrange(1, 5) =~= u32_le(key.len() as u32));
    assert(eb.subrange(5, 9) =~= u32_le(value.len() as u32));
    assert(eb.subrange(9, 9 + key.len() as int) =~= key);
    assert(eb.subrange(9 + key.len() as int, entry_len(key, value)) =~= value);
}

/// Appends the four little-endian bytes of `v` to `out`.
pub fn push_u32_le(out: &mut Vec<u8>, v: u32)
    requires
        old(out)@.len() + 4 <= usize::MAX,
    ensures
        final(out)@ == old(out)@ + u32_le(v),
{
    proof {
        assert(v & 0xff < 256 && (v >> 8) & 0xff < 256 && (v >> 16) & 0xff < 256 && (v >> 24)
            & 0xff < 256) by (bit_vector);
    }
    out.push((v & 0xff) as u8);
    out.push(((v >> 8) & 0xff) as u8);
    out.push(((v >> 16) & 0xff) as u8);
    out.push(((v >> 24) & 0xff) as u8);
    proof {
        assert(out@ =~= old(out)@ + u32_le(v));
    }
}

/// Serializes a descriptor into the byte image of a live entry, or
/// reports `EncodingError` exactly when a size limit is exceeded.
pub fn encode(desc: &ObjDesc) -> (r: Result<Vec<u8>, ErrorCode>)
    ensures
        r is Ok <==> encodable(desc.key@, desc.value@),
        r matches Ok(bytes) ==> bytes@ == entry_bytes(VALID_LIVE, desc.key@, desc.value@),
        r matches Ok(bytes) ==> bytes@.len() == entry_len(desc.key@, desc.value@),
        r matches Err(e) ==> e == ErrorCode::EncodingError,
{
    if desc.key.len() > MAX_KEY_LEN || desc.value.len() > MAX_VALUE_LEN {
        return Err(ErrorCode::EncodingError);
    }
    let mut out: Vec<u8> = Vec::new();
    out.push(VALID_LIVE);
    push_u32_le(&mut out, desc.key.len() as u32);
    push_u32_le(&mut out, desc.value.len() as u32);
    let ghost header = seq![VALID_LIVE] + u32_le(desc.key@.len() as u32) + u32_le(
        desc.value@.len() as u32,
    );
    assert(out@ =~= header);
    let mut i: usize = 0;
    while i < desc.key.len()
        invariant
            i <= desc.key@.len(),
            out@ == header + desc.key@.subrange(0, i as int),
            desc.key@.len() <= MAX_KEY_LEN,
            desc.value@.len() <= MAX_VALUE_LEN,
        decreases desc.key@.len() - i,
    {
        out.push(desc.key[i]);
        i = i + 1;
        proof {
            assert(out@ =~= header + desc.key@.subrange(0, i as int));
        }
    }
    assert(desc.key@.subrange(0, desc.key@.len() as int) =~= desc.key@);
    let mut j: usize = 0;
    while j < desc.value.len()
        invariant
            j <= desc.value@.len(),
            out@ == header + desc.key@ + desc.value@.subrange(0, j as int),
            desc.key@.len() <= MAX_KEY_LEN,
            desc.value@.len() <= MAX_VALUE_LEN,
        decreases desc.value@.len() - j,
    {
        out.push(desc.value[j]);
        j = j + 1;
        proof {
            assert(out@ =~= header + desc.key@ + desc.value@.subrange(0, j as int));
        }
    }
    assert(desc.value@.subrange(0, desc.value@.len() as int) =~= desc.value@);
    proof {
        assert(out@ =~= entry_bytes(VALID_LIVE, desc.key@, desc.value@));
    }
    Ok(out)
}

/// Fixed-size metadata prepended to every record in the log: the
/// validity marker and the key and payload lengths. The fields fully
/// determine the byte span of the record that follows, so the log is
/// self-describing.
#[derive(Debug)]
pub struct EntryHeader {
    pub valid: u8,
    pub klen: u32,
    pub dlen: u32,
}

impl EntryHeader {
    pub fn getkeylen(&self) -> (r: u32)
        ensures
            r == self.klen,
    {
        self.klen
    }

    pub fn getdatalen(&self) -> (r: u32)
        ensures
            r == self.dlen,
    {
        self.dlen
    }
}

/// Whether the bytes at `off` form a consistent header: a known
/// validity marker, and a record span that lies within the data.
pub open spec fn header_ok(data: Seq<u8>, off: int) -> bool {
    &&& off + HEADER_SIZE <= data.len()
    &&& (data[off] == VALID_LIVE || data[off] == VALID_DEAD)
    &&& off + HEADER_SIZE + u32_from_le(data[off + 1], data[off + 2], data[off + 3], data[off + 4])
        + u32_from_le(data[off + 5], data[off + 6], data[off + 7], data[off + 8]) <= data.len()
}

/// Reads and validates the header at `off`. Fails with `CorruptEntry`
/// exactly when the header itself runs past the end of the data, the
/// validity marker is not a known value, or the record span the
/// header describes runs past the end of the data.
pub fn decode_header(data: &Vec<u8>, off: usize) -> (r: Result<EntryHeader, ErrorCode>)
    ensures
        r is Ok <==> header_ok(data@, off as int),
        r matches Ok(h) ==> {
            &&& h.valid == data@[off as int]
            &&& h.klen == u32_from_le(data@[off + 1], data@[off + 2], data@[off + 3], data@[off + 4])
            &&& h.dlen == u32_from_le(data@[off + 5], data@[off + 6], data@[off + 7], data@[off + 8])
            &&& off + HEADER_SIZE + h.klen + h.dlen <= data@.len()
        },
        r matches Err(e) ==> e == ErrorCode::CorruptEntry,
{
    let n = data.len();
    if off > n || n - off < HEADER_SIZE {
        return Err(ErrorCode::CorruptEntry);
    }
    let valid = data[off];
    if valid != VALID_LIVE && valid != VALID_DEAD {
        return Err(ErrorCode::CorruptEntry);
    }
    let klen = read_u32_le(data, off + 1);
    let dlen = read_u32_le(data, off + 5);
    let rem = n - (off + HEADER_SIZE);
    if klen as usize > rem || dlen as usize > rem - klen as usize {
        return Err(ErrorCode::CorruptEntry);
    }
    Ok(EntryHeader { valid, klen, dlen })
}

/// The byte range of the payload that follows the header at `off`:
/// its start offset and its length.
pub fn payload_span(off: usize, header: &EntryHeader) -> (r: (usize, usize))
    requires
        off + HEADER_SIZE + header.klen + header.dlen <= usize::MAX,
    ensures
        r.0 == off + HEADER_SIZE + header.klen,
        r.1 == header.dlen,
{
    (off + HEADER_SIZE + header.klen as usize, header.dlen as usize)
}

/// Reads the 32-bit little-endian value stored at `off` in `data`.
pub fn read_u32_le(data: &Vec<u8>, off: usize) -> (r: u32)
    requires
        off + 4 <= data@.len(),
    ensures
        r == u32_from_le(data@[off as int], data@[off + 1], data@[off + 2], data@[off + 3]),
{
    let n = data.len();
    let b0 = data[off];
    let b1 = data[off + 1];
    let b2 = data[off + 2];
    let b3 = data[off + 3];
    (b0 as u32) | ((b1 as u32) << 8) | ((b2 as u32) << 16) | ((b3 as u32) << 24)
}

} // verus!
