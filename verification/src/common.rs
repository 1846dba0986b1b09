//! Shared value types of the store: error codes, write descriptors and
//! the owned buffers handed back by reads.

use vstd::prelude::*;

verus! {

/// Outcome kinds of the store's operations.
///
/// `KeyNotExist` and `EncodingError` are ordinary, recoverable results;
/// `OutOfSegments` asks the caller to free space before retrying;
/// `CorruptEntry` reports an internal-consistency breach discovered
/// while decoding a log record.
#[derive(Clone, Copy, PartialEq, Eq, Structural, Debug)]
pub enum ErrorCode {
    KeyNotExist,
    OutOfSegments,
    EncodingError,
    CorruptEntry,
}

/// The result type of mutating store operations.
pub type Status = Result<usize, ErrorCode>;

/// A write request: a key naming the object and the payload bytes to
/// store under it. Transient; built by the caller per call.
pub struct ObjDesc {
    pub key: Vec<u8>,
    pub value: Vec<u8>,
}

impl ObjDesc {
    pub fn new(key: Vec<u8>, value: Vec<u8>) -> (r: ObjDesc)
        ensures
            r.key@ == key@,
            r.value@ == value@,
    {
        ObjDesc { key, value }
    }

    pub fn getkey(&self) -> (r: &Vec<u8>)
        ensures
            r@ == self.key@,
    {
        &self.key
    }
}

/// An owned copy of a byte string.
pub fn copy_bytes(src: &Vec<u8>) -> (r: Vec<u8>)
    ensures
        r@ == src@,
{
    let n = src.len();
    let mut out: Vec<u8> = Vec::new();
    let mut i: usize = 0;
    while i < n
        invariant
            i <= n,
            n == src@.len(),
            out@ == src@.subrange(0, i as int),
        decreases n - i,
    {
        out.push(src[i]);
        i = i + 1;
        proof {
            assert(out@ =~= src@.subrange(0, i as int));
        }
    }
    proof {
        assert(src@.subrange(0, n as int) =~= src@);
    }
    out
}

/// An independently owned copy of a retrieved payload. Its lifetime is
/// decoupled from the log's: the bytes stay valid even if the source
/// segment is later reclaimed.
pub struct Buffer {
    pub data: Vec<u8>,
}

impl View for Buffer {
    type V = Seq<u8>;

    open spec fn view(&self) -> Seq<u8> {
        self.data@
    }
}

impl Buffer {
    pub fn new(data: Vec<u8>) -> (r: Buffer)
        ensures
            r@ == data@,
    {
        Buffer { data }
    }

    pub fn getlen(&self) -> (r: usize)
        ensures
            r == self@.len(),
    {
        self.data.len()
    }

    pub fn bytes(&self) -> (r: &Vec<u8>)
        ensures
            r@ == self@,
    {
        &self.data
    }
}

} // verus!
