//! Compression of blob payloads.
//!
//! A payload starts with one byte that says how the rest is stored: as it
//! is, or compressed with DEFLATE.

use crate::crypto::{append, copy_range};
use vstd::prelude::*;
use vstd::slice::*;

verus! {

/// What `miniz_oxide::deflate::compress_to_vec` makes of data at a level.
pub uninterp spec fn deflated(data: Seq<u8>, level: u8) -> Seq<u8>;

/// What `miniz_oxide::inflate::decompress_to_vec` makes of a DEFLATE
/// stream, or `None` where it rejects the stream.
pub uninterp spec fn inflated(stream: Seq<u8>) -> Option<Seq<u8>>;

/// Calls `miniz_oxide::deflate::compress_to_vec`. The contract names the
/// stream and says that decompression gives the data back.
#[verifier::external_body]
fn deflate(data: &[u8], level: u8) -> (r: Vec<u8>)
    ensures
        r@ == deflated(data@, level),
        inflated(r@) == Some(data@),
{
    miniz_oxide::deflate::compress_to_vec(data, level)
}

/// Calls `miniz_oxide::inflate::decompress_to_vec`. The contract names the
/// result.
#[verifier::external_body]
fn inflate(stream: &[u8]) -> (r: Option<Vec<u8>>)
    ensures
        match r {
            Some(d) => inflated(stream@) == Some(d@),
            None => inflated(stream@) is None,
        },
{
    miniz_oxide::inflate::decompress_to_vec(stream).ok()
}

/// How blob payloads are stored.
#[derive(Clone, Copy, Debug, PartialEq, Eq, Structural)]
pub enum Compression {
    /// As they are.
    Stored,
    /// Compressed with DEFLATE at a level from 0 to 10.
    Deflate(u8),
}

/// The data inside a payload, or `None` where the payload is malformed.
pub open spec fn unpacked(payload: Seq<u8>) -> Option<Seq<u8>> {
    if payload.len() == 0 {
        None
    } else if payload[0] == 0 {
        Some(payload.subrange(1, payload.len() as int))
    } else if payload[0] == 1 {
        inflated(payload.subrange(1, payload.len() as int))
    } else {
        None
    }
}

/// The payload of `data`: the compressed stream where compression is
/// asked for and the stream is shorter than the data, the data as it is
/// otherwise.
pub open spec fn packed(data: Seq<u8>, compression: Compression) -> Seq<u8> {
    match compression {
        Compression::Stored => seq![0u8] + data,
        Compression::Deflate(level) => if deflated(data, level).len() < data.len() {
            seq![1u8] + deflated(data, level)
        } else {
            seq![0u8] + data
        },
    }
}

/// Makes the payload of `data`. Unpacking it gives `data` back. Data that
/// compression does not shrink is stored as it is, so a payload is at most
/// one byte longer than the data.
pub fn pack_payload(data: &[u8], compression: Compression) -> (out: Vec<u8>)
    ensures
        out@ == packed(data@, compression),
        unpacked(out@) == Some(data@),
        1 <= out@.len() <= data@.len() + 1,
{
    let mut out: Vec<u8> = Vec::new();
    match compression {
        Compression::Stored => {},
        Compression::Deflate(level) => {
            let stream = deflate(data, level);
            if stream.len() < data.len() {
                out.push(1u8);
                append(&mut out, stream.as_slice());
                assert(out@.subrange(1, out@.len() as int) =~= stream@);
                assert(out@ =~= seq![1u8] + stream@);
                return out;
            }
        },
    }
    out.push(0u8);
    append(&mut out, data);
    assert(out@.subrange(1, out@.len() as int) =~= data@);
    assert(out@ =~= seq![0u8] + data@);
    out
}

/// Reads the data out of a payload.
pub fn unpack_payload(payload: &[u8]) -> (r: Option<Vec<u8>>)
    ensures
        match r {
            Some(d) => unpacked(payload@) == Some(d@),
            None => unpacked(payload@) is None,
        },
{
    if payload.len() == 0 {
        return None;
    }
    let tag = payload[0];
    if tag == 0 {
        Some(copy_range(payload, 1, payload.len()))
    } else if tag == 1 {
        inflate(slice_subrange(payload, 1, payload.len()))
    } else {
        None
    }
}

} // verus!
