//! The STREAM_BLOCKED frame: tag byte plus the blocked stream's id.

use vstd::prelude::*;

use crate::error::QuicError;
use crate::wire::be_bytes;
use crate::wire::be_val;
use crate::wire::lemma_be_bytes_len;
use crate::wire::lemma_be_val_of_be_bytes;
use crate::wire::lemma_pow256_values;
use crate::wire::push_be;
use crate::wire::read_be;

verus! {

#[derive(Debug, PartialEq, Eq, Structural)]
pub struct StreamBlockedFrame {
    pub stream_id: u32,
}

impl StreamBlockedFrame {
    /// Exact wire image: tag byte, then the id big-endian in 4 bytes.
    pub open spec fn spec_bytes(&self) -> Seq<u8> {
        seq![0x09u8] + be_bytes(self.stream_id as u64, 4)
    }

    /// What decoding recovers: the 4-byte id after the tag, or a parse error
    /// on a buffer shorter than the fixed portion.
    pub open spec fn spec_parse(s: Seq<u8>) -> Result<StreamBlockedFrame, QuicError> {
        if s.len() < 5 {
            Err(QuicError::ParseError)
        } else {
            Ok(StreamBlockedFrame { stream_id: be_val(s.subrange(1, 5)) as u32 })
        }
    }

    pub fn as_bytes(&self) -> (r: Vec<u8>)
        ensures
            r@ == self.spec_bytes(),
    {
        let mut out: Vec<u8> = Vec::new();
        out.push(0x09);
        push_be(&mut out, self.stream_id as u64, 4);
        proof {
            assert(out@ =~= self.spec_bytes());
        }
        out
    }

    pub fn from_bytes(buf: &[u8]) -> (r: Result<StreamBlockedFrame, QuicError>)
        ensures
            r == Self::spec_parse(buf@),
    {
        if buf.len() < 5 {
            return Err(QuicError::ParseError);
        }
        let id = read_be(buf, 1, 4);
        proof {
            lemma_pow256_values();
        }
        Ok(StreamBlockedFrame { stream_id: id as u32 })
    }

    /// Length probe: the frame always occupies 5 bytes.
    pub fn frame_len() -> (r: Result<usize, QuicError>)
        ensures
            r == Ok::<usize, QuicError>(5usize),
    {
        Ok(5)
    }
}

/// Round trip: decoding an encoded frame recovers it, whatever trailing
/// bytes follow; the image is exactly as long as the length probe says.
pub proof fn lemma_stream_blocked_roundtrip(f: StreamBlockedFrame, rest: Seq<u8>)
    ensures
        StreamBlockedFrame::spec_parse(f.spec_bytes() + rest) == Ok::<
            StreamBlockedFrame,
            QuicError,
        >(f),
        f.spec_bytes().len() == 5,
{
    lemma_pow256_values();
    lemma_be_bytes_len(f.stream_id as u64, 4);
    let s = f.spec_bytes() + rest;
    assert(s.subrange(1, 5) =~= be_bytes(f.stream_id as u64, 4));
    lemma_be_val_of_be_bytes(f.stream_id as u64, 4);
}

} // verus!
