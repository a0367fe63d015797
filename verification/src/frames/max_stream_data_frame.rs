//! The MAX_STREAM_DATA frame: tag byte, stream id, per-stream flow ceiling.

use vstd::prelude::*;

use crate::error::QuicError;
use crate::wire::be_bytes;
use crate::wire::be_val;
use crate::wire::lemma_be_bytes_len;
use crate::wire::lemma_be_val_of_be_bytes;
use crate::wire::lemma_pow256_values;
use crate::wire::push_be;
use crate::wire::read_be;

verus! {

#[derive(Debug, Clone, Copy, PartialEq, Eq, Structural)]
pub struct MaxStreamDataFrame {
    pub stream_id: u32,
    pub max_stream_data: u64,
}

impl MaxStreamDataFrame {
    /// Exact wire image: tag byte, 4-byte stream id, 8-byte ceiling.
    pub open spec fn spec_bytes(&self) -> Seq<u8> {
        seq![0x05u8] + be_bytes(self.stream_id as u64, 4) + be_bytes(self.max_stream_data, 8)
    }

    /// What decoding recovers: the id and ceiling after the tag, or a parse
    /// error on a buffer shorter than the fixed portion.
    pub open spec fn spec_parse(s: Seq<u8>) -> Result<MaxStreamDataFrame, QuicError> {
        if s.len() < 13 {
            Err(QuicError::ParseError)
        } else {
            Ok(
                MaxStreamDataFrame {
                    stream_id: be_val(s.subrange(1, 5)) as u32,
                    max_stream_data: be_val(s.subrange(5, 13)) as u64,
                },
            )
        }
    }

    pub fn as_bytes(&self) -> (r: Vec<u8>)
        ensures
            r@ == self.spec_bytes(),
    {
        let mut out: Vec<u8> = Vec::new();
        out.push(0x05);
        push_be(&mut out, self.stream_id as u64, 4);
        push_be(&mut out, self.max_stream_data, 8);
        proof {
            assert(out@ =~= self.spec_bytes());
        }
        out
    }

    pub fn from_bytes(buf: &[u8]) -> (r: Result<MaxStreamDataFrame, QuicError>)
        ensures
            r == Self::spec_parse(buf@),
    {
        if buf.len() < 13 {
            return Err(QuicError::ParseError);
        }
        let id = read_be(buf, 1, 4);
        let ceiling = read_be(buf, 5, 8);
        proof {
            lemma_pow256_values();
        }
        Ok(MaxStreamDataFrame { stream_id: id as u32, max_stream_data: ceiling })
    }

    /// Length probe: the frame always occupies 13 bytes.
    pub fn frame_len() -> (r: Result<usize, QuicError>)
        ensures
            r == Ok::<usize, QuicError>(13usize),
    {
        Ok(13)
    }
}

/// Round trip: decoding an encoded frame recovers it, whatever trailing
/// bytes follow; the image is exactly as long as the length probe says.
pub proof fn lemma_max_stream_data_roundtrip(f: MaxStreamDataFrame, rest: Seq<u8>)
    ensures
        MaxStreamDataFrame::spec_parse(f.spec_bytes() + rest) == Ok::<
            MaxStreamDataFrame,
            QuicError,
        >(f),
        f.spec_bytes().len() == 13,
{
    lemma_pow256_values();
    lemma_be_bytes_len(f.stream_id as u64, 4);
    lemma_be_bytes_len(f.max_stream_data, 8);
    let s = f.spec_bytes() + rest;
    assert(s.subrange(1, 5) =~= be_bytes(f.stream_id as u64, 4));
    assert(s.subrange(5, 13) =~= be_bytes(f.max_stream_data, 8));
    lemma_be_val_of_be_bytes(f.stream_id as u64, 4);
    lemma_be_val_of_be_bytes(f.max_stream_data, 8);
}

} // verus!
