//! The RST_STREAM frame: error code, stream id, and the final offset of the
//! aborted stream.

use vstd::prelude::*;

use crate::error::QuicError;
use crate::wire::be_bytes;
use crate::wire::be_val;
use crate::wire::lemma_be_bytes_len;
use crate::wire::lemma_be_val_of_be_bytes;
use crate::wire::lemma_pow256_values;
use crate::wire::push_be;
use crate::wire::read_be;

verus! {

#[derive(Debug, PartialEq, Eq, Structural)]
pub struct ResetStreamFrame {
    pub error_code: u32,
    pub stream_id: u32,
    pub final_offset: u64,
}

impl ResetStreamFrame {
    /// Exact wire image: tag byte, 4-byte error code, 4-byte stream id,
    /// 8-byte final offset.
    pub open spec fn spec_bytes(&self) -> Seq<u8> {
        seq![0x01u8] + be_bytes(self.error_code as u64, 4) + be_bytes(self.stream_id as u64, 4)
            + be_bytes(self.final_offset, 8)
    }

    /// What decoding recovers: the three fields after the tag, or a parse
    /// error on a buffer shorter than the fixed portion.
    pub open spec fn spec_parse(s: Seq<u8>) -> Result<ResetStreamFrame, QuicError> {
        if s.len() < 17 {
            Err(QuicError::ParseError)
        } else {
            Ok(
                ResetStreamFrame {
                    error_code: be_val(s.subrange(1, 5)) as u32,
                    stream_id: be_val(s.subrange(5, 9)) as u32,
                    final_offset: be_val(s.subrange(9, 17)) as u64,
                },
            )
        }
    }

    pub fn as_bytes(&self) -> (r: Vec<u8>)
        ensures
            r@ == self.spec_bytes(),
    {
        let mut out: Vec<u8> = Vec::new();
        out.push(0x01);
        push_be(&mut out, self.error_code as u64, 4);
        push_be(&mut out, self.stream_id as u64, 4);
        push_be(&mut out, self.final_offset, 8);
        proof {
            assert(out@ =~= self.spec_bytes());
        }
        out
    }

    pub fn from_bytes(buf: &[u8]) -> (r: Result<ResetStreamFrame, QuicError>)
        ensures
            r == Self::spec_parse(buf@),
    {
        if buf.len() < 17 {
            return Err(QuicError::ParseError);
        }
        let error_code = read_be(buf, 1, 4);
        let stream_id = read_be(buf, 5, 4);
        let final_offset = read_be(buf, 9, 8);
        proof {
            lemma_pow256_values();
        }
        Ok(
            ResetStreamFrame {
                error_code: error_code as u32,
                stream_id: stream_id as u32,
                final_offset,
            },
        )
    }

    /// Length probe: the frame always occupies 17 bytes.
    pub fn frame_len() -> (r: Result<usize, QuicError>)
        ensures
            r == Ok::<usize, QuicError>(17usize),
    {
        Ok(17)
    }
}

/// Round trip: decoding an encoded frame recovers it, whatever trailing
/// bytes follow; the image is exactly as long as the length probe says.
pub proof fn lemma_reset_stream_roundtrip(f: ResetStreamFrame, rest: Seq<u8>)
    ensures
        ResetStreamFrame::spec_parse(f.spec_bytes() + rest) == Ok::<ResetStreamFrame, QuicError>(f),
        f.spec_bytes().len() == 17,
{
    lemma_pow256_values();
    lemma_be_bytes_len(f.error_code as u64, 4);
    lemma_be_bytes_len(f.stream_id as u64, 4);
    lemma_be_bytes_len(f.final_offset, 8);
    let s = f.spec_bytes() + rest;
    assert(s.subrange(1, 5) =~= be_bytes(f.error_code as u64, 4));
    assert(s.subrange(5, 9) =~= be_bytes(f.stream_id as u64, 4));
    assert(s.subrange(9, 17) =~= be_bytes(f.final_offset, 8));
    lemma_be_val_of_be_bytes(f.error_code as u64, 4);
    lemma_be_val_of_be_bytes(f.stream_id as u64, 4);
    lemma_be_val_of_be_bytes(f.final_offset, 8);
}

} // verus!
