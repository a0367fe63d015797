//! The MAX_DATA frame: tag byte plus an 8-byte connection flow ceiling.

use vstd::prelude::*;

use crate::error::QuicError;
use crate::wire::be_bytes;
use crate::wire::be_val;
use crate::wire::lemma_be_bytes_len;
use crate::wire::lemma_be_val_of_be_bytes;
use crate::wire::lemma_pow256_values;
use crate::wire::push_be;
use crate::wire::read_be;

verus! {

#[derive(Debug, PartialEq, Eq, Structural)]
pub struct MaxDataFrame {
    pub max_data: u64,
}

impl MaxDataFrame {
    /// Exact wire image: tag byte, then `max_data` big-endian in 8 bytes.
    pub open spec fn spec_bytes(&self) -> Seq<u8> {
        seq![0x04u8] + be_bytes(self.max_data, 8)
    }

    /// What decoding recovers: the 8-byte value after the tag, or a parse
    /// error on a buffer shorter than the fixed portion.
    pub open spec fn spec_parse(s: Seq<u8>) -> Result<MaxDataFrame, QuicError> {
        if s.len() < 9 {
            Err(QuicError::ParseError)
        } else {
            Ok(MaxDataFrame { max_data: be_val(s.subrange(1, 9)) as u64 })
        }
    }

    pub fn as_bytes(&self) -> (r: Vec<u8>)
        ensures
            r@ == self.spec_bytes(),
    {
        let mut out: Vec<u8> = Vec::new();
        out.push(0x04);
        push_be(&mut out, self.max_data, 8);
        proof {
            assert(out@ =~= self.spec_bytes());
        }
        out
    }

    pub fn from_bytes(buf: &[u8]) -> (r: Result<MaxDataFrame, QuicError>)
        ensures
            r == Self::spec_parse(buf@),
    {
        if buf.len() < 9 {
            return Err(QuicError::ParseError);
        }
        let v = read_be(buf, 1, 8);
        proof {
            lemma_pow256_values();
        }
        Ok(MaxDataFrame { max_data: v })
    }

    /// Length probe: the frame always occupies 9 bytes.
    pub fn frame_len() -> (r: Result<usize, QuicError>)
        ensures
            r == Ok::<usize, QuicError>(9usize),
    {
        Ok(9)
    }
}

/// Round trip: decoding an encoded frame recovers it, whatever trailing
/// bytes follow; the image is exactly as long as the length probe says.
pub proof fn lemma_max_data_roundtrip(f: MaxDataFrame, rest: Seq<u8>)
    ensures
        MaxDataFrame::spec_parse(f.spec_bytes() + rest) == Ok::<MaxDataFrame, QuicError>(f),
        f.spec_bytes().len() == 9,
{
    lemma_pow256_values();
    lemma_be_bytes_len(f.max_data, 8);
    let s = f.spec_bytes() + rest;
    assert(s.subrange(1, 9) =~= be_bytes(f.max_data, 8));
    lemma_be_val_of_be_bytes(f.max_data, 8);
}

} // verus!
