//! The GOAWAY frame: tag byte plus the two largest stream identifiers.

use vstd::prelude::*;

use crate::error::QuicError;
use crate::wire::be_bytes;
use crate::wire::be_val;
use crate::wire::lemma_be_bytes_len;
use crate::wire::lemma_be_val_of_be_bytes;
use crate::wire::lemma_pow256_values;
use crate::wire::push_be;
use crate::wire::read_be;

verus! {

#[derive(Debug, PartialEq, Eq, Structural)]
pub struct GoAwayFrame {
    pub largest_client_stream_id: u32,
    pub largest_server_stream_id: u32,
}

impl GoAwayFrame {
    /// Exact wire image: tag byte, then both stream ids big-endian in 4
    /// bytes each, client side first.
    pub open spec fn spec_bytes(&self) -> Seq<u8> {
        seq![0x03u8] + be_bytes(self.largest_client_stream_id as u64, 4) + be_bytes(
            self.largest_server_stream_id as u64,
            4,
        )
    }

    /// What decoding recovers: the two 4-byte ids after the tag, or a parse
    /// error on a buffer shorter than the fixed portion.
    pub open spec fn spec_parse(s: Seq<u8>) -> Result<GoAwayFrame, QuicError> {
        if s.len() < 9 {
            Err(QuicError::ParseError)
        } else {
            Ok(
                GoAwayFrame {
                    largest_client_stream_id: be_val(s.subrange(1, 5)) as u32,
                    largest_server_stream_id: be_val(s.subrange(5, 9)) as u32,
                },
            )
        }
    }

    pub fn as_bytes(&self) -> (r: Vec<u8>)
        ensures
            r@ == self.spec_bytes(),
    {
        let mut out: Vec<u8> = Vec::new();
        out.push(0x03);
        push_be(&mut out, self.largest_client_stream_id as u64, 4);
        push_be(&mut out, self.largest_server_stream_id as u64, 4);
        proof {
            assert(out@ =~= self.spec_bytes());
        }
        out
    }

    pub fn from_bytes(buf: &[u8]) -> (r: Result<GoAwayFrame, QuicError>)
        ensures
            r == Self::spec_parse(buf@),
    {
        if buf.len() < 9 {
            return Err(QuicError::ParseError);
        }
        let client = read_be(buf, 1, 4);
        let server = read_be(buf, 5, 4);
        proof {
            lemma_pow256_values();
        }
        Ok(
            GoAwayFrame {
                largest_client_stream_id: client as u32,
                largest_server_stream_id: server as u32,
            },
        )
    }

    /// Length probe: the frame always occupies 9 bytes.
    pub fn frame_len() -> (r: Result<usize, QuicError>)
        ensures
            r == Ok::<usize, QuicError>(9usize),
    {
        Ok(9)
    }
}

/// Round trip: decoding an encoded frame recovers it, whatever trailing
/// bytes follow; the image is exactly as long as the length probe says.
pub proof fn lemma_goaway_roundtrip(f: GoAwayFrame, rest: Seq<u8>)
    ensures
        GoAwayFrame::spec_parse(f.spec_bytes() + rest) == Ok::<GoAwayFrame, QuicError>(f),
        f.spec_bytes().len() == 9,
{
    lemma_pow256_values();
    lemma_be_bytes_len(f.largest_client_stream_id as u64, 4);
    lemma_be_bytes_len(f.largest_server_stream_id as u64, 4);
    let s = f.spec_bytes() + rest;
    assert(s.subrange(1, 5) =~= be_bytes(f.largest_client_stream_id as u64, 4));
    assert(s.subrange(5, 9) =~= be_bytes(f.largest_server_stream_id as u64, 4));
    lemma_be_val_of_be_bytes(f.largest_client_stream_id as u64, 4);
    lemma_be_val_of_be_bytes(f.largest_server_stream_id as u64, 4);
}

} // verus!
