//! The BLOCKED frame: a single tag byte, no fields.

use vstd::prelude::*;

use crate::error::QuicError;

verus! {

#[derive(Debug, PartialEq, Eq, Structural)]
pub struct BlockedFrame {}

impl BlockedFrame {
    /// Exact wire image: the tag byte alone.
    pub open spec fn spec_bytes(&self) -> Seq<u8> {
        seq![0x08u8]
    }

    /// What decoding recovers from a buffer: the frame whenever at
    /// least the tag byte is present.
    pub open spec fn spec_parse(s: Seq<u8>) -> Result<BlockedFrame, QuicError> {
        if s.len() < 1 {
            Err(QuicError::ParseError)
        } else {
            Ok(BlockedFrame {  })
        }
    }

    pub fn as_bytes(&self) -> (r: Vec<u8>)
        ensures
            r@ == self.spec_bytes(),
    {
        let mut out: Vec<u8> = Vec::new();
        out.push(0x08);
        proof {
            assert(out@ =~= self.spec_bytes());
        }
        out
    }

    pub fn from_bytes(buf: &[u8]) -> (r: Result<BlockedFrame, QuicError>)
        ensures
            r == Self::spec_parse(buf@),
    {
        if buf.len() < 1 {
            return Err(QuicError::ParseError);
        }
        Ok(BlockedFrame {  })
    }

    /// Length probe: this frame always occupies one byte.
    pub fn frame_len() -> (r: Result<usize, QuicError>)
        ensures
            r == Ok::<usize, QuicError>(1usize),
    {
        Ok(1)
    }
}

/// Round trip: decoding an encoded frame recovers it, whatever
/// trailing bytes follow.
pub proof fn lemma_blocked_roundtrip(f: BlockedFrame, rest: Seq<u8>)
    ensures
        BlockedFrame::spec_parse(f.spec_bytes() + rest) == Ok::<BlockedFrame, QuicError>(f),
        f.spec_bytes().len() == 1,
{
}

} // verus!
