//! The PADDING frame: a single tag byte, no fields.

use vstd::prelude::*;

use crate::error::QuicError;

verus! {

#[derive(Debug, PartialEq, Eq, Structural)]
pub struct PaddingFrame {}

impl PaddingFrame {
    /// Exact wire image: the tag byte alone.
    pub open spec fn spec_bytes(&self) -> Seq<u8> {
        seq![0x00u8]
    }

    /// What decoding recovers from a buffer: a padding frame whenever at
    /// least the tag byte is present.
    pub open spec fn spec_parse(s: Seq<u8>) -> Result<PaddingFrame, QuicError> {
        if s.len() < 1 {
            Err(QuicError::ParseError)
        } else {
            Ok(PaddingFrame {  })
        }
    }

    pub fn as_bytes(&self) -> (r: Vec<u8>)
        ensures
            r@ == self.spec_bytes(),
    {
        let mut out: Vec<u8> = Vec::new();
        out.push(0x00);
        proof {
            assert(out@ =~= self.spec_bytes());
        }
        out
    }

    pub fn from_bytes(buf: &[u8]) -> (r: Result<PaddingFrame, QuicError>)
        ensures
            r == Self::spec_parse(buf@),
    {
        if buf.len() < 1 {
            return Err(QuicError::ParseError);
        }
        Ok(PaddingFrame {  })
    }

    /// Length probe: a padding frame always occupies one byte.
    pub fn frame_len() -> (r: Result<usize, QuicError>)
        ensures
            r == Ok::<usize, QuicError>(1usize),
    {
        Ok(1)
    }
}

/// Round trip: decoding an encoded padding frame recovers it, whatever
/// trailing bytes follow.
pub proof fn lemma_padding_roundtrip(f: PaddingFrame, rest: Seq<u8>)
    ensures
        PaddingFrame::spec_parse(f.spec_bytes() + rest) == Ok::<PaddingFrame, QuicError>(f),
        f.spec_bytes().len() == 1,
{
}

} // verus!
