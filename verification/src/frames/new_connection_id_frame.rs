//! The NEW_CONNECTION_ID frame: sequence number, connection id, and the
//! packet-number gap at which the new id takes effect.

use vstd::prelude::*;

use crate::error::QuicError;
use crate::wire::be_bytes;
use crate::wire::be_val;
use crate::wire::lemma_be_bytes_len;
use crate::wire::lemma_be_val_of_be_bytes;
use crate::wire::lemma_pow256_values;
use crate::wire::push_be;
use crate::wire::read_be;

verus! {

#[derive(Debug, PartialEq, Eq, Structural)]
pub struct NewConnectionIdFrame {
    pub sequence: u16,
    pub connection_id: u64,
    pub packet_number_gap: u32,
}

impl NewConnectionIdFrame {
    /// Exact wire image: tag byte, 2-byte sequence, 8-byte connection id,
    /// 4-byte packet-number gap.
    pub open spec fn spec_bytes(&self) -> Seq<u8> {
        seq![0x0bu8] + be_bytes(self.sequence as u64, 2) + be_bytes(self.connection_id, 8)
            + be_bytes(self.packet_number_gap as u64, 4)
    }

    /// What decoding recovers: the three fields after the tag, or a parse
    /// error on a buffer shorter than the fixed portion.
    pub open spec fn spec_parse(s: Seq<u8>) -> Result<NewConnectionIdFrame, QuicError> {
        if s.len() < 15 {
            Err(QuicError::ParseError)
        } else {
            Ok(
                NewConnectionIdFrame {
                    sequence: be_val(s.subrange(1, 3)) as u16,
                    connection_id: be_val(s.subrange(3, 11)) as u64,
                    packet_number_gap: be_val(s.subrange(11, 15)) as u32,
                },
            )
        }
    }

    pub fn as_bytes(&self) -> (r: Vec<u8>)
        ensures
            r@ == self.spec_bytes(),
    {
        let mut out: Vec<u8> = Vec::new();
        out.push(0x0b);
        push_be(&mut out, self.sequence as u64, 2);
        push_be(&mut out, self.connection_id, 8);
        push_be(&mut out, self.packet_number_gap as u64, 4);
        proof {
            assert(out@ =~= self.spec_bytes());
        }
        out
    }

    pub fn from_bytes(buf: &[u8]) -> (r: Result<NewConnectionIdFrame, QuicError>)
        ensures
            r == Self::spec_parse(buf@),
    {
        if buf.len() < 15 {
            return Err(QuicError::ParseError);
        }
        let sequence = read_be(buf, 1, 2);
        let connection_id = read_be(buf, 3, 8);
        let gap = read_be(buf, 11, 4);
        proof {
            lemma_pow256_values();
        }
        Ok(
            NewConnectionIdFrame {
                sequence: sequence as u16,
                connection_id,
                packet_number_gap: gap as u32,
            },
        )
    }

    /// Length probe: the frame always occupies 15 bytes.
    pub fn frame_len() -> (r: Result<usize, QuicError>)
        ensures
            r == Ok::<usize, QuicError>(15usize),
    {
        Ok(15)
    }
}

/// Round trip: decoding an encoded frame recovers it, whatever trailing
/// bytes follow; the image is exactly as long as the length probe says.
pub proof fn lemma_new_connection_id_roundtrip(f: NewConnectionIdFrame, rest: Seq<u8>)
    ensures
        NewConnectionIdFrame::spec_parse(f.spec_bytes() + rest) == Ok::<
            NewConnectionIdFrame,
            QuicError,
        >(f),
        f.spec_bytes().len() == 15,
{
    lemma_pow256_values();
    lemma_be_bytes_len(f.sequence as u64, 2);
    lemma_be_bytes_len(f.connection_id, 8);
    lemma_be_bytes_len(f.packet_number_gap as u64, 4);
    let s = f.spec_bytes() + rest;
    assert(s.subrange(1, 3) =~= be_bytes(f.sequence as u64, 2));
    assert(s.subrange(3, 11) =~= be_bytes(f.connection_id, 8));
    assert(s.subrange(11, 15) =~= be_bytes(f.packet_number_gap as u64, 4));
    lemma_be_val_of_be_bytes(f.sequence as u64, 2);
    lemma_be_val_of_be_bytes(f.connection_id, 8);
    lemma_be_val_of_be_bytes(f.packet_number_gap as u64, 4);
}

} // verus!
