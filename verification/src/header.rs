//! The two packet-header codecs: the compact short form used after the
//! handshake, and the long form carrying full connection and version
//! information.

use vstd::prelude::*;

use crate::error::QuicError;
use crate::packet::PacketType;
use crate::packet::ShortPacketType;
use crate::packet::packet_type_bits;
use crate::packet::packet_type_of_bits;
use crate::packet::short_pn_width;
use crate::packet::short_type_bits;
use crate::packet::short_type_of_bits;
use crate::wire::be_bytes;
use crate::wire::be_val;
use crate::wire::lemma_be_bytes_len;
use crate::wire::lemma_be_val_of_be_bytes;
use crate::wire::lemma_pow256_values;
use crate::wire::pow256;
use crate::wire::push_be;
use crate::wire::read_be;

verus! {

/// A packet number at its wire width.
#[derive(Debug, Clone, Copy, PartialEq, Eq, Structural)]
pub enum PacketNumber {
    OneByte(u8),
    TwoBytes(u16),
    FourBytes(u32),
}

#[derive(Debug)]
pub struct ShortHeader {
    pub key_phase_bit: bool,
    pub conn_id_bit: bool,
    pub connection_id: Option<u64>,
    pub packet_number: u64,
    pub packet_type: ShortPacketType,
}

#[derive(Debug, PartialEq, Eq, Structural)]
pub struct LongHeader {
    pub packet_type: PacketType,
    pub connection_id: u64,
    pub packet_number: u32,
    pub version: u32,
}

#[derive(Debug)]
pub enum QuicHeader {
    Short(ShortHeader),
    Long(LongHeader),
}

impl ShortHeader {
    /// Well-formed headers: a connection id travels exactly when its flag is
    /// set, and the packet number fits the width its selector announces.
    pub open spec fn wf(&self) -> bool {
        &&& (self.conn_id_bit <==> self.connection_id is Some)
        &&& self.packet_number < pow256(short_pn_width(self.packet_type))
    }

    /// The first octet: connection-id flag, key-phase flag, and the
    /// packet-number width selector in the low bits.
    pub open spec fn spec_tag(&self) -> u8 {
        ((if self.conn_id_bit {
            0x40u8
        } else {
            0u8
        }) | (if self.key_phase_bit {
            0x20u8
        } else {
            0u8
        })) | short_type_bits(self.packet_type)
    }

    /// Exact wire image: tag octet, the 8-byte connection id when flagged,
    /// then the packet number at its selected width.
    pub open spec fn spec_bytes(&self) -> Seq<u8> {
        seq![self.spec_tag()] + (match self.connection_id {
            Some(cid) => be_bytes(cid, 8),
            None => Seq::empty(),
        }) + be_bytes(self.packet_number, short_pn_width(self.packet_type))
    }

    /// What decoding recovers: flags and width selector from the tag (an
    /// unassigned selector is a parse error), then the optional connection
    /// id and the packet number, zero-extended.
    pub open spec fn spec_parse(s: Seq<u8>) -> Result<ShortHeader, QuicError> {
        if s.len() < 1 {
            Err(QuicError::ParseError)
        } else {
            let tag = s[0];
            match short_type_of_bits(tag & 0x1f) {
                None => Err(QuicError::ParseError),
                Some(t) => {
                    let cid_bit = tag & 0x40 > 0;
                    let kp_bit = tag & 0x20 > 0;
                    let pos = if cid_bit {
                        9int
                    } else {
                        1int
                    };
                    let w = short_pn_width(t);
                    if s.len() < pos + w {
                        Err(QuicError::ParseError)
                    } else {
                        Ok(
                            ShortHeader {
                                key_phase_bit: kp_bit,
                                conn_id_bit: cid_bit,
                                connection_id: if cid_bit {
                                    Some(be_val(s.subrange(1, 9)) as u64)
                                } else {
                                    None
                                },
                                packet_number: be_val(s.subrange(pos, pos + w)) as u64,
                                packet_type: t,
                            },
                        )
                    }
                },
            }
        }
    }

    pub fn as_bytes(&self) -> (r: Vec<u8>)
        requires
            self.wf(),
        ensures
            r@ == self.spec_bytes(),
    {
        let mut out: Vec<u8> = Vec::new();
        let bits: u8 = match self.packet_type {
            ShortPacketType::OneByte => 1,
            ShortPacketType::TwoBytes => 2,
            ShortPacketType::FourBytes => 3,
        };
        let tag: u8 = ((if self.conn_id_bit {
            0x40u8
        } else {
            0u8
        }) | (if self.key_phase_bit {
            0x20u8
        } else {
            0u8
        })) | bits;
        assert(tag == self.spec_tag());
        out.push(tag);
        match self.connection_id {
            Some(cid) => {
                push_be(&mut out, cid, 8);
            },
            None => {},
        }
        let w: usize = match self.packet_type {
            ShortPacketType::OneByte => 1,
            ShortPacketType::TwoBytes => 2,
            ShortPacketType::FourBytes => 4,
        };
        push_be(&mut out, self.packet_number, w);
        proof {
            assert(out@ =~= self.spec_bytes());
        }
        out
    }

    pub fn from_bytes(buf: &[u8]) -> (r: Result<ShortHeader, QuicError>)
        ensures
            r == Self::spec_parse(buf@),
    {
        if buf.len() < 1 {
            return Err(QuicError::ParseError);
        }
        let tag = buf[0];
        let bits = tag & 0x1f;
        let t: ShortPacketType = if bits == 1 {
            ShortPacketType::OneByte
        } else if bits == 2 {
            ShortPacketType::TwoBytes
        } else if bits == 3 {
            ShortPacketType::FourBytes
        } else {
            return Err(QuicError::ParseError);
        };
        let cid_bit = tag & 0x40 > 0;
        let kp_bit = tag & 0x20 > 0;
        let pos: usize = if cid_bit {
            9
        } else {
            1
        };
        let w: usize = match t {
            ShortPacketType::OneByte => 1,
            ShortPacketType::TwoBytes => 2,
            ShortPacketType::FourBytes => 4,
        };
        if buf.len() < pos + w {
            return Err(QuicError::ParseError);
        }
        let connection_id = if cid_bit {
            Some(read_be(buf, 1, 8))
        } else {
            None
        };
        let packet_number = read_be(buf, pos, w);
        proof {
            lemma_pow256_values();
        }
        Ok(
            ShortHeader {
                key_phase_bit: kp_bit,
                conn_id_bit: cid_bit,
                connection_id,
                packet_number,
                packet_type: t,
            },
        )
    }
}

impl ShortHeader {
    /// Whether the header satisfies its encoding invariant, decided at run
    /// time so that encoders without a precondition can test it.
    pub fn check_wf(&self) -> (b: bool)
        ensures
            b == self.wf(),
    {
        proof {
            lemma_pow256_values();
        }
        let flag_ok = self.conn_id_bit == self.connection_id.is_some();
        let pn_ok = match self.packet_type {
            ShortPacketType::OneByte => self.packet_number < 0x100,
            ShortPacketType::TwoBytes => self.packet_number < 0x1_0000,
            ShortPacketType::FourBytes => self.packet_number < 0x1_0000_0000,
        };
        flag_ok && pn_ok
    }
}

impl PartialEq for ShortHeader {
    fn eq(&self, other: &Self) -> (r: bool) {
        let cid_eq = match (self.connection_id, other.connection_id) {
            (Some(a), Some(b)) => a == b,
            (None, None) => true,
            _ => false,
        };
        self.key_phase_bit == other.key_phase_bit && self.conn_id_bit == other.conn_id_bit
            && cid_eq && self.packet_number == other.packet_number && self.packet_type
            == other.packet_type
    }
}

impl vstd::std_specs::cmp::PartialEqSpecImpl for ShortHeader {
    open spec fn obeys_eq_spec() -> bool {
        true
    }

    open spec fn eq_spec(&self, other: &ShortHeader) -> bool {
        *self == *other
    }
}

impl LongHeader {
    /// Well-formed headers: version zero is reserved on the wire, so no
    /// encodable header carries it.
    pub open spec fn wf(&self) -> bool {
        self.version != 0
    }

    /// Exact wire image: tag octet with the long-form bit and the packet
    /// type, then connection id, packet number and version, 8 + 4 + 4 bytes.
    pub open spec fn spec_bytes(&self) -> Seq<u8> {
        seq![0x80u8 | packet_type_bits(self.packet_type)] + be_bytes(self.connection_id, 8)
            + be_bytes(self.packet_number as u64, 4) + be_bytes(self.version as u64, 4)
    }

    /// What decoding recovers: the packet type from the low seven tag bits
    /// (an unassigned value is a parse error), then the three fixed fields;
    /// version zero is rejected.
    pub open spec fn spec_parse(s: Seq<u8>) -> Result<LongHeader, QuicError> {
        if s.len() < 17 {
            Err(QuicError::ParseError)
        } else {
            match packet_type_of_bits(s[0] & 0x7f) {
                None => Err(QuicError::ParseError),
                Some(t) => {
                    let version = be_val(s.subrange(13, 17)) as u32;
                    if version == 0 {
                        Err(QuicError::ParseError)
                    } else {
                        Ok(
                            LongHeader {
                                packet_type: t,
                                connection_id: be_val(s.subrange(1, 9)) as u64,
                                packet_number: be_val(s.subrange(9, 13)) as u32,
                                version,
                            },
                        )
                    }
                },
            }
        }
    }

    pub fn as_bytes(&self) -> (r: Vec<u8>)
        ensures
            r@ == self.spec_bytes(),
    {
        let mut out: Vec<u8> = Vec::new();
        let bits: u8 = match self.packet_type {
            PacketType::VersionNegotiation => 1,
            PacketType::ClientCleartext => 2,
            PacketType::NonFinalCleartext => 3,
            PacketType::FinalServerCleartext => 4,
            PacketType::Rtt0Encrypted => 5,
            PacketType::Rtt1EncryptedPhase0 => 6,
            PacketType::Rtt1EncryptedPhase1 => 7,
            PacketType::PublicReset => 8,
        };
        out.push(0x80 | bits);
        push_be(&mut out, self.connection_id, 8);
        push_be(&mut out, self.packet_number as u64, 4);
        push_be(&mut out, self.version as u64, 4);
        proof {
            assert(out@ =~= self.spec_bytes());
        }
        out
    }

    pub fn from_bytes(buf: &[u8]) -> (r: Result<LongHeader, QuicError>)
        ensures
            r == Self::spec_parse(buf@),
    {
        if buf.len() < 17 {
            return Err(QuicError::ParseError);
        }
        let bits = buf[0] & 0x7f;
        let t: PacketType = if bits == 1 {
            PacketType::VersionNegotiation
        } else if bits == 2 {
            PacketType::ClientCleartext
        } else if bits == 3 {
            PacketType::NonFinalCleartext
        } else if bits == 4 {
            PacketType::FinalServerCleartext
        } else if bits == 5 {
            PacketType::Rtt0Encrypted
        } else if bits == 6 {
            PacketType::Rtt1EncryptedPhase0
        } else if bits == 7 {
            PacketType::Rtt1EncryptedPhase1
        } else if bits == 8 {
            PacketType::PublicReset
        } else {
            return Err(QuicError::ParseError);
        };
        let connection_id = read_be(buf, 1, 8);
        let packet_number = read_be(buf, 9, 4);
        let version = read_be(buf, 13, 4);
        proof {
            lemma_pow256_values();
        }
        let version = version as u32;
        if version == 0 {
            return Err(QuicError::ParseError);
        }
        Ok(LongHeader { packet_type: t, connection_id, packet_number: packet_number as u32, version })
    }
}

/// Round trip for the short header: decoding an encoded well-formed header
/// recovers it bit for bit, whatever trailing bytes follow.
pub proof fn lemma_short_header_roundtrip(h: ShortHeader, rest: Seq<u8>)
    requires
        h.wf(),
    ensures
        ShortHeader::spec_parse(h.spec_bytes() + rest) == Ok::<ShortHeader, QuicError>(h),
        h.spec_bytes().len() == 1 + (if h.conn_id_bit {
            8int
        } else {
            0int
        }) + short_pn_width(h.packet_type),
{
    lemma_pow256_values();
    let tag = h.spec_tag();
    let bits = short_type_bits(h.packet_type);
    let cbit: u8 = if h.conn_id_bit {
        0x40u8
    } else {
        0u8
    };
    let kbit: u8 = if h.key_phase_bit {
        0x20u8
    } else {
        0u8
    };
    assert(tag == (cbit | kbit) | bits);
    assert((tag & 0x1f == bits) && ((tag & 0x40 > 0) <==> cbit == 0x40) && ((tag & 0x20 > 0)
        <==> kbit == 0x20)) by (bit_vector)
        requires
            tag == (cbit | kbit) | bits,
            cbit == 0x40 || cbit == 0,
            kbit == 0x20 || kbit == 0,
            1 <= bits <= 3,
    ;
    let w = short_pn_width(h.packet_type);
    lemma_be_bytes_len(h.packet_number, w);
    let s = h.spec_bytes() + rest;
    assert(s[0] == tag);
    if h.conn_id_bit {
        let cid = h.connection_id->0;
        lemma_be_bytes_len(cid, 8);
        assert(s.subrange(1, 9) =~= be_bytes(cid, 8));
        lemma_be_val_of_be_bytes(cid, 8);
        assert(s.subrange(9, 9 + w) =~= be_bytes(h.packet_number, w));
    } else {
        assert(s.subrange(1, 1 + w) =~= be_bytes(h.packet_number, w));
    }
    lemma_be_val_of_be_bytes(h.packet_number, w);
}

/// Round trip for the long header: decoding an encoded well-formed header
/// recovers it bit for bit, whatever trailing bytes follow; the image is
/// exactly 17 bytes.
pub proof fn lemma_long_header_roundtrip(h: LongHeader, rest: Seq<u8>)
    requires
        h.wf(),
    ensures
        LongHeader::spec_parse(h.spec_bytes() + rest) == Ok::<LongHeader, QuicError>(h),
        h.spec_bytes().len() == 17,
{
    lemma_pow256_values();
    let bits = packet_type_bits(h.packet_type);
    let tag: u8 = 0x80u8 | bits;
    assert(tag & 0x7f == bits) by (bit_vector)
        requires
            tag == 0x80u8 | bits,
            1 <= bits <= 8,
    ;
    lemma_be_bytes_len(h.connection_id, 8);
    lemma_be_bytes_len(h.packet_number as u64, 4);
    lemma_be_bytes_len(h.version as u64, 4);
    let s = h.spec_bytes() + rest;
    assert(s[0] == tag);
    assert(s.subrange(1, 9) =~= be_bytes(h.connection_id, 8));
    assert(s.subrange(9, 13) =~= be_bytes(h.packet_number as u64, 4));
    assert(s.subrange(13, 17) =~= be_bytes(h.version as u64, 4));
    lemma_be_val_of_be_bytes(h.connection_id, 8);
    lemma_be_val_of_be_bytes(h.packet_number as u64, 4);
    lemma_be_val_of_be_bytes(h.version as u64, 4);
}

} // verus!
