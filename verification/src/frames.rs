//! The frame catalog: one codec per frame kind, plus the dispatcher that
//! routes a raw buffer to the right codec by its leading type tag.
//!
//! Routing: tags of the form `101xxxxx` are the ACK family and `11xxxxxx`
//! the STREAM family (both carry flags and width selectors in the tag); the
//! remaining frames match their tag byte exactly, and a byte matching no
//! known tag decodes as padding — the catalog deliberately treats unmatched
//! bytes as implicit padding rather than erroring.

pub mod ack_frame;
pub mod blocked_frame;
pub mod connection_close_frame;
pub mod goaway_frame;
pub mod max_data_frame;
pub mod max_stream_data_frame;
pub mod max_stream_id_frame;
pub mod new_connection_id_frame;
pub mod padding_frame;
pub mod ping_frame;
pub mod reset_stream_frame;
pub mod stream_blocked_frame;
pub mod stream_frame;
pub mod stream_id_needed_frame;

use vstd::prelude::*;

use crate::error::QuicError;
use crate::frames::ack_frame::AckFrame;
use crate::frames::ack_frame::AckFrameModel;
use crate::frames::ack_frame::lemma_ack_roundtrip;
use crate::frames::blocked_frame::BlockedFrame;
use crate::frames::blocked_frame::lemma_blocked_roundtrip;
use crate::frames::connection_close_frame::ConnectionCloseFrame;
use crate::frames::connection_close_frame::ConnectionCloseModel;
use crate::frames::connection_close_frame::lemma_connection_close_roundtrip;
use crate::frames::goaway_frame::GoAwayFrame;
use crate::frames::goaway_frame::lemma_goaway_roundtrip;
use crate::frames::max_data_frame::MaxDataFrame;
use crate::frames::max_data_frame::lemma_max_data_roundtrip;
use crate::frames::max_stream_data_frame::MaxStreamDataFrame;
use crate::frames::max_stream_data_frame::lemma_max_stream_data_roundtrip;
use crate::frames::max_stream_id_frame::MaxStreamIdFrame;
use crate::frames::max_stream_id_frame::lemma_max_stream_id_roundtrip;
use crate::frames::new_connection_id_frame::NewConnectionIdFrame;
use crate::frames::new_connection_id_frame::lemma_new_connection_id_roundtrip;
use crate::frames::padding_frame::PaddingFrame;
use crate::frames::padding_frame::lemma_padding_roundtrip;
use crate::frames::ping_frame::PingFrame;
use crate::frames::ping_frame::lemma_ping_roundtrip;
use crate::frames::reset_stream_frame::ResetStreamFrame;
use crate::frames::reset_stream_frame::lemma_reset_stream_roundtrip;
use crate::frames::stream_blocked_frame::StreamBlockedFrame;
use crate::frames::stream_blocked_frame::lemma_stream_blocked_roundtrip;
use crate::frames::stream_frame::StreamFrame;
use crate::frames::stream_frame::StreamFrameModel;
use crate::frames::stream_frame::lemma_stream_roundtrip;
use crate::frames::stream_id_needed_frame::StreamIdNeededFrame;
use crate::frames::stream_id_needed_frame::lemma_stream_id_needed_roundtrip;

verus! {

#[derive(Debug)]
pub enum QuicFrame {
    Stream(StreamFrame),
    Ack(AckFrame),
    MaxData(MaxDataFrame),
    MaxStreamData(MaxStreamDataFrame),
    MaxStreamId(MaxStreamIdFrame),
    Blocked(BlockedFrame),
    StreamBlocked(StreamBlockedFrame),
    StreamIdNeeded(StreamIdNeededFrame),
    Padding(PaddingFrame),
    Ping(PingFrame),
    NewConnectionId(NewConnectionIdFrame),
    ConnectionClose(ConnectionCloseFrame),
    GoAway(GoAwayFrame),
    ResetStream(ResetStreamFrame),
}

/// The mathematical content of a frame: variants with executable containers
/// are replaced by their sequence-level models.
pub enum QuicFrameModel {
    Stream(StreamFrameModel),
    Ack(AckFrameModel),
    MaxData(MaxDataFrame),
    MaxStreamData(MaxStreamDataFrame),
    MaxStreamId(MaxStreamIdFrame),
    Blocked(BlockedFrame),
    StreamBlocked(StreamBlockedFrame),
    StreamIdNeeded(StreamIdNeededFrame),
    Padding(PaddingFrame),
    Ping(PingFrame),
    NewConnectionId(NewConnectionIdFrame),
    ConnectionClose(ConnectionCloseModel),
    GoAway(GoAwayFrame),
    ResetStream(ResetStreamFrame),
}

impl QuicFrame {
    /// The frame's mathematical content.
    pub open spec fn model(&self) -> QuicFrameModel {
        match self {
            QuicFrame::Stream(f) => QuicFrameModel::Stream(f.model()),
            QuicFrame::Ack(f) => QuicFrameModel::Ack(f.model()),
            QuicFrame::MaxData(f) => QuicFrameModel::MaxData(*f),
            QuicFrame::MaxStreamData(f) => QuicFrameModel::MaxStreamData(*f),
            QuicFrame::MaxStreamId(f) => QuicFrameModel::MaxStreamId(*f),
            QuicFrame::Blocked(f) => QuicFrameModel::Blocked(*f),
            QuicFrame::StreamBlocked(f) => QuicFrameModel::StreamBlocked(*f),
            QuicFrame::StreamIdNeeded(f) => QuicFrameModel::StreamIdNeeded(*f),
            QuicFrame::Padding(f) => QuicFrameModel::Padding(*f),
            QuicFrame::Ping(f) => QuicFrameModel::Ping(*f),
            QuicFrame::NewConnectionId(f) => QuicFrameModel::NewConnectionId(*f),
            QuicFrame::ConnectionClose(f) => QuicFrameModel::ConnectionClose(f.model()),
            QuicFrame::GoAway(f) => QuicFrameModel::GoAway(*f),
            QuicFrame::ResetStream(f) => QuicFrameModel::ResetStream(*f),
        }
    }

    /// Well-formedness of the frame for encoding; only the three codecs with
    /// variable sections constrain anything.
    pub open spec fn wf(&self) -> bool {
        match self {
            QuicFrame::Stream(f) => f.wf(),
            QuicFrame::Ack(f) => f.wf(),
            QuicFrame::ConnectionClose(f) => f.wf(),
            _ => true,
        }
    }

    /// Exact wire image of the frame: each variant's own image.
    pub open spec fn spec_bytes(&self) -> Seq<u8> {
        match self {
            QuicFrame::Stream(f) => f.spec_bytes(),
            QuicFrame::Ack(f) => f.spec_bytes(),
            QuicFrame::MaxData(f) => f.spec_bytes(),
            QuicFrame::MaxStreamData(f) => f.spec_bytes(),
            QuicFrame::MaxStreamId(f) => f.spec_bytes(),
            QuicFrame::Blocked(f) => f.spec_bytes(),
            QuicFrame::StreamBlocked(f) => f.spec_bytes(),
            QuicFrame::StreamIdNeeded(f) => f.spec_bytes(),
            QuicFrame::Padding(f) => f.spec_bytes(),
            QuicFrame::Ping(f) => f.spec_bytes(),
            QuicFrame::NewConnectionId(f) => f.spec_bytes(),
            QuicFrame::ConnectionClose(f) => f.spec_bytes(),
            QuicFrame::GoAway(f) => f.spec_bytes(),
            QuicFrame::ResetStream(f) => f.spec_bytes(),
        }
    }

    /// What decoding recovers from a buffer: the tag byte routes to the
    /// matching codec, and an unmatched byte decodes as padding.
    pub open spec fn spec_parse(s: Seq<u8>) -> Result<QuicFrameModel, QuicError> {
        if s.len() == 0 {
            Err(QuicError::ParseError)
        } else {
            let tag = s[0];
            if tag & 0xe0 == 0xa0 {
                match AckFrame::spec_parse(s) {
                    Ok(m) => Ok(QuicFrameModel::Ack(m)),
                    Err(e) => Err(e),
                }
            } else if tag & 0xc0 == 0xc0 {
                match StreamFrame::spec_parse(s) {
                    Ok(m) => Ok(QuicFrameModel::Stream(m)),
                    Err(e) => Err(e),
                }
            } else if tag == 0x01 {
                match ResetStreamFrame::spec_parse(s) {
                    Ok(f) => Ok(QuicFrameModel::ResetStream(f)),
                    Err(e) => Err(e),
                }
            } else if tag == 0x02 {
                match ConnectionCloseFrame::spec_parse(s) {
                    Ok(m) => Ok(QuicFrameModel::ConnectionClose(m)),
                    Err(e) => Err(e),
                }
            } else if tag == 0x03 {
                match GoAwayFrame::spec_parse(s) {
                    Ok(f) => Ok(QuicFrameModel::GoAway(f)),
                    Err(e) => Err(e),
                }
            } else if tag == 0x04 {
                match MaxDataFrame::spec_parse(s) {
                    Ok(f) => Ok(QuicFrameModel::MaxData(f)),
                    Err(e) => Err(e),
                }
            } else if tag == 0x05 {
                match MaxStreamDataFrame::spec_parse(s) {
                    Ok(f) => Ok(QuicFrameModel::MaxStreamData(f)),
                    Err(e) => Err(e),
                }
            } else if tag == 0x06 {
                match MaxStreamIdFrame::spec_parse(s) {
                    Ok(f) => Ok(QuicFrameModel::MaxStreamId(f)),
                    Err(e) => Err(e),
                }
            } else if tag == 0x07 {
                match PingFrame::spec_parse(s) {
                    Ok(f) => Ok(QuicFrameModel::Ping(f)),
                    Err(e) => Err(e),
                }
            } else if tag == 0x08 {
                match BlockedFrame::spec_parse(s) {
                    Ok(f) => Ok(QuicFrameModel::Blocked(f)),
                    Err(e) => Err(e),
                }
            } else if tag == 0x09 {
                match StreamBlockedFrame::spec_parse(s) {
                    Ok(f) => Ok(QuicFrameModel::StreamBlocked(f)),
                    Err(e) => Err(e),
                }
            } else if tag == 0x0a {
                match StreamIdNeededFrame::spec_parse(s) {
                    Ok(f) => Ok(QuicFrameModel::StreamIdNeeded(f)),
                    Err(e) => Err(e),
                }
            } else if tag == 0x0b {
                match NewConnectionIdFrame::spec_parse(s) {
                    Ok(f) => Ok(QuicFrameModel::NewConnectionId(f)),
                    Err(e) => Err(e),
                }
            } else {
                Ok(QuicFrameModel::Padding(PaddingFrame {  }))
            }
        }
    }

    /// Computed wire length under the same routing; an unmatched tag is a
    /// one-byte padding frame.
    pub open spec fn spec_wire_len(s: Seq<u8>) -> Result<int, QuicError> {
        if s.len() == 0 {
            Err(QuicError::ParseError)
        } else {
            let tag = s[0];
            if tag & 0xe0 == 0xa0 {
                AckFrame::spec_wire_len(s)
            } else if tag & 0xc0 == 0xc0 {
                StreamFrame::spec_wire_len(s)
            } else if tag == 0x01 {
                Ok(17)
            } else if tag == 0x02 {
                ConnectionCloseFrame::spec_wire_len(s)
            } else if tag == 0x03 {
                Ok(9)
            } else if tag == 0x04 {
                Ok(9)
            } else if tag == 0x05 {
                Ok(13)
            } else if tag == 0x06 {
                Ok(5)
            } else if tag == 0x07 {
                Ok(1)
            } else if tag == 0x08 {
                Ok(1)
            } else if tag == 0x09 {
                Ok(5)
            } else if tag == 0x0a {
                Ok(1)
            } else if tag == 0x0b {
                Ok(15)
            } else {
                Ok(1)
            }
        }
    }

    pub fn as_bytes(&self) -> (r: Vec<u8>)
        requires
            self.wf(),
        ensures
            r@ == self.spec_bytes(),
    {
        match self {
            QuicFrame::Stream(f) => f.as_bytes(),
            QuicFrame::Ack(f) => f.as_bytes(),
            QuicFrame::MaxData(f) => f.as_bytes(),
            QuicFrame::MaxStreamData(f) => f.as_bytes(),
            QuicFrame::MaxStreamId(f) => f.as_bytes(),
            QuicFrame::Blocked(f) => f.as_bytes(),
            QuicFrame::StreamBlocked(f) => f.as_bytes(),
            QuicFrame::StreamIdNeeded(f) => f.as_bytes(),
            QuicFrame::Padding(f) => f.as_bytes(),
            QuicFrame::Ping(f) => f.as_bytes(),
            QuicFrame::NewConnectionId(f) => f.as_bytes(),
            QuicFrame::ConnectionClose(f) => f.as_bytes(),
            QuicFrame::GoAway(f) => f.as_bytes(),
            QuicFrame::ResetStream(f) => f.as_bytes(),
        }
    }

    /// Whether the frame satisfies its encoding invariant, decided at run
    /// time so that encoders without a precondition can test it.
    pub fn check_wf(&self) -> (b: bool)
        ensures
            b == self.wf(),
    {
        match self {
            QuicFrame::Stream(f) => f.check_wf(),
            QuicFrame::Ack(f) => f.check_wf(),
            QuicFrame::ConnectionClose(f) => f.check_wf(),
            _ => true,
        }
    }

    pub fn from_bytes(buf: &[u8]) -> (r: Result<QuicFrame, QuicError>)
        ensures
            (match Self::spec_parse(buf@) {
                Ok(m) => r matches Ok(f) && f.model() == m,
                Err(e) => r == Err::<QuicFrame, QuicError>(e),
            }),
    {
        if buf.len() == 0 {
            return Err(QuicError::ParseError);
        }
        let tag = buf[0];
        if tag & 0xe0 == 0xa0 {
            match AckFrame::from_bytes(buf) {
                Ok(f) => Ok(QuicFrame::Ack(f)),
                Err(e) => Err(e),
            }
        } else if tag & 0xc0 == 0xc0 {
            match StreamFrame::from_bytes(buf) {
                Ok(f) => Ok(QuicFrame::Stream(f)),
                Err(e) => Err(e),
            }
        } else if tag == 0x01 {
            match ResetStreamFrame::from_bytes(buf) {
                Ok(f) => Ok(QuicFrame::ResetStream(f)),
                Err(e) => Err(e),
            }
        } else if tag == 0x02 {
            match ConnectionCloseFrame::from_bytes(buf) {
                Ok(f) => Ok(QuicFrame::ConnectionClose(f)),
                Err(e) => Err(e),
            }
        } else if tag == 0x03 {
            match GoAwayFrame::from_bytes(buf) {
                Ok(f) => Ok(QuicFrame::GoAway(f)),
                Err(e) => Err(e),
            }
        } else if tag == 0x04 {
            match MaxDataFrame::from_bytes(buf) {
                Ok(f) => Ok(QuicFrame::MaxData(f)),
                Err(e) => Err(e),
            }
        } else if tag == 0x05 {
            match MaxStreamDataFrame::from_bytes(buf) {
                Ok(f) => Ok(QuicFrame::MaxStreamData(f)),
                Err(e) => Err(e),
            }
        } else if tag == 0x06 {
            match MaxStreamIdFrame::from_bytes(buf) {
                Ok(f) => Ok(QuicFrame::MaxStreamId(f)),
                Err(e) => Err(e),
            }
        } else if tag == 0x07 {
            match PingFrame::from_bytes(buf) {
                Ok(f) => Ok(QuicFrame::Ping(f)),
                Err(e) => Err(e),
            }
        } else if tag == 0x08 {
            match BlockedFrame::from_bytes(buf) {
                Ok(f) => Ok(QuicFrame::Blocked(f)),
                Err(e) => Err(e),
            }
        } else if tag == 0x09 {
            match StreamBlockedFrame::from_bytes(buf) {
                Ok(f) => Ok(QuicFrame::StreamBlocked(f)),
                Err(e) => Err(e),
            }
        } else if tag == 0x0a {
            match StreamIdNeededFrame::from_bytes(buf) {
                Ok(f) => Ok(QuicFrame::StreamIdNeeded(f)),
                Err(e) => Err(e),
            }
        } else if tag == 0x0b {
            match NewConnectionIdFrame::from_bytes(buf) {
                Ok(f) => Ok(QuicFrame::NewConnectionId(f)),
                Err(e) => Err(e),
            }
        } else {
            Ok(QuicFrame::Padding(PaddingFrame {  }))
        }
    }

    /// Length probe under the same routing as `from_bytes`, delegating to
    /// each codec's own probe.
    pub fn frame_length(buf: &[u8]) -> (r: Result<usize, QuicError>)
        ensures
            (match Self::spec_wire_len(buf@) {
                Ok(n) => r matches Ok(v) && v == n,
                Err(e) => r == Err::<usize, QuicError>(e),
            }),
    {
        if buf.len() == 0 {
            return Err(QuicError::ParseError);
        }
        let tag = buf[0];
        if tag & 0xe0 == 0xa0 {
            AckFrame::frame_len(buf)
        } else if tag & 0xc0 == 0xc0 {
            StreamFrame::frame_len(buf)
        } else if tag == 0x01 {
            ResetStreamFrame::frame_len()
        } else if tag == 0x02 {
            ConnectionCloseFrame::frame_len(buf)
        } else if tag == 0x03 {
            GoAwayFrame::frame_len()
        } else if tag == 0x04 {
            MaxDataFrame::frame_len()
        } else if tag == 0x05 {
            MaxStreamDataFrame::frame_len()
        } else if tag == 0x06 {
            MaxStreamIdFrame::frame_len()
        } else if tag == 0x07 {
            PingFrame::frame_len()
        } else if tag == 0x08 {
            BlockedFrame::frame_len()
        } else if tag == 0x09 {
            StreamBlockedFrame::frame_len()
        } else if tag == 0x0a {
            StreamIdNeededFrame::frame_len()
        } else if tag == 0x0b {
            NewConnectionIdFrame::frame_len()
        } else {
            Ok(1)
        }
    }
}

impl PartialEq for QuicFrame {
    fn eq(&self, other: &Self) -> (r: bool) {
        match (self, other) {
            (QuicFrame::Stream(a), QuicFrame::Stream(b)) => a == b,
            (QuicFrame::Ack(a), QuicFrame::Ack(b)) => a == b,
            (QuicFrame::MaxData(a), QuicFrame::MaxData(b)) => a == b,
            (QuicFrame::MaxStreamData(a), QuicFrame::MaxStreamData(b)) => a == b,
            (QuicFrame::MaxStreamId(a), QuicFrame::MaxStreamId(b)) => a == b,
            (QuicFrame::Blocked(a), QuicFrame::Blocked(b)) => a == b,
            (QuicFrame::StreamBlocked(a), QuicFrame::StreamBlocked(b)) => a == b,
            (QuicFrame::StreamIdNeeded(a), QuicFrame::StreamIdNeeded(b)) => a == b,
            (QuicFrame::Padding(a), QuicFrame::Padding(b)) => a == b,
            (QuicFrame::Ping(a), QuicFrame::Ping(b)) => a == b,
            (QuicFrame::NewConnectionId(a), QuicFrame::NewConnectionId(b)) => a == b,
            (QuicFrame::ConnectionClose(a), QuicFrame::ConnectionClose(b)) => a == b,
            (QuicFrame::GoAway(a), QuicFrame::GoAway(b)) => a == b,
            (QuicFrame::ResetStream(a), QuicFrame::ResetStream(b)) => a == b,
            _ => false,
        }
    }
}

impl vstd::std_specs::cmp::PartialEqSpecImpl for QuicFrame {
    open spec fn obeys_eq_spec() -> bool {
        true
    }

    open spec fn eq_spec(&self, other: &QuicFrame) -> bool {
        self.model() == other.model()
    }
}

/// A fixed-tag frame byte lies below the ACK and STREAM family ranges.
proof fn lemma_fixed_tag_routing(t: u8)
    by (bit_vector)
    requires
        t < 0x20,
    ensures
        t & 0xe0 != 0xa0,
        t & 0xc0 != 0xc0,
{
}

/// Round trip and length-probe consistency for every frame kind: decoding an
/// encoded well-formed frame recovers its content whatever trailing bytes
/// follow, and the probe computes exactly the image's length.
pub proof fn lemma_frame_roundtrip(f: QuicFrame, rest: Seq<u8>)
    requires
        f.wf(),
    ensures
        QuicFrame::spec_parse(f.spec_bytes() + rest) == Ok::<QuicFrameModel, QuicError>(f.model()),
        QuicFrame::spec_wire_len(f.spec_bytes() + rest) == Ok::<int, QuicError>(
            f.spec_bytes().len() as int,
        ),
        f.spec_bytes().len() >= 1,
{
    let s = f.spec_bytes() + rest;
    match f {
        QuicFrame::Ack(a) => {
            lemma_ack_roundtrip(a, rest);
            let tag = a.spec_tag();
            assert(s[0] == tag);
            let nbit: u8 = if a.num_blocks is Some {
                0x10u8
            } else {
                0u8
            };
            let lcode = ack_frame::ack_width_code(a.largest_ack);
            let bcode = ack_frame::ack_width_code(a.spec_len_basis());
            assert(tag & 0xe0 == 0xa0) by (bit_vector)
                requires
                    tag == (0xa0u8 | nbit) | ((lcode << 2u8) | bcode),
                    nbit == 0x10 || nbit == 0,
                    lcode < 4,
                    bcode < 4,
            ;
        },
        QuicFrame::Stream(a) => {
            lemma_stream_roundtrip(a, rest);
            let tag = a.spec_tag();
            assert(s[0] == tag);
            let fbit: u8 = if a.fin {
                0x20u8
            } else {
                0u8
            };
            let ocode = stream_frame::offset_code(a.offset);
            let scode = stream_frame::sid_code(a.stream_id);
            assert(tag & 0xc0 == 0xc0 && tag & 0xe0 != 0xa0) by (bit_vector)
                requires
                    tag == (0xd0u8 | fbit) | ((ocode << 2u8) | scode),
                    fbit == 0x20 || fbit == 0,
                    ocode < 4,
                    scode < 4,
            ;
        },
        QuicFrame::MaxData(a) => {
            lemma_max_data_roundtrip(a, rest);
            assert(s[0] == 0x04);
            lemma_fixed_tag_routing(0x04);
        },
        QuicFrame::MaxStreamData(a) => {
            lemma_max_stream_data_roundtrip(a, rest);
            assert(s[0] == 0x05);
            lemma_fixed_tag_routing(0x05);
        },
        QuicFrame::MaxStreamId(a) => {
            lemma_max_stream_id_roundtrip(a, rest);
            assert(s[0] == 0x06);
            lemma_fixed_tag_routing(0x06);
        },
        QuicFrame::Blocked(a) => {
            lemma_blocked_roundtrip(a, rest);
            assert(s[0] == 0x08);
            lemma_fixed_tag_routing(0x08);
        },
        QuicFrame::StreamBlocked(a) => {
            lemma_stream_blocked_roundtrip(a, rest);
            assert(s[0] == 0x09);
            lemma_fixed_tag_routing(0x09);
        },
        QuicFrame::StreamIdNeeded(a) => {
            lemma_stream_id_needed_roundtrip(a, rest);
            assert(s[0] == 0x0a);
            lemma_fixed_tag_routing(0x0a);
        },
        QuicFrame::Padding(a) => {
            lemma_padding_roundtrip(a, rest);
            assert(s[0] == 0x00);
            lemma_fixed_tag_routing(0x00);
        },
        QuicFrame::Ping(a) => {
            lemma_ping_roundtrip(a, rest);
            assert(s[0] == 0x07);
            lemma_fixed_tag_routing(0x07);
        },
        QuicFrame::NewConnectionId(a) => {
            lemma_new_connection_id_roundtrip(a, rest);
            assert(s[0] == 0x0b);
            lemma_fixed_tag_routing(0x0b);
        },
        QuicFrame::ConnectionClose(a) => {
            lemma_connection_close_roundtrip(a, rest);
            assert(s[0] == 0x02);
            lemma_fixed_tag_routing(0x02);
        },
        QuicFrame::GoAway(a) => {
            lemma_goaway_roundtrip(a, rest);
            assert(s[0] == 0x03);
            lemma_fixed_tag_routing(0x03);
        },
        QuicFrame::ResetStream(a) => {
            lemma_reset_stream_roundtrip(a, rest);
            assert(s[0] == 0x01);
            lemma_fixed_tag_routing(0x01);
        },
    }
}

} // verus!
