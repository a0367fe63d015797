//! Packets: a header plus a payload, the unit exchanged with the transport.
//! This module also owns the packet-type enumerations that the header codecs
//! encode into their tag bytes.
//!
//! The payload of a long-form cleartext packet is a sequence of frames walked
//! frame by frame: the dispatcher's length probe bounds each frame, and a
//! probe that overshoots the buffer is a parse error.  Short-form packets
//! carry encrypted payloads, which this layer hands back as an empty frame
//! list — decryption belongs to the surrounding transport.

use vstd::prelude::*;
use vstd::slice::slice_subrange;

use crate::error::QuicError;
use crate::frames::QuicFrame;
use crate::frames::QuicFrameModel;
use crate::frames::lemma_frame_roundtrip;
use crate::header::LongHeader;
use crate::header::QuicHeader;
use crate::header::ShortHeader;
use crate::wire::be_bytes;
use crate::wire::be_val;
use crate::wire::lemma_pow256_values;
use crate::wire::push_be;
use crate::wire::read_be;

verus! {

/// Packet-number width selector of a short-form header.
#[derive(Debug, Clone, Copy, PartialEq, Eq, Structural)]
pub enum ShortPacketType {
    OneByte,
    TwoBytes,
    FourBytes,
}

/// Packet type of a long-form header.
#[derive(Debug, Clone, Copy, PartialEq, Eq, Structural)]
pub enum PacketType {
    VersionNegotiation,
    ClientCleartext,
    NonFinalCleartext,
    FinalServerCleartext,
    Rtt0Encrypted,
    Rtt1EncryptedPhase0,
    Rtt1EncryptedPhase1,
    PublicReset,
}

/// Wire bits of a short-header packet-number width selector.
pub open spec fn short_type_bits(t: ShortPacketType) -> u8 {
    match t {
        ShortPacketType::OneByte => 1,
        ShortPacketType::TwoBytes => 2,
        ShortPacketType::FourBytes => 3,
    }
}

/// The selector encoded by the given bits, if any.
pub open spec fn short_type_of_bits(b: u8) -> Option<ShortPacketType> {
    if b == 1 {
        Some(ShortPacketType::OneByte)
    } else if b == 2 {
        Some(ShortPacketType::TwoBytes)
    } else if b == 3 {
        Some(ShortPacketType::FourBytes)
    } else {
        None
    }
}

/// Bytes the packet number occupies under the given selector.
pub open spec fn short_pn_width(t: ShortPacketType) -> int {
    match t {
        ShortPacketType::OneByte => 1,
        ShortPacketType::TwoBytes => 2,
        ShortPacketType::FourBytes => 4,
    }
}

/// Wire bits of a long-header packet type.
pub open spec fn packet_type_bits(t: PacketType) -> u8 {
    match t {
        PacketType::VersionNegotiation => 1,
        PacketType::ClientCleartext => 2,
        PacketType::NonFinalCleartext => 3,
        PacketType::FinalServerCleartext => 4,
        PacketType::Rtt0Encrypted => 5,
        PacketType::Rtt1EncryptedPhase0 => 6,
        PacketType::Rtt1EncryptedPhase1 => 7,
        PacketType::PublicReset => 8,
    }
}

/// The packet type encoded by the given bits, if any.
pub open spec fn packet_type_of_bits(b: u8) -> Option<PacketType> {
    if b == 1 {
        Some(PacketType::VersionNegotiation)
    } else if b == 2 {
        Some(PacketType::ClientCleartext)
    } else if b == 3 {
        Some(PacketType::NonFinalCleartext)
    } else if b == 4 {
        Some(PacketType::FinalServerCleartext)
    } else if b == 5 {
        Some(PacketType::Rtt0Encrypted)
    } else if b == 6 {
        Some(PacketType::Rtt1EncryptedPhase0)
    } else if b == 7 {
        Some(PacketType::Rtt1EncryptedPhase1)
    } else if b == 8 {
        Some(PacketType::PublicReset)
    } else {
        None
    }
}


/// The public-reset payload shape; its framing is not defined yet, so it
/// carries nothing and decoding one is a parse error.
#[derive(Debug)]
pub struct PublicResetPayload {}

#[derive(Debug)]
pub struct VersionNegotiationPayload {
    pub versions: Vec<u32>,
}

/// Wire image of a version list: each version big-endian in 4 bytes.
pub open spec fn vn_bytes(vs: Seq<u32>) -> Seq<u8>
    decreases vs.len(),
{
    if vs.len() == 0 {
        Seq::empty()
    } else {
        be_bytes(vs[0] as u64, 4) + vn_bytes(vs.drop_first())
    }
}

/// The version list recovered from a payload: one version per full 4-byte
/// group, any trailing partial group ignored.
pub open spec fn spec_parse_vn(s: Seq<u8>) -> Seq<u32> {
    Seq::new((s.len() / 4) as nat, |i: int| be_val(s.subrange(4 * i, 4 * i + 4)) as u32)
}

pub proof fn lemma_vn_bytes_snoc(vs: Seq<u32>, v: u32)
    ensures
        vn_bytes(vs.push(v)) =~= vn_bytes(vs) + be_bytes(v as u64, 4),
    decreases vs.len(),
{
    if vs.len() == 0 {
        let single = vs.push(v);
        assert(single[0] == v);
        assert(single.drop_first() =~= Seq::<u32>::empty());
        assert(vn_bytes(Seq::<u32>::empty()) == Seq::<u8>::empty());
        assert(vn_bytes(single) == be_bytes(v as u64, 4) + Seq::<u8>::empty());
        assert(vn_bytes(vs) == Seq::<u8>::empty());
    } else {
        assert(vs.push(v).drop_first() =~= vs.drop_first().push(v));
        lemma_vn_bytes_snoc(vs.drop_first(), v);
        assert(vs.push(v)[0] == vs[0]);
    }
}

impl VersionNegotiationPayload {
    pub fn from_bytes(buf: &[u8]) -> (r: Result<VersionNegotiationPayload, QuicError>)
        ensures
            r matches Ok(p) && p.versions@ == spec_parse_vn(buf@),
    {
        let mut versions: Vec<u32> = Vec::new();
        let blen = buf.len();
        let n = blen / 4;
        let mut i: usize = 0;
        while i < n
            invariant
                i <= n == buf@.len() / 4,
                blen == buf@.len(),
                versions@.len() == i,
                forall|j: int|
                    0 <= j < i ==> versions@[j] == be_val(buf@.subrange(4 * j, 4 * j + 4)) as u32,
        decreases n - i,
        {
            let v = read_be(buf, 4 * i, 4);
            proof {
                lemma_pow256_values();
            }
            versions.push(v as u32);
            i = i + 1;
        }
        proof {
            assert(versions@ =~= spec_parse_vn(buf@));
        }
        Ok(VersionNegotiationPayload { versions })
    }

    pub fn as_bytes(&self) -> (r: Vec<u8>)
        ensures
            r@ == vn_bytes(self.versions@),
    {
        let mut out: Vec<u8> = Vec::new();
        let mut i: usize = 0;
        while i < self.versions.len()
            invariant
                i <= self.versions@.len(),
                out@ == vn_bytes(self.versions@.take(i as int)),
            decreases self.versions@.len() - i,
        {
            let ghost pre = self.versions@.take(i as int);
            push_be(&mut out, self.versions[i] as u64, 4);
            i = i + 1;
            proof {
                assert(self.versions@.take(i as int) =~= pre.push(self.versions@[i - 1]));
                lemma_vn_bytes_snoc(pre, self.versions@[i - 1]);
                assert(out@ =~= vn_bytes(self.versions@.take(i as int)));
            }
        }
        proof {
            assert(self.versions@.take(self.versions@.len() as int) =~= self.versions@);
        }
        out
    }
}

#[derive(Debug)]
pub enum QuicPayload {
    Frames(Vec<QuicFrame>),
    PublicReset(PublicResetPayload),
    VersionNegotiation(VersionNegotiationPayload),
}

/// The mathematical content of a payload.
pub enum QuicPayloadModel {
    Frames(Seq<QuicFrameModel>),
    PublicReset,
    VersionNegotiation(Seq<u32>),
}

/// Wire image of a frame sequence: the frames' images concatenated.
pub open spec fn frames_bytes(fs: Seq<QuicFrame>) -> Seq<u8>
    decreases fs.len(),
{
    if fs.len() == 0 {
        Seq::empty()
    } else {
        fs[0].spec_bytes() + frames_bytes(fs.drop_first())
    }
}

/// The models of a frame sequence, in order.
pub open spec fn frame_models(fs: Seq<QuicFrame>) -> Seq<QuicFrameModel> {
    Seq::new(fs.len(), |i: int| fs[i].model())
}

pub proof fn lemma_frames_bytes_snoc(fs: Seq<QuicFrame>, f: QuicFrame)
    ensures
        frames_bytes(fs.push(f)) =~= frames_bytes(fs) + f.spec_bytes(),
    decreases fs.len(),
{
    if fs.len() == 0 {
        let single = fs.push(f);
        assert(single[0] == f);
        assert(single.drop_first() =~= Seq::<QuicFrame>::empty());
        assert(frames_bytes(Seq::<QuicFrame>::empty()) == Seq::<u8>::empty());
        assert(frames_bytes(single) == f.spec_bytes() + Seq::<u8>::empty());
        assert(frames_bytes(fs) == Seq::<u8>::empty());
    } else {
        assert(fs.push(f).drop_first() =~= fs.drop_first().push(f));
        lemma_frames_bytes_snoc(fs.drop_first(), f);
        assert(fs.push(f)[0] == fs[0]);
    }
}

/// The frame models recovered by walking a nonempty payload frame by frame:
/// probe a frame's length, decode exactly that slice, continue after it.
/// The walk must land exactly on the end of the buffer.
pub open spec fn spec_walk_frames(s: Seq<u8>) -> Result<Seq<QuicFrameModel>, QuicError>
    decreases s.len(),
{
    if s.len() == 0 {
        Ok(Seq::empty())
    } else {
        match QuicFrame::spec_wire_len(s) {
            Err(e) => Err(e),
            Ok(l) => if l <= 0 || l > s.len() {
                Err(QuicError::ParseError)
            } else {
                match QuicFrame::spec_parse(s.take(l)) {
                    Err(e) => Err(e),
                    Ok(m) => match spec_walk_frames(s.skip(l)) {
                        Err(e) => Err(e),
                        Ok(ms) => Ok(seq![m] + ms),
                    },
                }
            },
        }
    }
}

/// What parsing a decrypted payload recovers: the frame walk, with the empty
/// payload rejected.
pub open spec fn spec_parse_payload(s: Seq<u8>) -> Result<Seq<QuicFrameModel>, QuicError> {
    if s.len() == 0 {
        Err(QuicError::ParseError)
    } else {
        spec_walk_frames(s)
    }
}

impl QuicPayload {
    /// The payload's mathematical content.
    pub open spec fn model(&self) -> QuicPayloadModel {
        match self {
            QuicPayload::Frames(fs) => QuicPayloadModel::Frames(frame_models(fs@)),
            QuicPayload::PublicReset(_) => QuicPayloadModel::PublicReset,
            QuicPayload::VersionNegotiation(p) => QuicPayloadModel::VersionNegotiation(
                p.versions@,
            ),
        }
    }

    /// Well-formedness for encoding: every carried frame must be encodable.
    pub open spec fn wf(&self) -> bool {
        match self {
            QuicPayload::Frames(fs) => forall|i: int| 0 <= i < fs@.len() ==> (#[trigger] fs@[i]).wf(),
            _ => true,
        }
    }

    /// Exact wire image: concatenated frames, an empty image for a public
    /// reset, or the version list.
    pub open spec fn spec_bytes(&self) -> Seq<u8> {
        match self {
            QuicPayload::Frames(fs) => frames_bytes(fs@),
            QuicPayload::PublicReset(_) => Seq::empty(),
            QuicPayload::VersionNegotiation(p) => vn_bytes(p.versions@),
        }
    }

    pub fn as_bytes(&self) -> (r: Vec<u8>)
        requires
            self.wf(),
        ensures
            r@ == self.spec_bytes(),
    {
        match self {
            QuicPayload::Frames(fs) => {
                let mut out: Vec<u8> = Vec::new();
                let mut i: usize = 0;
                while i < fs.len()
                    invariant
                        i <= fs@.len(),
                        forall|j: int| 0 <= j < fs@.len() ==> (#[trigger] fs@[j]).wf(),
                        out@ == frames_bytes(fs@.take(i as int)),
                    decreases fs@.len() - i,
                {
                    let ghost pre = fs@.take(i as int);
                    let mut piece = fs[i].as_bytes();
                    out.append(&mut piece);
                    i = i + 1;
                    proof {
                        assert(fs@.take(i as int) =~= pre.push(fs@[i - 1]));
                        lemma_frames_bytes_snoc(pre, fs@[i - 1]);
                        assert(out@ =~= frames_bytes(fs@.take(i as int)));
                    }
                }
                proof {
                    assert(fs@.take(fs@.len() as int) =~= fs@);
                }
                out
            },
            QuicPayload::PublicReset(_) => Vec::new(),
            QuicPayload::VersionNegotiation(p) => p.as_bytes(),
        }
    }

    /// Whether every carried frame is encodable, decided at run time.
    pub fn check_wf(&self) -> (b: bool)
        ensures
            b == self.wf(),
    {
        match self {
            QuicPayload::Frames(fs) => {
                let mut ok = true;
                let mut i: usize = 0;
                while i < fs.len()
                    invariant
                        i <= fs@.len(),
                        ok == (forall|j: int| 0 <= j < i ==> (#[trigger] fs@[j]).wf()),
                    decreases fs@.len() - i,
                {
                    if !fs[i].check_wf() {
                        ok = false;
                    }
                    i = i + 1;
                }
                ok
            },
            _ => true,
        }
    }
}

#[derive(Debug)]
pub struct QuicPacket {
    pub header: QuicHeader,
    pub payload: QuicPayload,
}

/// The mathematical content of a packet.  Headers carry only plain values,
/// so they stand in the model unchanged.
pub struct QuicPacketModel {
    pub header: QuicHeader,
    pub payload: QuicPayloadModel,
}

impl QuicHeader {
    /// Well-formedness of a header for encoding.
    pub open spec fn wf(&self) -> bool {
        match self {
            QuicHeader::Short(h) => h.wf(),
            QuicHeader::Long(h) => h.wf(),
        }
    }

    /// Exact wire image of a header.
    pub open spec fn spec_bytes(&self) -> Seq<u8> {
        match self {
            QuicHeader::Short(h) => h.spec_bytes(),
            QuicHeader::Long(h) => h.spec_bytes(),
        }
    }
}

impl QuicPacket {
    /// The packet's mathematical content.
    pub open spec fn model(&self) -> QuicPacketModel {
        QuicPacketModel { header: self.header, payload: self.payload.model() }
    }

    /// Well-formed packets: header invariant and encodable frames.
    pub open spec fn wf(&self) -> bool {
        self.header.wf() && self.payload.wf()
    }

    /// Exact wire image: header bytes then payload bytes.
    pub open spec fn spec_bytes(&self) -> Seq<u8> {
        self.header.spec_bytes() + self.payload.spec_bytes()
    }

    /// What decoding a datagram recovers.  The first byte routes on the
    /// long-form bit.  A long header is followed by a frame payload for the
    /// cleartext packet types, a version list for version negotiation, and
    /// is a parse error otherwise (public-reset framing is not defined).  A
    /// short header's encrypted payload is returned as an empty frame list.
    pub open spec fn spec_parse(s: Seq<u8>) -> Result<QuicPacketModel, QuicError> {
        if s.len() < 1 {
            Err(QuicError::ParseError)
        } else if s[0] & 0x80 != 0 {
            match LongHeader::spec_parse(s) {
                Err(e) => Err(e),
                Ok(h) => {
                    let p = s.subrange(17, s.len() as int);
                    if h.packet_type == PacketType::ClientCleartext || h.packet_type
                        == PacketType::NonFinalCleartext || h.packet_type
                        == PacketType::FinalServerCleartext {
                        match spec_parse_payload(p) {
                            Err(e) => Err(e),
                            Ok(ms) => Ok(
                                QuicPacketModel {
                                    header: QuicHeader::Long(h),
                                    payload: QuicPayloadModel::Frames(ms),
                                },
                            ),
                        }
                    } else if h.packet_type == PacketType::VersionNegotiation {
                        Ok(
                            QuicPacketModel {
                                header: QuicHeader::Long(h),
                                payload: QuicPayloadModel::VersionNegotiation(spec_parse_vn(p)),
                            },
                        )
                    } else {
                        Err(QuicError::ParseError)
                    }
                },
            }
        } else {
            match ShortHeader::spec_parse(s) {
                Err(e) => Err(e),
                Ok(h) => Ok(
                    QuicPacketModel {
                        header: QuicHeader::Short(h),
                        payload: QuicPayloadModel::Frames(Seq::empty()),
                    },
                ),
            }
        }
    }

    /// Walks a decrypted payload frame by frame: the length probe bounds each
    /// frame, the dispatcher decodes exactly that slice, and the walk must
    /// land exactly on the end of the buffer.
    pub fn parse_decrypted_payload(buf: &[u8]) -> (r: Result<Vec<QuicFrame>, QuicError>)
        ensures
            (match spec_parse_payload(buf@) {
                Ok(ms) => r matches Ok(v) && frame_models(v@) == ms,
                Err(e) => r == Err::<Vec<QuicFrame>, QuicError>(e),
            }),
    {
        if buf.len() == 0 {
            return Err(QuicError::ParseError);
        }
        let mut frames: Vec<QuicFrame> = Vec::new();
        let blen = buf.len();
        let mut pos: usize = 0;
        proof {
            assert(buf@.skip(0) =~= buf@);
            assert(frame_models(frames@) =~= Seq::<QuicFrameModel>::empty());
            if spec_walk_frames(buf@) is Ok {
                assert(frame_models(frames@) + spec_walk_frames(buf@)->Ok_0 =~= spec_walk_frames(
                    buf@,
                )->Ok_0);
            }
        }
        while pos < blen
            invariant
                pos <= blen == buf@.len(),
                (match spec_walk_frames(buf@.skip(pos as int)) {
                    Ok(ms2) => spec_walk_frames(buf@) == Ok::<Seq<QuicFrameModel>, QuicError>(
                        frame_models(frames@) + ms2,
                    ),
                    Err(e) => spec_walk_frames(buf@) == Err::<Seq<QuicFrameModel>, QuicError>(e),
                }),
            decreases blen - pos,
        {
            let ghost remaining = buf@.skip(pos as int);
            let tail = slice_subrange(buf, pos, blen);
            assert(tail@ =~= remaining);
            let l = match QuicFrame::frame_length(tail) {
                Ok(l) => l,
                Err(e) => {
                    return Err(e);
                },
            };
            if l == 0 || l > blen - pos {
                return Err(QuicError::ParseError);
            }
            let piece = slice_subrange(buf, pos, pos + l);
            assert(piece@ =~= remaining.take(l as int));
            let f = match QuicFrame::from_bytes(piece) {
                Ok(f) => f,
                Err(e) => {
                    return Err(e);
                },
            };
            let ghost pre = frames@;
            frames.push(f);
            pos = pos + l;
            proof {
                assert(buf@.skip(pos as int) =~= remaining.skip(l as int));
                assert(frame_models(frames@) =~= frame_models(pre).push(f.model()));
                if spec_walk_frames(buf@.skip(pos as int)) is Ok {
                    let ms2 = spec_walk_frames(buf@.skip(pos as int))->Ok_0;
                    assert(spec_walk_frames(remaining) == Ok::<Seq<QuicFrameModel>, QuicError>(
                        seq![f.model()] + ms2,
                    ));
                    assert(frame_models(frames@) + ms2 =~= frame_models(pre) + (seq![f.model()]
                        + ms2));
                }
            }
        }
        proof {
            assert(buf@.skip(pos as int) =~= Seq::<u8>::empty());
            assert(spec_walk_frames(Seq::<u8>::empty()) == Ok::<Seq<QuicFrameModel>, QuicError>(
                Seq::empty(),
            ));
            assert(frame_models(frames@) + Seq::<QuicFrameModel>::empty() =~= frame_models(
                frames@,
            ));
        }
        Ok(frames)
    }

    pub fn from_bytes(buf: &Vec<u8>) -> (r: Result<QuicPacket, QuicError>)
        ensures
            (match Self::spec_parse(buf@) {
                Ok(m) => r matches Ok(p) && p.model() == m,
                Err(e) => r == Err::<QuicPacket, QuicError>(e),
            }),
    {
        if buf.len() < 1 {
            return Err(QuicError::ParseError);
        }
        let first = buf[0];
        if first & 0x80 != 0 {
            let header = match LongHeader::from_bytes(buf.as_slice()) {
                Ok(h) => h,
                Err(e) => {
                    return Err(e);
                },
            };
            let body = slice_subrange(buf.as_slice(), 17, buf.len());
            assert(body@ =~= buf@.subrange(17, buf@.len() as int));
            let is_cleartext = match header.packet_type {
                PacketType::ClientCleartext => true,
                PacketType::NonFinalCleartext => true,
                PacketType::FinalServerCleartext => true,
                _ => false,
            };
            if is_cleartext {
                let frames = match Self::parse_decrypted_payload(body) {
                    Ok(fs) => fs,
                    Err(e) => {
                        return Err(e);
                    },
                };
                Ok(
                    QuicPacket {
                        header: QuicHeader::Long(header),
                        payload: QuicPayload::Frames(frames),
                    },
                )
            } else {
                let is_vn = match header.packet_type {
                    PacketType::VersionNegotiation => true,
                    _ => false,
                };
                if is_vn {
                    let vn = match VersionNegotiationPayload::from_bytes(body) {
                        Ok(v) => v,
                        Err(e) => {
                            return Err(e);
                        },
                    };
                    Ok(
                        QuicPacket {
                            header: QuicHeader::Long(header),
                            payload: QuicPayload::VersionNegotiation(vn),
                        },
                    )
                } else {
                    Err(QuicError::ParseError)
                }
            }
        } else {
            let header = match ShortHeader::from_bytes(buf.as_slice()) {
                Ok(h) => h,
                Err(e) => {
                    return Err(e);
                },
            };
            proof {
                assert(frame_models(Seq::<QuicFrame>::empty()) =~= Seq::<
                    QuicFrameModel,
                >::empty());
            }
            Ok(QuicPacket { header: QuicHeader::Short(header), payload: QuicPayload::Frames(Vec::new()) })
        }
    }

    /// Encodes the packet: header bytes then payload bytes.  A packet whose
    /// header or frames violate their encoding invariants is refused with a
    /// serialize error; one whose image would exceed the 1232-byte datagram
    /// ceiling is refused with a size error, never truncated.
    pub fn as_bytes(&self) -> (r: Result<Vec<u8>, QuicError>)
        ensures
            !self.wf() ==> r == Err::<Vec<u8>, QuicError>(QuicError::SerializeError),
            self.wf() && self.spec_bytes().len() > 1232 ==> r == Err::<Vec<u8>, QuicError>(
                QuicError::PacketTooLarge,
            ),
            self.wf() && self.spec_bytes().len() <= 1232 ==> (r matches Ok(v) && v@
                == self.spec_bytes()),
    {
        let header_ok = match &self.header {
            QuicHeader::Short(h) => h.check_wf(),
            QuicHeader::Long(h) => h.version != 0,
        };
        if !header_ok || !self.payload.check_wf() {
            return Err(QuicError::SerializeError);
        }
        let mut out = match &self.header {
            QuicHeader::Short(h) => h.as_bytes(),
            QuicHeader::Long(h) => h.as_bytes(),
        };
        let mut payload = self.payload.as_bytes();
        out.append(&mut payload);
        if out.len() > 1232 {
            return Err(QuicError::PacketTooLarge);
        }
        Ok(out)
    }
}

/// Walking the concatenated images of well-formed frames recovers exactly
/// those frames: every per-frame length probe lands on the next frame's tag
/// and the final probe lands exactly on the payload's end, with no leftover
/// bytes.
pub proof fn lemma_payload_walk(fs: Seq<QuicFrame>)
    requires
        forall|i: int| 0 <= i < fs.len() ==> (#[trigger] fs[i]).wf(),
    ensures
        spec_walk_frames(frames_bytes(fs)) == Ok::<Seq<QuicFrameModel>, QuicError>(
            frame_models(fs),
        ),
    decreases fs.len(),
{
    if fs.len() == 0 {
        assert(frames_bytes(fs) == Seq::<u8>::empty());
        assert(frame_models(fs) =~= Seq::<QuicFrameModel>::empty());
    } else {
        let f0 = fs[0];
        let rest = fs.drop_first();
        let tail_bytes = frames_bytes(rest);
        let s = frames_bytes(fs);
        assert(s == f0.spec_bytes() + tail_bytes);
        lemma_frame_roundtrip(f0, tail_bytes);
        let l = f0.spec_bytes().len() as int;
        assert(QuicFrame::spec_wire_len(s) == Ok::<int, QuicError>(l));
        assert(s.take(l) =~= f0.spec_bytes() + Seq::<u8>::empty());
        lemma_frame_roundtrip(f0, Seq::empty());
        assert(QuicFrame::spec_parse(s.take(l)) == Ok::<QuicFrameModel, QuicError>(f0.model()));
        assert(s.skip(l) =~= tail_bytes);
        lemma_payload_walk(rest);
        assert(frame_models(fs) =~= seq![f0.model()] + frame_models(rest));
    }
}

} // verus!
