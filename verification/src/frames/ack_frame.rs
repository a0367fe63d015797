//! The ACK frame: largest acknowledged packet, ack delay, a first ack-block
//! length, and optional further ack blocks and receive timestamps.  The tag
//! byte selects the widths of the largest-ack and block-length fields; the
//! 2-bit selector state `2` is reserved and rejected on decode.

use vstd::prelude::*;

use crate::error::QuicError;
use crate::wire::be_bytes;
use crate::wire::be_val;
use crate::wire::lemma_be_bytes_len;
use crate::wire::lemma_be_val_of_be_bytes;
use crate::wire::lemma_pow256_values;
use crate::wire::pow256;
use crate::wire::push_be;
use crate::wire::read_be;

verus! {

#[derive(Debug, Clone, Copy, PartialEq, Eq, Structural)]
pub struct AckBlock {
    pub gap: u8,
    pub block_len: u64,
}

#[derive(Debug, Clone, Copy, PartialEq, Eq, Structural)]
pub struct AckTimestamp {
    pub delta_la: u8,
    pub time_since_prev: u16,
}

#[derive(Debug)]
pub struct AckFrame {
    pub num_blocks: Option<u8>,
    pub num_ts: u8,
    pub largest_ack: u64,
    pub ack_delay: u16,
    pub first_ack_len: u64,
    pub ack_blocks: Option<Vec<AckBlock>>,
    pub delta_la: Option<u8>,
    pub first_ts: Option<u32>,
    pub timestamps: Option<Vec<AckTimestamp>>,
}

/// The mathematical content of an ACK frame: block and timestamp lists are
/// sequences rather than executable `Vec`s.
pub struct AckFrameModel {
    pub num_blocks: Option<u8>,
    pub num_ts: u8,
    pub largest_ack: u64,
    pub ack_delay: u16,
    pub first_ack_len: u64,
    pub ack_blocks: Option<Seq<AckBlock>>,
    pub delta_la: Option<u8>,
    pub first_ts: Option<u32>,
    pub timestamps: Option<Seq<AckTimestamp>>,
}

/// The width selector the encoder picks for a value: 1, 2 or 4 bytes.
/// State `2` is reserved on the wire, so 4-byte fields use selector `3`.
pub open spec fn ack_width_code(v: u64) -> u8 {
    if v < 0xff {
        0
    } else if v < 0xffff {
        1
    } else {
        3
    }
}

/// Bytes occupied by a field under a (non-reserved) width selector.
pub open spec fn ack_sel_width(code: u8) -> int {
    if code == 0 {
        1
    } else if code == 1 {
        2
    } else {
        4
    }
}

/// Wire image of one ack block: gap byte, then the block length at the
/// selected width.
pub open spec fn block_bytes(b: AckBlock, w: int) -> Seq<u8> {
    seq![b.gap] + be_bytes(b.block_len, w)
}

/// Wire image of a list of ack blocks.
pub open spec fn blocks_bytes(bs: Seq<AckBlock>, w: int) -> Seq<u8>
    decreases bs.len(),
{
    if bs.len() == 0 {
        Seq::empty()
    } else {
        block_bytes(bs[0], w) + blocks_bytes(bs.drop_first(), w)
    }
}

/// Wire image of one timestamp entry: delta byte, then 2-byte delta time.
pub open spec fn ts_bytes(t: AckTimestamp) -> Seq<u8> {
    seq![t.delta_la] + be_bytes(t.time_since_prev as u64, 2)
}

/// Wire image of a list of timestamp entries.
pub open spec fn ts_list_bytes(ts: Seq<AckTimestamp>) -> Seq<u8>
    decreases ts.len(),
{
    if ts.len() == 0 {
        Seq::empty()
    } else {
        ts_bytes(ts[0]) + ts_list_bytes(ts.drop_first())
    }
}

/// The ack blocks recovered from `k` consecutive entries starting at `pos`.
pub open spec fn parse_blocks(s: Seq<u8>, pos: int, k: int, w: int) -> Seq<AckBlock>
    decreases k,
{
    if k <= 0 {
        Seq::empty()
    } else {
        seq![
            AckBlock {
                gap: s[pos],
                block_len: be_val(s.subrange(pos + 1, pos + 1 + w)) as u64,
            },
        ] + parse_blocks(s, pos + 1 + w, k - 1, w)
    }
}

/// The timestamps recovered from `k` consecutive 3-byte entries at `pos`.
pub open spec fn parse_ts(s: Seq<u8>, pos: int, k: int) -> Seq<AckTimestamp>
    decreases k,
{
    if k <= 0 {
        Seq::empty()
    } else {
        seq![
            AckTimestamp {
                delta_la: s[pos],
                time_since_prev: be_val(s.subrange(pos + 1, pos + 3)) as u16,
            },
        ] + parse_ts(s, pos + 3, k - 1)
    }
}

/// Largest block length in a list (0 when empty).
pub open spec fn blocks_max(bs: Seq<AckBlock>) -> u64
    decreases bs.len(),
{
    if bs.len() == 0 {
        0
    } else {
        let m = blocks_max(bs.drop_last());
        if bs.last().block_len > m {
            bs.last().block_len
        } else {
            m
        }
    }
}

pub proof fn lemma_blocks_max_ge(bs: Seq<AckBlock>, i: int)
    requires
        0 <= i < bs.len(),
    ensures
        bs[i].block_len <= blocks_max(bs),
    decreases bs.len(),
{
    if i < bs.len() - 1 {
        lemma_blocks_max_ge(bs.drop_last(), i);
    }
}

pub proof fn lemma_blocks_bytes_len(bs: Seq<AckBlock>, w: int)
    requires
        w >= 0,
    ensures
        blocks_bytes(bs, w).len() == bs.len() * (1 + w),
    decreases bs.len(),
{
    let n = bs.len() as int;
    if bs.len() > 0 {
        lemma_be_bytes_len(bs[0].block_len, w);
        lemma_blocks_bytes_len(bs.drop_first(), w);
        assert(n * (1 + w) == (n - 1) * (1 + w) + (1 + w)) by (nonlinear_arith);
    } else {
        assert(n * (1 + w) == 0) by (nonlinear_arith)
            requires
                n == 0,
        ;
    }
}

pub proof fn lemma_ts_list_bytes_len(ts: Seq<AckTimestamp>)
    ensures
        ts_list_bytes(ts).len() == 3 * ts.len(),
    decreases ts.len(),
{
    if ts.len() > 0 {
        lemma_be_bytes_len(ts[0].time_since_prev as u64, 2);
        lemma_ts_list_bytes_len(ts.drop_first());
    }
}

pub proof fn lemma_blocks_bytes_snoc(bs: Seq<AckBlock>, b: AckBlock, w: int)
    ensures
        blocks_bytes(bs.push(b), w) =~= blocks_bytes(bs, w) + block_bytes(b, w),
    decreases bs.len(),
{
    if bs.len() == 0 {
        let single = bs.push(b);
        assert(single[0] == b);
        assert(single.drop_first() =~= Seq::<AckBlock>::empty());
        assert(blocks_bytes(Seq::<AckBlock>::empty(), w) == Seq::<u8>::empty());
        assert(blocks_bytes(single, w) == block_bytes(b, w) + Seq::<u8>::empty());
        assert(blocks_bytes(bs, w) == Seq::<u8>::empty());
    } else {
        assert(bs.push(b).drop_first() =~= bs.drop_first().push(b));
        lemma_blocks_bytes_snoc(bs.drop_first(), b, w);
        assert(bs.push(b)[0] == bs[0]);
    }
}

pub proof fn lemma_ts_list_bytes_snoc(ts: Seq<AckTimestamp>, t: AckTimestamp)
    ensures
        ts_list_bytes(ts.push(t)) =~= ts_list_bytes(ts) + ts_bytes(t),
    decreases ts.len(),
{
    if ts.len() == 0 {
        let single = ts.push(t);
        assert(single[0] == t);
        assert(single.drop_first() =~= Seq::<AckTimestamp>::empty());
        assert(ts_list_bytes(Seq::<AckTimestamp>::empty()) == Seq::<u8>::empty());
        assert(ts_list_bytes(single) == ts_bytes(t) + Seq::<u8>::empty());
        assert(ts_list_bytes(ts) == Seq::<u8>::empty());
    } else {
        assert(ts.push(t).drop_first() =~= ts.drop_first().push(t));
        lemma_ts_list_bytes_snoc(ts.drop_first(), t);
        assert(ts.push(t)[0] == ts[0]);
    }
}

pub proof fn lemma_parse_blocks_snoc(s: Seq<u8>, pos: int, k: int, w: int)
    requires
        k >= 1,
    ensures
        parse_blocks(s, pos, k, w) =~= parse_blocks(s, pos, k - 1, w).push(
            AckBlock {
                gap: s[pos + (k - 1) * (1 + w)],
                block_len: be_val(
                    s.subrange(pos + (k - 1) * (1 + w) + 1, pos + (k - 1) * (1 + w) + 1 + w),
                ) as u64,
            },
        ),
    decreases k,
{
    if k == 1 {
        assert((k - 1) * (1 + w) == 0) by (nonlinear_arith)
            requires
                k == 1,
        ;
        assert(parse_blocks(s, pos + 1 + w, 0, w) == Seq::<AckBlock>::empty());
        assert(parse_blocks(s, pos, 0, w) == Seq::<AckBlock>::empty());
    } else {
        lemma_parse_blocks_snoc(s, pos + 1 + w, k - 1, w);
        assert(pos + 1 + w + (k - 2) * (1 + w) == pos + (k - 1) * (1 + w)) by (nonlinear_arith);
    }
}

pub proof fn lemma_parse_ts_snoc(s: Seq<u8>, pos: int, k: int)
    requires
        k >= 1,
    ensures
        parse_ts(s, pos, k) =~= parse_ts(s, pos, k - 1).push(
            AckTimestamp {
                delta_la: s[pos + (k - 1) * 3],
                time_since_prev: be_val(
                    s.subrange(pos + (k - 1) * 3 + 1, pos + (k - 1) * 3 + 3),
                ) as u16,
            },
        ),
    decreases k,
{
    if k == 1 {
        assert(parse_ts(s, pos + 3, 0) == Seq::<AckTimestamp>::empty());
        assert(parse_ts(s, pos, 0) == Seq::<AckTimestamp>::empty());
    } else {
        lemma_parse_ts_snoc(s, pos + 3, k - 1);
    }
}

/// Parsing the wire image of a block list recovers the list exactly.
pub proof fn lemma_parse_blocks_of_bytes(s: Seq<u8>, pos: int, bs: Seq<AckBlock>, w: int)
    requires
        w >= 1,
        0 <= pos,
        pos + bs.len() * (1 + w) <= s.len(),
        s.subrange(pos, pos + bs.len() * (1 + w)) =~= blocks_bytes(bs, w),
        forall|i: int| 0 <= i < bs.len() ==> (#[trigger] bs[i]).block_len < pow256(w),
    ensures
        parse_blocks(s, pos, bs.len() as int, w) =~= bs,
    decreases bs.len(),
{
    lemma_blocks_bytes_len(bs, w);
    if bs.len() > 0 {
        let n = bs.len() as int;
        let b0 = bs[0];
        let rest = bs.drop_first();
        let enc = be_bytes(b0.block_len, w);
        let sb = s.subrange(pos, pos + n * (1 + w));
        lemma_be_bytes_len(b0.block_len, w);
        lemma_blocks_bytes_len(rest, w);
        assert((n - 1) * (1 + w) == n * (1 + w) - (1 + w)) by (nonlinear_arith);
        assert(sb == block_bytes(b0, w) + blocks_bytes(rest, w));
        assert(s[pos] == b0.gap) by {
            assert(sb[0] == (block_bytes(b0, w) + blocks_bytes(rest, w))[0]);
            assert(block_bytes(b0, w)[0] == b0.gap);
        }
        assert(s.subrange(pos + 1, pos + 1 + w) =~= enc) by {
            assert forall|j: int| 0 <= j < w implies s[pos + 1 + j] == enc[j] by {
                assert(sb[1 + j] == block_bytes(b0, w)[1 + j]);
                assert(block_bytes(b0, w)[1 + j] == enc[j]);
            }
        }
        lemma_be_val_of_be_bytes(b0.block_len, w);
        assert(s.subrange(pos + 1 + w, pos + 1 + w + (n - 1) * (1 + w)) =~= blocks_bytes(
            rest,
            w,
        )) by {
            assert forall|j: int| 0 <= j < (n - 1) * (1 + w) implies s[pos + 1 + w + j]
                == blocks_bytes(rest, w)[j] by {
                assert(sb[1 + w + j] == blocks_bytes(rest, w)[j]);
            }
        }
        lemma_parse_blocks_of_bytes(s, pos + 1 + w, rest, w);
        assert(parse_blocks(s, pos, n, w) =~= seq![
            AckBlock { gap: s[pos], block_len: be_val(s.subrange(pos + 1, pos + 1 + w)) as u64 },
        ] + parse_blocks(s, pos + 1 + w, n - 1, w));
    }
}

/// Parsing the wire image of a timestamp list recovers the list exactly.
pub proof fn lemma_parse_ts_of_bytes(s: Seq<u8>, pos: int, ts: Seq<AckTimestamp>)
    requires
        0 <= pos,
        pos + 3 * ts.len() <= s.len(),
        s.subrange(pos, pos + 3 * ts.len()) =~= ts_list_bytes(ts),
    ensures
        parse_ts(s, pos, ts.len() as int) =~= ts,
    decreases ts.len(),
{
    lemma_ts_list_bytes_len(ts);
    lemma_pow256_values();
    if ts.len() > 0 {
        let n = ts.len() as int;
        let t0 = ts[0];
        let rest = ts.drop_first();
        let enc = be_bytes(t0.time_since_prev as u64, 2);
        let sb = s.subrange(pos, pos + 3 * n);
        lemma_be_bytes_len(t0.time_since_prev as u64, 2);
        lemma_ts_list_bytes_len(rest);
        assert(sb == ts_bytes(t0) + ts_list_bytes(rest));
        assert(s[pos] == t0.delta_la) by {
            assert(sb[0] == (ts_bytes(t0) + ts_list_bytes(rest))[0]);
            assert(ts_bytes(t0)[0] == t0.delta_la);
        }
        assert(s.subrange(pos + 1, pos + 3) =~= enc) by {
            assert forall|j: int| 0 <= j < 2 implies s[pos + 1 + j] == enc[j] by {
                assert(sb[1 + j] == ts_bytes(t0)[1 + j]);
                assert(ts_bytes(t0)[1 + j] == enc[j]);
            }
        }
        lemma_be_val_of_be_bytes(t0.time_since_prev as u64, 2);
        assert(s.subrange(pos + 3, pos + 3 + 3 * (n - 1)) =~= ts_list_bytes(rest)) by {
            assert forall|j: int| 0 <= j < 3 * (n - 1) implies s[pos + 3 + j] == ts_list_bytes(
                rest,
            )[j] by {
                assert(sb[3 + j] == ts_list_bytes(rest)[j]);
            }
        }
        lemma_parse_ts_of_bytes(s, pos + 3, rest);
        assert(parse_ts(s, pos, n) =~= seq![
            AckTimestamp {
                delta_la: s[pos],
                time_since_prev: be_val(s.subrange(pos + 1, pos + 3)) as u16,
            },
        ] + parse_ts(s, pos + 3, n - 1));
    }
}

impl AckBlock {
    /// What decoding recovers: a gap byte and a `field_len`-byte length.
    pub open spec fn spec_parse(s: Seq<u8>, field_len: int) -> Result<AckBlock, QuicError> {
        if s.len() < 1 + field_len {
            Err(QuicError::ParseError)
        } else {
            Ok(AckBlock { gap: s[0], block_len: be_val(s.subrange(1, 1 + field_len)) as u64 })
        }
    }

    pub fn from_bytes(buf: &[u8], field_len: usize) -> (r: Result<AckBlock, QuicError>)
        requires
            1 <= field_len <= 8,
        ensures
            r == Self::spec_parse(buf@, field_len as int),
    {
        if buf.len() < 1 + field_len {
            return Err(QuicError::ParseError);
        }
        let gap = buf[0];
        let block_len = read_be(buf, 1, field_len);
        proof {
            lemma_pow256_values();
        }
        Ok(AckBlock { gap, block_len })
    }

    pub fn as_bytes(&self, block_len_len: crate::util::OFSize) -> (r: Vec<u8>)
        requires
            block_len_len != crate::util::OFSize::U64,
        ensures
            r@ == seq![self.gap] + be_bytes(
                self.block_len,
                crate::util::spec_size_bytes(block_len_len),
            ),
    {
        let mut out: Vec<u8> = Vec::new();
        out.push(self.gap);
        let width: usize = match block_len_len {
            crate::util::OFSize::U8 => 1,
            crate::util::OFSize::U16 => 2,
            crate::util::OFSize::U32 => 4,
            crate::util::OFSize::U48 => 6,
            crate::util::OFSize::U64 => 8,
        };
        push_be(&mut out, self.block_len, width);
        proof {
            assert(out@ =~= seq![self.gap] + be_bytes(
                self.block_len,
                crate::util::spec_size_bytes(block_len_len),
            ));
        }
        out
    }
}

impl AckTimestamp {
    /// What decoding recovers: a delta byte and a 2-byte delta time.
    pub open spec fn spec_parse(s: Seq<u8>) -> Result<AckTimestamp, QuicError> {
        if s.len() < 3 {
            Err(QuicError::ParseError)
        } else {
            Ok(AckTimestamp { delta_la: s[0], time_since_prev: be_val(s.subrange(1, 3)) as u16 })
        }
    }

    pub fn from_bytes(buf: &[u8]) -> (r: Result<AckTimestamp, QuicError>)
        ensures
            r == Self::spec_parse(buf@),
    {
        if buf.len() < 3 {
            return Err(QuicError::ParseError);
        }
        let delta_la = buf[0];
        let time_since_prev = read_be(buf, 1, 2);
        proof {
            lemma_pow256_values();
        }
        Ok(AckTimestamp { delta_la, time_since_prev: time_since_prev as u16 })
    }

    pub fn as_bytes(&self) -> (r: Vec<u8>)
        ensures
            r@ == ts_bytes(*self),
    {
        let mut out: Vec<u8> = Vec::new();
        out.push(self.delta_la);
        push_be(&mut out, self.time_since_prev as u64, 2);
        proof {
            assert(out@ =~= ts_bytes(*self));
        }
        out
    }
}

impl AckFrame {
    /// The frame's mathematical content.
    pub open spec fn model(&self) -> AckFrameModel {
        AckFrameModel {
            num_blocks: self.num_blocks,
            num_ts: self.num_ts,
            largest_ack: self.largest_ack,
            ack_delay: self.ack_delay,
            first_ack_len: self.first_ack_len,
            ack_blocks: match self.ack_blocks {
                Some(bs) => Some(bs@),
                None => None,
            },
            delta_la: self.delta_la,
            first_ts: self.first_ts,
            timestamps: match self.timestamps {
                Some(ts) => Some(ts@),
                None => None,
            },
        }
    }

    /// The value the block-length width selector must cover: the first ack
    /// block length and every further block length.
    pub open spec fn spec_len_basis(&self) -> u64 {
        match self.ack_blocks {
            Some(bs) => if blocks_max(bs@) > self.first_ack_len {
                blocks_max(bs@)
            } else {
                self.first_ack_len
            },
            None => self.first_ack_len,
        }
    }

    /// Well-formed frames: counts match list lengths, the optional sections
    /// are present together, and every width-selected value is small enough
    /// for a representable selector (the 6-byte width has no reachable
    /// selector state, so values must fit 4 bytes).
    pub open spec fn wf(&self) -> bool {
        &&& self.largest_ack < 0xffff_ffff
        &&& self.first_ack_len < 0xffff_ffff
        &&& (match (self.num_blocks, self.ack_blocks) {
            (Some(k), Some(bs)) => k > 0 && bs@.len() == k && (forall|i: int|
                0 <= i < bs@.len() ==> (#[trigger] bs@[i]).block_len < 0xffff_ffff),
            (None, None) => true,
            _ => false,
        })
        &&& (if self.num_ts > 0 {
            &&& self.delta_la is Some
            &&& self.first_ts is Some
            &&& self.timestamps matches Some(ts) && ts@.len() == self.num_ts
        } else {
            &&& self.delta_la is None
            &&& self.first_ts is None
            &&& self.timestamps is None
        })
    }

    /// The tag byte the encoder produces: ACK family bits, block-section
    /// flag, and the two width selectors.
    pub open spec fn spec_tag(&self) -> u8 {
        (0xa0u8 | (if self.num_blocks is Some {
            0x10u8
        } else {
            0u8
        })) | ((ack_width_code(self.largest_ack) << 2u8) | ack_width_code(self.spec_len_basis()))
    }

    /// Exact wire image: tag, optional block count, timestamp count,
    /// width-selected largest ack, 2-byte delay, width-selected first block
    /// length, the ack blocks, then the optional timestamp section.
    pub open spec fn spec_bytes(&self) -> Seq<u8> {
        let la_w = ack_sel_width(ack_width_code(self.largest_ack));
        let ab_w = ack_sel_width(ack_width_code(self.spec_len_basis()));
        seq![self.spec_tag()] + (match self.num_blocks {
            Some(k) => seq![k],
            None => Seq::empty(),
        }) + seq![self.num_ts] + be_bytes(self.largest_ack, la_w) + be_bytes(
            self.ack_delay as u64,
            2,
        ) + be_bytes(self.first_ack_len, ab_w) + (match self.ack_blocks {
            Some(bs) => blocks_bytes(bs@, ab_w),
            None => Seq::empty(),
        }) + (if self.num_ts > 0 {
            seq![self.delta_la->0] + be_bytes(self.first_ts->0 as u64, 4) + (
            match self.timestamps {
                Some(ts) => ts_list_bytes(ts@),
                None => Seq::empty(),
            })
        } else {
            Seq::empty()
        })
    }

    /// What decoding recovers from a buffer.  A reserved width selector or a
    /// buffer too short for the fixed fields, the declared block section or
    /// the declared timestamp section is a parse error.  An empty block list
    /// decodes as an absent one.
    pub open spec fn spec_parse(s: Seq<u8>) -> Result<AckFrameModel, QuicError> {
        if s.len() < 1 {
            Err(QuicError::ParseError)
        } else {
            let tag = s[0];
            let n = tag & 0x10 > 0;
            let ll = (tag & 0x0c) >> 2;
            let mm = tag & 0x03;
            if ll == 2 || mm == 2 {
                Err(QuicError::ParseError)
            } else {
                let la_w = ack_sel_width(ll);
                let ab_w = ack_sel_width(mm);
                let pos0 = if n {
                    2int
                } else {
                    1int
                };
                let fixed = pos0 + 1 + la_w + 2 + ab_w;
                if s.len() < fixed {
                    Err(QuicError::ParseError)
                } else {
                    let k = if n {
                        s[1] as int
                    } else {
                        0int
                    };
                    let num_ts = s[pos0];
                    let largest_ack = be_val(s.subrange(pos0 + 1, pos0 + 1 + la_w)) as u64;
                    let ack_delay = be_val(s.subrange(pos0 + 1 + la_w, pos0 + 3 + la_w)) as u16;
                    let first_ack_len = be_val(s.subrange(pos0 + 3 + la_w, fixed)) as u64;
                    if s.len() < fixed + k * (1 + ab_w) {
                        Err(QuicError::ParseError)
                    } else {
                        let blocks = parse_blocks(s, fixed, k, ab_w);
                        let ts_pos = fixed + k * (1 + ab_w);
                        if num_ts > 0 && s.len() < ts_pos + 5 + 3 * (num_ts as int) {
                            Err(QuicError::ParseError)
                        } else {
                            Ok(
                                AckFrameModel {
                                    num_blocks: if n {
                                        Some(s[1])
                                    } else {
                                        None
                                    },
                                    num_ts,
                                    largest_ack,
                                    ack_delay,
                                    first_ack_len,
                                    ack_blocks: if n && k > 0 {
                                        Some(blocks)
                                    } else {
                                        None
                                    },
                                    delta_la: if num_ts > 0 {
                                        Some(s[ts_pos])
                                    } else {
                                        None
                                    },
                                    first_ts: if num_ts > 0 {
                                        Some(be_val(s.subrange(ts_pos + 1, ts_pos + 5)) as u32)
                                    } else {
                                        None
                                    },
                                    timestamps: if num_ts > 0 {
                                        Some(parse_ts(s, ts_pos + 5, num_ts as int))
                                    } else {
                                        None
                                    },
                                },
                            )
                        }
                    }
                }
            }
        }
    }

    /// Computed wire length: selector widths, the block count and the
    /// timestamp count, read without decoding the sections themselves.
    pub open spec fn spec_wire_len(s: Seq<u8>) -> Result<int, QuicError> {
        if s.len() < 1 {
            Err(QuicError::ParseError)
        } else {
            let tag = s[0];
            let n = tag & 0x10 > 0;
            let ll = (tag & 0x0c) >> 2;
            let mm = tag & 0x03;
            if ll == 2 || mm == 2 {
                Err(QuicError::ParseError)
            } else {
                let la_w = ack_sel_width(ll);
                let ab_w = ack_sel_width(mm);
                let pos0 = if n {
                    2int
                } else {
                    1int
                };
                if s.len() < pos0 + 1 {
                    Err(QuicError::ParseError)
                } else {
                    let k = if n {
                        s[1] as int
                    } else {
                        0int
                    };
                    let num_ts = s[pos0] as int;
                    Ok(
                        pos0 + 1 + la_w + 2 + ab_w + k * (1 + ab_w) + (if num_ts > 0 {
                            5 + 3 * num_ts
                        } else {
                            0int
                        }),
                    )
                }
            }
        }
    }

    pub fn as_bytes(&self) -> (r: Vec<u8>)
        requires
            self.wf(),
        ensures
            r@ == self.spec_bytes(),
    {
        let mut out: Vec<u8> = Vec::new();
        // The block-length selector must cover the first block length and
        // every further block length.
        let mut basis: u64 = self.first_ack_len;
        match &self.ack_blocks {
            Some(bs) => {
                let mut i: usize = 0;
                while i < bs.len()
                    invariant
                        i <= bs@.len(),
                        basis == if blocks_max(bs@.take(i as int)) > self.first_ack_len {
                            blocks_max(bs@.take(i as int))
                        } else {
                            self.first_ack_len
                        },
                    decreases bs@.len() - i,
                {
                    let ghost pre = bs@.take(i as int);
                    if bs[i].block_len > basis {
                        basis = bs[i].block_len;
                    }
                    i = i + 1;
                    proof {
                        assert(bs@.take(i as int).drop_last() =~= pre);
                        assert(bs@.take(i as int).last() == bs@[i - 1]);
                    }
                }
                proof {
                    assert(bs@.take(bs@.len() as int) =~= bs@);
                }
            },
            None => {},
        }
        assert(basis == self.spec_len_basis());
        let lcode: u8 = if self.largest_ack < 0xff {
            0
        } else if self.largest_ack < 0xffff {
            1
        } else {
            3
        };
        let bcode: u8 = if basis < 0xff {
            0
        } else if basis < 0xffff {
            1
        } else {
            3
        };
        let la_w: usize = if lcode == 0 {
            1
        } else if lcode == 1 {
            2
        } else {
            4
        };
        let ab_w: usize = if bcode == 0 {
            1
        } else if bcode == 1 {
            2
        } else {
            4
        };
        let tag: u8 = (0xa0u8 | (if self.num_blocks.is_some() {
            0x10u8
        } else {
            0u8
        })) | ((lcode << 2u8) | bcode);
        assert(tag == self.spec_tag());
        out.push(tag);
        match self.num_blocks {
            Some(k) => {
                out.push(k);
            },
            None => {},
        }
        out.push(self.num_ts);
        push_be(&mut out, self.largest_ack, la_w);
        push_be(&mut out, self.ack_delay as u64, 2);
        push_be(&mut out, self.first_ack_len, ab_w);
        let ghost mid = out@;
        match &self.ack_blocks {
            Some(bs) => {
                let mut i: usize = 0;
                while i < bs.len()
                    invariant
                        i <= bs@.len(),
                        ab_w == ack_sel_width(ack_width_code(self.spec_len_basis())),
                        out@ == mid + blocks_bytes(bs@.take(i as int), ab_w as int),
                    decreases bs@.len() - i,
                {
                    let ghost pre = bs@.take(i as int);
                    out.push(bs[i].gap);
                    push_be(&mut out, bs[i].block_len, ab_w);
                    i = i + 1;
                    proof {
                        assert(bs@.take(i as int) =~= pre.push(bs@[i - 1]));
                        lemma_blocks_bytes_snoc(pre, bs@[i - 1], ab_w as int);
                        assert(out@ =~= mid + blocks_bytes(bs@.take(i as int), ab_w as int));
                    }
                }
                proof {
                    assert(bs@.take(bs@.len() as int) =~= bs@);
                }
            },
            None => {
                proof {
                    assert(blocks_bytes(Seq::<AckBlock>::empty(), ab_w as int) == Seq::<
                        u8,
                    >::empty());
                }
            },
        }
        if self.num_ts > 0 {
            match (&self.delta_la, &self.first_ts, &self.timestamps) {
                (Some(d), Some(ft), Some(ts)) => {
                    out.push(*d);
                    push_be(&mut out, *ft as u64, 4);
                    let ghost mid2 = out@;
                    let mut i: usize = 0;
                    while i < ts.len()
                        invariant
                            i <= ts@.len(),
                            out@ == mid2 + ts_list_bytes(ts@.take(i as int)),
                        decreases ts@.len() - i,
                    {
                        let ghost pre = ts@.take(i as int);
                        out.push(ts[i].delta_la);
                        push_be(&mut out, ts[i].time_since_prev as u64, 2);
                        i = i + 1;
                        proof {
                            assert(ts@.take(i as int) =~= pre.push(ts@[i - 1]));
                            lemma_ts_list_bytes_snoc(pre, ts@[i - 1]);
                            assert(out@ =~= mid2 + ts_list_bytes(ts@.take(i as int)));
                        }
                    }
                    proof {
                        assert(ts@.take(ts@.len() as int) =~= ts@);
                    }
                },
                _ => {
                    proof {
                        assert(false);
                    }
                },
            }
        }
        proof {
            assert(out@ =~= self.spec_bytes());
        }
        out
    }

    #[verifier::rlimit(60)]
    pub fn from_bytes(buf: &[u8]) -> (r: Result<AckFrame, QuicError>)
        ensures
            (match Self::spec_parse(buf@) {
                Ok(m) => r matches Ok(f) && f.model() == m,
                Err(e) => r == Err::<AckFrame, QuicError>(e),
            }),
    {
        if buf.len() < 1 {
            return Err(QuicError::ParseError);
        }
        let tag = buf[0];
        let n = tag & 0x10 > 0;
        let ll = (tag & 0x0c) >> 2u8;
        let mm = tag & 0x03;
        assert(ll < 4 && mm < 4) by (bit_vector)
            requires
                ll == (tag & 0x0c) >> 2u8,
                mm == tag & 0x03,
        ;
        if ll == 2 || mm == 2 {
            return Err(QuicError::ParseError);
        }
        let la_w: usize = if ll == 0 {
            1
        } else if ll == 1 {
            2
        } else {
            4
        };
        let ab_w: usize = if mm == 0 {
            1
        } else if mm == 1 {
            2
        } else {
            4
        };
        let pos0: usize = if n {
            2
        } else {
            1
        };
        let fixed = pos0 + 1 + la_w + 2 + ab_w;
        if buf.len() < fixed {
            return Err(QuicError::ParseError);
        }
        let k: usize = if n {
            buf[1] as usize
        } else {
            0
        };
        let num_ts = buf[pos0];
        let largest_ack = read_be(buf, pos0 + 1, la_w);
        let ack_delay = read_be(buf, pos0 + 1 + la_w, 2);
        let first_ack_len = read_be(buf, pos0 + 3 + la_w, ab_w);
        proof {
            lemma_pow256_values();
        }
        if (buf.len() - fixed) / (1 + ab_w) < k {
            proof {
                assert(buf@.len() < fixed + k * (1 + ab_w)) by (nonlinear_arith)
                    requires
                        (buf@.len() - fixed) / ((1 + ab_w) as int) < k,
                        buf@.len() >= fixed,
                        1 <= 1 + ab_w,
                ;
            }
            return Err(QuicError::ParseError);
        }
        proof {
            assert(fixed + k * (1 + ab_w) <= buf@.len()) by (nonlinear_arith)
                requires
                    (buf@.len() - fixed) / ((1 + ab_w) as int) >= k,
                    buf@.len() >= fixed,
                    1 <= 1 + ab_w,
                    0 <= k,
            ;
        }
        let mut blocks: Vec<AckBlock> = Vec::new();
        let mut i: usize = 0;
        let mut pos = fixed;
        while i < k
            invariant
                i <= k,
                pos == fixed + i * (1 + ab_w),
                fixed + k * (1 + ab_w) <= buf@.len(),
                1 <= ab_w <= 4,
                blocks@ == parse_blocks(buf@, fixed as int, i as int, ab_w as int),
            decreases k - i,
        {
            proof {
                assert(fixed + i * (1 + ab_w) + (1 + ab_w) <= fixed + k * (1 + ab_w))
                    by (nonlinear_arith)
                    requires
                        i < k,
                        1 <= ab_w,
                        0 <= fixed,
                ;
            }
            let gap = buf[pos];
            let block_len = read_be(buf, pos + 1, ab_w);
            blocks.push(AckBlock { gap, block_len });
            pos = pos + 1 + ab_w;
            i = i + 1;
            proof {
                lemma_parse_blocks_snoc(buf@, fixed as int, i as int, ab_w as int);
                assert((i - 1) * (1 + ab_w) + (1 + ab_w) == i * (1 + ab_w)) by (nonlinear_arith);
                assert(blocks@ =~= parse_blocks(buf@, fixed as int, i as int, ab_w as int));
            }
        }
        let ts_pos = pos;
        assert(ts_pos == fixed + k * (1 + ab_w));
        let num_blocks = if n {
            Some(buf[1])
        } else {
            None
        };
        let ack_blocks = if n && k > 0 {
            Some(blocks)
        } else {
            None
        };
        if num_ts > 0 {
            if (buf.len() - ts_pos) < 5 || (buf.len() - ts_pos - 5) / 3 < num_ts as usize {
                proof {
                    assert(buf@.len() < ts_pos + 5 + 3 * (num_ts as int)) by (nonlinear_arith)
                        requires
                            buf@.len() - ts_pos < 5 || (buf@.len() - ts_pos - 5) / 3 < num_ts as int,
                            buf@.len() >= ts_pos >= 0,
                    ;
                }
                return Err(QuicError::ParseError);
            }
            proof {
                assert(ts_pos + 5 + 3 * (num_ts as int) <= buf@.len()) by (nonlinear_arith)
                    requires
                        buf@.len() - ts_pos >= 5,
                        (buf@.len() - ts_pos - 5) / 3 >= num_ts as int,
                        buf@.len() >= ts_pos >= 0,
                ;
            }
            let delta_la = buf[ts_pos];
            let first_ts = read_be(buf, ts_pos + 1, 4);
            let mut tss: Vec<AckTimestamp> = Vec::new();
            let mut j: usize = 0;
            let tstart = ts_pos + 5;
            let blen = buf.len();
            while j < num_ts as usize
                invariant
                    j <= num_ts as usize,
                    tstart + 3 * (num_ts as int) <= blen == buf@.len(),
                    tss@ == parse_ts(buf@, tstart as int, j as int),
                decreases num_ts as usize - j,
            {
                let p = tstart + 3 * j;
                let delta = buf[p];
                let since = read_be(buf, p + 1, 2);
                tss.push(AckTimestamp { delta_la: delta, time_since_prev: since as u16 });
                j = j + 1;
                proof {
                    lemma_parse_ts_snoc(buf@, tstart as int, j as int);
                    assert(tss@ =~= parse_ts(buf@, tstart as int, j as int));
                }
            }
            Ok(
                AckFrame {
                    num_blocks,
                    num_ts,
                    largest_ack,
                    ack_delay: ack_delay as u16,
                    first_ack_len,
                    ack_blocks,
                    delta_la: Some(delta_la),
                    first_ts: Some(first_ts as u32),
                    timestamps: Some(tss),
                },
            )
        } else {
            Ok(
                AckFrame {
                    num_blocks,
                    num_ts,
                    largest_ack,
                    ack_delay: ack_delay as u16,
                    first_ack_len,
                    ack_blocks,
                    delta_la: None,
                    first_ts: None,
                    timestamps: None,
                },
            )
        }
    }

    /// Length probe: reads only the tag, the block count and the timestamp
    /// count, never the sections themselves.
    pub fn frame_len(buf: &[u8]) -> (r: Result<usize, QuicError>)
        ensures
            (match Self::spec_wire_len(buf@) {
                Ok(x) => r matches Ok(v) && v == x,
                Err(e) => r == Err::<usize, QuicError>(e),
            }),
    {
        if buf.len() < 1 {
            return Err(QuicError::ParseError);
        }
        let tag = buf[0];
        let n = tag & 0x10 > 0;
        let ll = (tag & 0x0c) >> 2u8;
        let mm = tag & 0x03;
        assert(ll < 4 && mm < 4) by (bit_vector)
            requires
                ll == (tag & 0x0c) >> 2u8,
                mm == tag & 0x03,
        ;
        if ll == 2 || mm == 2 {
            return Err(QuicError::ParseError);
        }
        let la_w: usize = if ll == 0 {
            1
        } else if ll == 1 {
            2
        } else {
            4
        };
        let ab_w: usize = if mm == 0 {
            1
        } else if mm == 1 {
            2
        } else {
            4
        };
        let pos0: usize = if n {
            2
        } else {
            1
        };
        if buf.len() < pos0 + 1 {
            return Err(QuicError::ParseError);
        }
        let k: usize = if n {
            buf[1] as usize
        } else {
            0
        };
        let num_ts = buf[pos0] as usize;
        proof {
            assert(k * (1 + ab_w) <= 1275) by (nonlinear_arith)
                requires
                    0 <= k <= 255,
                    1 <= ab_w <= 4,
            ;
        }
        Ok(
            pos0 + 1 + la_w + 2 + ab_w + k * (1 + ab_w) + (if num_ts > 0 {
                5 + 3 * num_ts
            } else {
                0
            }),
        )
    }
}

impl AckFrame {
    /// Whether the frame satisfies its encoding invariant, decided at run
    /// time so that encoders without a precondition can test it.
    pub fn check_wf(&self) -> (b: bool)
        ensures
            b == self.wf(),
    {
        let scalars_ok = self.largest_ack < 0xffff_ffff && self.first_ack_len < 0xffff_ffff;
        let blocks_ok = match (self.num_blocks, &self.ack_blocks) {
            (Some(k), Some(bs)) => {
                let mut all_small = true;
                let mut i: usize = 0;
                while i < bs.len()
                    invariant
                        i <= bs@.len(),
                        all_small == (forall|j: int|
                            0 <= j < i ==> (#[trigger] bs@[j]).block_len < 0xffff_ffff),
                    decreases bs@.len() - i,
                {
                    if bs[i].block_len >= 0xffff_ffff {
                        all_small = false;
                    }
                    i = i + 1;
                }
                k > 0 && bs.len() == k as usize && all_small
            },
            (None, None) => true,
            _ => false,
        };
        let ts_ok = if self.num_ts > 0 {
            self.delta_la.is_some() && self.first_ts.is_some() && (match &self.timestamps {
                Some(ts) => ts.len() == self.num_ts as usize,
                None => false,
            })
        } else {
            self.delta_la.is_none() && self.first_ts.is_none() && self.timestamps.is_none()
        };
        scalars_ok && blocks_ok && ts_ok
    }
}

fn blocks_eq(a: &Vec<AckBlock>, b: &Vec<AckBlock>) -> (r: bool)
    ensures
        r == (a@ == b@),
{
    if a.len() != b.len() {
        proof {
            assert(a@ != b@);
        }
        return false;
    }
    let mut i: usize = 0;
    while i < a.len()
        invariant
            i <= a@.len() == b@.len(),
            forall|j: int| 0 <= j < i ==> a@[j] == b@[j],
        decreases a@.len() - i,
    {
        if a[i].gap != b[i].gap || a[i].block_len != b[i].block_len {
            proof {
                assert(a@[i as int] != b@[i as int]);
            }
            return false;
        }
        i = i + 1;
    }
    proof {
        assert(a@ =~= b@);
    }
    true
}

fn ts_eq(a: &Vec<AckTimestamp>, b: &Vec<AckTimestamp>) -> (r: bool)
    ensures
        r == (a@ == b@),
{
    if a.len() != b.len() {
        proof {
            assert(a@ != b@);
        }
        return false;
    }
    let mut i: usize = 0;
    while i < a.len()
        invariant
            i <= a@.len() == b@.len(),
            forall|j: int| 0 <= j < i ==> a@[j] == b@[j],
        decreases a@.len() - i,
    {
        if a[i].delta_la != b[i].delta_la || a[i].time_since_prev != b[i].time_since_prev {
            proof {
                assert(a@[i as int] != b@[i as int]);
            }
            return false;
        }
        i = i + 1;
    }
    proof {
        assert(a@ =~= b@);
    }
    true
}

impl PartialEq for AckFrame {
    fn eq(&self, other: &Self) -> (r: bool) {
        let scalars_eq = self.num_ts == other.num_ts && self.largest_ack == other.largest_ack
            && self.ack_delay == other.ack_delay && self.first_ack_len == other.first_ack_len;
        let nb_eq = match (self.num_blocks, other.num_blocks) {
            (Some(a), Some(b)) => a == b,
            (None, None) => true,
            _ => false,
        };
        let dla_eq = match (self.delta_la, other.delta_la) {
            (Some(a), Some(b)) => a == b,
            (None, None) => true,
            _ => false,
        };
        let fts_eq = match (self.first_ts, other.first_ts) {
            (Some(a), Some(b)) => a == b,
            (None, None) => true,
            _ => false,
        };
        let ab_eq = match (&self.ack_blocks, &other.ack_blocks) {
            (Some(a), Some(b)) => blocks_eq(a, b),
            (None, None) => true,
            _ => false,
        };
        let ts_same = match (&self.timestamps, &other.timestamps) {
            (Some(a), Some(b)) => ts_eq(a, b),
            (None, None) => true,
            _ => false,
        };
        scalars_eq && nb_eq && dla_eq && fts_eq && ab_eq && ts_same
    }
}

impl vstd::std_specs::cmp::PartialEqSpecImpl for AckFrame {
    open spec fn obeys_eq_spec() -> bool {
        true
    }

    open spec fn eq_spec(&self, other: &AckFrame) -> bool {
        self.model() == other.model()
    }
}

/// Round trip: decoding an encoded well-formed frame recovers its content,
/// whatever trailing bytes follow; the image is exactly as long as the
/// length probe says.
#[verifier::rlimit(80)]
pub proof fn lemma_ack_roundtrip(f: AckFrame, rest: Seq<u8>)
    requires
        f.wf(),
    ensures
        AckFrame::spec_parse(f.spec_bytes() + rest) == Ok::<AckFrameModel, QuicError>(f.model()),
        AckFrame::spec_wire_len(f.spec_bytes() + rest) == Ok::<int, QuicError>(
            f.spec_bytes().len() as int,
        ),
{
    lemma_pow256_values();
    let lcode = ack_width_code(f.largest_ack);
    let bcode = ack_width_code(f.spec_len_basis());
    let la_w = ack_sel_width(lcode);
    let ab_w = ack_sel_width(bcode);
    let tag = f.spec_tag();
    let nbit: u8 = if f.num_blocks is Some {
        0x10u8
    } else {
        0u8
    };
    assert(tag == (0xa0u8 | nbit) | ((lcode << 2u8) | bcode));
    assert(((tag & 0x10 > 0) <==> nbit == 0x10) && ((tag & 0x0c) >> 2u8 == lcode) && (tag & 0x03
        == bcode)) by (bit_vector)
        requires
            tag == (0xa0u8 | nbit) | ((lcode << 2u8) | bcode),
            nbit == 0x10 || nbit == 0,
            lcode == 0 || lcode == 1 || lcode == 3,
            bcode == 0 || bcode == 1 || bcode == 3,
    ;
    lemma_be_bytes_len(f.largest_ack, la_w);
    lemma_be_bytes_len(f.ack_delay as u64, 2);
    lemma_be_bytes_len(f.first_ack_len, ab_w);
    let kseq: Seq<u8> = match f.num_blocks {
        Some(k) => seq![k],
        None => Seq::empty(),
    };
    let bseq: Seq<u8> = match f.ack_blocks {
        Some(bs) => blocks_bytes(bs@, ab_w),
        None => Seq::empty(),
    };
    let k = match f.num_blocks {
        Some(k0) => k0 as int,
        None => 0int,
    };
    if f.ack_blocks is Some {
        let bs = f.ack_blocks->0;
        lemma_blocks_bytes_len(bs@, ab_w);
        assert(bseq.len() == k * (1 + ab_w));
    } else {
        assert(k * (1 + ab_w) == 0) by (nonlinear_arith)
            requires
                k == 0,
        ;
    }
    let tseq: Seq<u8> = if f.num_ts > 0 {
        seq![f.delta_la->0] + be_bytes(f.first_ts->0 as u64, 4) + (match f.timestamps {
            Some(ts) => ts_list_bytes(ts@),
            None => Seq::empty(),
        })
    } else {
        Seq::empty()
    };
    if f.num_ts > 0 {
        let ts = f.timestamps->0;
        lemma_be_bytes_len(f.first_ts->0 as u64, 4);
        lemma_ts_list_bytes_len(ts@);
        assert(tseq.len() == 5 + 3 * (f.num_ts as int));
    }
    let s = f.spec_bytes() + rest;
    let pos0 = if f.num_blocks is Some {
        2int
    } else {
        1int
    };
    let fixed = pos0 + 1 + la_w + 2 + ab_w;
    assert(f.spec_bytes() == seq![tag] + kseq + seq![f.num_ts] + be_bytes(f.largest_ack, la_w)
        + be_bytes(f.ack_delay as u64, 2) + be_bytes(f.first_ack_len, ab_w) + bseq + tseq);
    assert(f.spec_bytes().len() == fixed + k * (1 + ab_w) + tseq.len());
    assert(s[0] == tag);
    if f.num_blocks is Some {
        assert(s[1] == f.num_blocks->0);
    }
    assert(s[pos0] == f.num_ts);
    // Recover the width-selected fields.
    assert(s.subrange(pos0 + 1, pos0 + 1 + la_w) =~= be_bytes(f.largest_ack, la_w));
    assert(f.largest_ack < pow256(la_w));
    lemma_be_val_of_be_bytes(f.largest_ack, la_w);
    assert(s.subrange(pos0 + 1 + la_w, pos0 + 3 + la_w) =~= be_bytes(f.ack_delay as u64, 2));
    lemma_be_val_of_be_bytes(f.ack_delay as u64, 2);
    assert(s.subrange(pos0 + 3 + la_w, fixed) =~= be_bytes(f.first_ack_len, ab_w));
    assert(f.first_ack_len < pow256(ab_w));
    lemma_be_val_of_be_bytes(f.first_ack_len, ab_w);
    // Recover the block section.
    if f.ack_blocks is Some {
        let bs = f.ack_blocks->0;
        assert(s.subrange(fixed, fixed + k * (1 + ab_w)) =~= blocks_bytes(bs@, ab_w));
        assert forall|i: int| 0 <= i < bs@.len() implies (#[trigger] bs@[i]).block_len < pow256(
            ab_w,
        ) by {
            lemma_blocks_max_ge(bs@, i);
        }
        lemma_parse_blocks_of_bytes(s, fixed, bs@, ab_w);
    }
    // Recover the timestamp section.
    let ts_pos = fixed + k * (1 + ab_w);
    if f.num_ts > 0 {
        let ts = f.timestamps->0;
        assert(s[ts_pos] == f.delta_la->0);
        assert(s.subrange(ts_pos + 1, ts_pos + 5) =~= be_bytes(f.first_ts->0 as u64, 4));
        lemma_be_val_of_be_bytes(f.first_ts->0 as u64, 4);
        assert(s.subrange(ts_pos + 5, ts_pos + 5 + 3 * (ts@.len() as int)) =~= ts_list_bytes(ts@));
        lemma_parse_ts_of_bytes(s, ts_pos + 5, ts@);
    }
}

} // verus!
