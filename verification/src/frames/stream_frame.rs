//! The STREAM frame: carries a chunk of stream bytes at an offset, with
//! variable-width stream id and offset fields selected by bits of the tag.

use vstd::prelude::*;
use vstd::slice::slice_subrange;
use vstd::slice::slice_to_vec;

use crate::error::QuicError;
use crate::wire::be_bytes;
use crate::wire::be_val;
use crate::wire::lemma_be_bytes_len;
use crate::wire::lemma_be_val_of_be_bytes;
use crate::wire::lemma_pow256_values;
use crate::wire::pow256;
use crate::wire::push_be;
use crate::wire::read_be;

verus! {

#[derive(Debug, Clone)]
pub struct StreamFrame {
    pub fin: bool,
    pub data_length_present: bool,
    pub data_length: Option<u16>,
    pub stream_id: u32,
    pub offset: u64,
    pub stream_data: Vec<u8>,
}

/// The mathematical content of a stream frame: the payload is a byte
/// sequence rather than an executable `Vec`.
pub struct StreamFrameModel {
    pub fin: bool,
    pub data_length_present: bool,
    pub data_length: Option<u16>,
    pub stream_id: u32,
    pub offset: u64,
    pub stream_data: Seq<u8>,
}

/// The 2-bit offset width selector the encoder picks for `offset`:
/// 0 omits the field, then 2, 4 or 8 bytes.
pub open spec fn offset_code(offset: u64) -> u8 {
    if offset == 0 {
        0
    } else if offset <= 0xffff {
        1
    } else if offset <= 0xffff_ffff {
        2
    } else {
        3
    }
}

/// Bytes occupied by the offset field for a given selector.
pub open spec fn offset_width(code: u8) -> int {
    if code == 0 {
        0
    } else if code == 1 {
        2
    } else if code == 2 {
        4
    } else {
        8
    }
}

/// The 2-bit stream-id width selector the encoder picks: 1, 2 or 4 bytes
/// (the 3-byte form is decodable but never produced).
pub open spec fn sid_code(stream_id: u32) -> u8 {
    if stream_id <= 0xff {
        0
    } else if stream_id <= 0xffff {
        1
    } else {
        3
    }
}

impl StreamFrame {
    /// The frame's mathematical content.
    pub open spec fn model(&self) -> StreamFrameModel {
        StreamFrameModel {
            fin: self.fin,
            data_length_present: self.data_length_present,
            data_length: self.data_length,
            stream_id: self.stream_id,
            offset: self.offset,
            stream_data: self.stream_data@,
        }
    }

    /// Well-formed frames carry an explicit length that equals the payload
    /// length (the encoder always writes the length field).
    pub open spec fn wf(&self) -> bool {
        &&& self.data_length_present
        &&& self.data_length matches Some(n) && n as int == self.stream_data@.len()
    }

    /// The tag byte the encoder produces: STREAM family bits, fin flag,
    /// length-present flag, and the two width selectors.
    pub open spec fn spec_tag(&self) -> u8 {
        (0xd0u8 | (if self.fin {
            0x20u8
        } else {
            0u8
        })) | ((offset_code(self.offset) << 2) | sid_code(self.stream_id))
    }

    /// Exact wire image: tag, 2-byte data length, width-selected stream id,
    /// width-selected offset (omitted when zero), then the payload bytes.
    pub open spec fn spec_bytes(&self) -> Seq<u8> {
        seq![self.spec_tag()] + be_bytes(self.stream_data@.len() as u64, 2) + be_bytes(
            self.stream_id as u64,
            sid_code(self.stream_id) as int + 1,
        ) + be_bytes(self.offset, offset_width(offset_code(self.offset))) + self.stream_data@
    }

    /// What decoding recovers from a buffer: selectors and flags from the
    /// tag, then the fields at their selected widths; without an explicit
    /// length the payload runs to the end of the buffer.  A buffer too short
    /// for any field, or shorter than a declared payload length, is a parse
    /// error.
    pub open spec fn spec_parse(s: Seq<u8>) -> Result<StreamFrameModel, QuicError> {
        if s.len() < 1 {
            Err(QuicError::ParseError)
        } else {
            let tag = s[0];
            let fin = tag & 0x20 > 0;
            let dlp = tag & 0x10 > 0;
            let oo = (tag >> 2) & 0x03;
            let ss = tag & 0x03;
            let pos = if dlp {
                3int
            } else {
                1int
            };
            let w1 = ss as int + 1;
            let w2 = offset_width(oo);
            if dlp && s.len() < 3 {
                Err(QuicError::ParseError)
            } else if s.len() < pos + w1 + w2 {
                Err(QuicError::ParseError)
            } else {
                let dl = be_val(s.subrange(1, 3));
                let sid = be_val(s.subrange(pos, pos + w1)) as u32;
                let off = if oo == 0 {
                    0u64
                } else {
                    be_val(s.subrange(pos + w1, pos + w1 + w2)) as u64
                };
                let dstart = pos + w1 + w2;
                if dlp {
                    if s.len() < dstart + dl {
                        Err(QuicError::ParseError)
                    } else {
                        Ok(
                            StreamFrameModel {
                                fin,
                                data_length_present: true,
                                data_length: Some(dl as u16),
                                stream_id: sid,
                                offset: off,
                                stream_data: s.subrange(dstart, dstart + dl),
                            },
                        )
                    }
                } else {
                    Ok(
                        StreamFrameModel {
                            fin,
                            data_length_present: false,
                            data_length: None,
                            stream_id: sid,
                            offset: off,
                            stream_data: s.subrange(dstart, s.len() as int),
                        },
                    )
                }
            }
        }
    }

    pub fn as_bytes(&self) -> (r: Vec<u8>)
        requires
            self.wf(),
        ensures
            r@ == self.spec_bytes(),
    {
        let mut out: Vec<u8> = Vec::new();
        let ocode: u8 = if self.offset == 0 {
            0
        } else if self.offset <= 0xffff {
            1
        } else if self.offset <= 0xffff_ffff {
            2
        } else {
            3
        };
        let scode: u8 = if self.stream_id <= 0xff {
            0
        } else if self.stream_id <= 0xffff {
            1
        } else {
            3
        };
        let tag: u8 = (0xd0u8 | (if self.fin {
            0x20u8
        } else {
            0u8
        })) | ((ocode << 2u8) | scode);
        assert(tag == self.spec_tag());
        out.push(tag);
        push_be(&mut out, self.stream_data.len() as u64, 2);
        push_be(&mut out, self.stream_id as u64, scode as usize + 1);
        if ocode > 0 {
            let width: usize = if ocode == 1 {
                2
            } else if ocode == 2 {
                4
            } else {
                8
            };
            push_be(&mut out, self.offset, width);
        } else {
            proof {
                assert(be_bytes(self.offset, offset_width(0)) =~= Seq::<u8>::empty());
            }
        }
        let mut data = slice_to_vec(self.stream_data.as_slice());
        out.append(&mut data);
        proof {
            assert(out@ =~= self.spec_bytes());
        }
        out
    }

    pub fn from_bytes(buf: &[u8]) -> (r: Result<StreamFrame, QuicError>)
        ensures
            (match Self::spec_parse(buf@) {
                Ok(m) => r matches Ok(f) && f.model() == m,
                Err(e) => r == Err::<StreamFrame, QuicError>(e),
            }),
    {
        if buf.len() < 1 {
            return Err(QuicError::ParseError);
        }
        let tag = buf[0];
        let fin = tag & 0x20 > 0;
        let dlp = tag & 0x10 > 0;
        let oo = (tag >> 2u8) & 0x03;
        let ss = tag & 0x03;
        assert(oo < 4 && ss < 4) by (bit_vector)
            requires
                oo == (tag >> 2u8) & 0x03,
                ss == tag & 0x03,
        ;
        let pos: usize = if dlp {
            3
        } else {
            1
        };
        let w1: usize = ss as usize + 1;
        let w2: usize = if oo == 0 {
            0
        } else if oo == 1 {
            2
        } else if oo == 2 {
            4
        } else {
            8
        };
        if dlp && buf.len() < 3 {
            return Err(QuicError::ParseError);
        }
        if buf.len() < pos + w1 + w2 {
            return Err(QuicError::ParseError);
        }
        let dl: u64 = if dlp {
            read_be(buf, 1, 2)
        } else {
            0
        };
        let sid = read_be(buf, pos, w1);
        let off = if oo == 0 {
            0
        } else {
            read_be(buf, pos + w1, w2)
        };
        proof {
            lemma_pow256_values();
            crate::wire::lemma_pow256_increases(w1 as int, 4);
        }
        let dstart = pos + w1 + w2;
        if dlp {
            if buf.len() - dstart < dl as usize {
                return Err(QuicError::ParseError);
            }
            let data = slice_to_vec(slice_subrange(buf, dstart, dstart + dl as usize));
            Ok(
                StreamFrame {
                    fin,
                    data_length_present: true,
                    data_length: Some(dl as u16),
                    stream_id: sid as u32,
                    offset: off,
                    stream_data: data,
                },
            )
        } else {
            let data = slice_to_vec(slice_subrange(buf, dstart, buf.len()));
            Ok(
                StreamFrame {
                    fin,
                    data_length_present: false,
                    data_length: None,
                    stream_id: sid as u32,
                    offset: off,
                    stream_data: data,
                },
            )
        }
    }

    /// Computed wire length: from the tag's selectors and, when present, the
    /// declared data length; without one the frame runs to the buffer's end.
    pub open spec fn spec_wire_len(s: Seq<u8>) -> Result<int, QuicError> {
        if s.len() < 1 {
            Err(QuicError::ParseError)
        } else {
            let tag = s[0];
            let dlp = tag & 0x10 > 0;
            let oo = (tag >> 2) & 0x03;
            let ss = tag & 0x03;
            if dlp {
                if s.len() < 3 {
                    Err(QuicError::ParseError)
                } else {
                    Ok(3 + (ss as int + 1) + offset_width(oo) + be_val(s.subrange(1, 3)))
                }
            } else {
                Ok(s.len() as int)
            }
        }
    }

    /// Length probe: reads only the tag and the length-prefix field.
    pub fn frame_len(buf: &[u8]) -> (r: Result<usize, QuicError>)
        ensures
            (match Self::spec_wire_len(buf@) {
                Ok(n) => r matches Ok(v) && v == n,
                Err(e) => r == Err::<usize, QuicError>(e),
            }),
    {
        if buf.len() < 1 {
            return Err(QuicError::ParseError);
        }
        let tag = buf[0];
        let dlp = tag & 0x10 > 0;
        let oo = (tag >> 2u8) & 0x03;
        let ss = tag & 0x03;
        assert(oo < 4 && ss < 4) by (bit_vector)
            requires
                oo == (tag >> 2u8) & 0x03,
                ss == tag & 0x03,
        ;
        if !dlp {
            return Ok(buf.len());
        }
        if buf.len() < 3 {
            return Err(QuicError::ParseError);
        }
        let dl = read_be(buf, 1, 2);
        proof {
            lemma_pow256_values();
        }
        let w2: usize = if oo == 0 {
            0
        } else if oo == 1 {
            2
        } else if oo == 2 {
            4
        } else {
            8
        };
        Ok(3 + (ss as usize + 1) + w2 + dl as usize)
    }
}

impl StreamFrame {
    /// Whether the frame satisfies its encoding invariant, decided at run
    /// time so that encoders without a precondition can test it.
    pub fn check_wf(&self) -> (b: bool)
        ensures
            b == self.wf(),
    {
        self.data_length_present && (match self.data_length {
            Some(n) => n as usize == self.stream_data.len(),
            None => false,
        })
    }
}

impl PartialEq for StreamFrame {
    fn eq(&self, other: &Self) -> (r: bool) {
        let flags_eq = self.fin == other.fin && self.data_length_present
            == other.data_length_present && self.stream_id == other.stream_id && self.offset
            == other.offset;
        let dl_eq = match (self.data_length, other.data_length) {
            (Some(a), Some(b)) => a == b,
            (None, None) => true,
            _ => false,
        };
        let data_eq = self.stream_data == other.stream_data;
        if flags_eq && dl_eq && data_eq {
            proof {
                assert(self.stream_data@ =~= other.stream_data@);
            }
            true
        } else {
            false
        }
    }
}

impl vstd::std_specs::cmp::PartialEqSpecImpl for StreamFrame {
    open spec fn obeys_eq_spec() -> bool {
        true
    }

    open spec fn eq_spec(&self, other: &StreamFrame) -> bool {
        self.model() == other.model()
    }
}

/// Round trip: decoding an encoded well-formed frame recovers its content,
/// whatever trailing bytes follow; the image is exactly as long as the
/// length probe says.
pub proof fn lemma_stream_roundtrip(f: StreamFrame, rest: Seq<u8>)
    requires
        f.wf(),
    ensures
        StreamFrame::spec_parse(f.spec_bytes() + rest) == Ok::<StreamFrameModel, QuicError>(
            f.model(),
        ),
        StreamFrame::spec_wire_len(f.spec_bytes() + rest) == Ok::<int, QuicError>(
            f.spec_bytes().len() as int,
        ),
{
    lemma_pow256_values();
    let ocode = offset_code(f.offset);
    let scode = sid_code(f.stream_id);
    let w1 = scode as int + 1;
    let w2 = offset_width(ocode);
    let dl = f.stream_data@.len() as u64;
    let tag = f.spec_tag();
    lemma_be_bytes_len(dl, 2);
    lemma_be_bytes_len(f.stream_id as u64, w1);
    lemma_be_bytes_len(f.offset, w2);
    let s = f.spec_bytes() + rest;
    assert(s[0] == tag);
    let fbit: u8 = if f.fin {
        0x20u8
    } else {
        0u8
    };
    assert(tag == (0xd0u8 | fbit) | ((ocode << 2u8) | scode));
    assert(((tag & 0x20 > 0) <==> fbit == 0x20) && (tag & 0x10 > 0) && ((tag >> 2u8) & 0x03
        == ocode) && (tag & 0x03 == scode)) by (bit_vector)
        requires
            tag == (0xd0u8 | fbit) | ((ocode << 2u8) | scode),
            fbit == 0x20 || fbit == 0,
            ocode < 4,
            scode < 4,
    ;
    assert(s.subrange(1, 3) =~= be_bytes(dl, 2));
    lemma_be_val_of_be_bytes(dl, 2);
    assert(s.subrange(3, 3 + w1) =~= be_bytes(f.stream_id as u64, w1));
    assert((f.stream_id as u64) < pow256(w1)) by {
        crate::wire::lemma_pow256_increases(w1, 4);
    }
    lemma_be_val_of_be_bytes(f.stream_id as u64, w1);
    if ocode != 0 {
        assert(s.subrange(3 + w1, 3 + w1 + w2) =~= be_bytes(f.offset, w2));
        lemma_be_val_of_be_bytes(f.offset, w2);
    }
    assert(s.subrange(3 + w1 + w2, 3 + w1 + w2 + dl as int) =~= f.stream_data@);
}

} // verus!
