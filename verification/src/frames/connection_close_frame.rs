//! The CONNECTION_CLOSE frame: error code, reason length, and a UTF-8
//! reason phrase.  Decoding rejects a reason that is not valid UTF-8 with a
//! distinct error kind.

use vstd::prelude::*;
use vstd::slice::slice_subrange;
use vstd::slice::slice_to_vec;
use vstd::string::StrSliceExecFns;
use vstd::utf8::decode_utf8;
use vstd::utf8::decode_utf8_encode_utf8;
use vstd::utf8::encode_utf8;
use vstd::utf8::encode_utf8_decode_utf8;
use vstd::utf8::encode_utf8_valid_utf8;
use vstd::utf8::valid_utf8;

use crate::error::QuicError;
use crate::wire::be_bytes;
use crate::wire::be_val;
use crate::wire::lemma_be_bytes_len;
use crate::wire::lemma_be_val_of_be_bytes;
use crate::wire::lemma_pow256_values;
use crate::wire::push_be;
use crate::wire::read_be;

verus! {

#[derive(Debug)]
pub struct ConnectionCloseFrame {
    pub error_code: u32,
    pub reason_length: u16,
    pub reason_phrase: Option<String>,
}

/// The mathematical content of a connection-close frame: the phrase is a
/// character sequence rather than an executable `String`.
pub struct ConnectionCloseModel {
    pub error_code: u32,
    pub reason_length: u16,
    pub reason: Option<Seq<char>>,
}

impl ConnectionCloseFrame {
    /// The frame's mathematical content.
    pub open spec fn model(&self) -> ConnectionCloseModel {
        ConnectionCloseModel {
            error_code: self.error_code,
            reason_length: self.reason_length,
            reason: match self.reason_phrase {
                Some(p) => Some(p@),
                None => None,
            },
        }
    }

    /// The UTF-8 image of the reason phrase (empty when absent).
    pub open spec fn spec_reason_bytes(&self) -> Seq<u8> {
        match self.reason_phrase {
            Some(p) => encode_utf8(p@),
            None => Seq::empty(),
        }
    }

    /// Well-formed frames: the length field equals the byte length of the
    /// phrase's UTF-8 image, and a phrase is present exactly when that
    /// length is nonzero.
    pub open spec fn wf(&self) -> bool {
        &&& self.reason_length as int == self.spec_reason_bytes().len()
        &&& (self.reason_phrase is Some <==> self.reason_length > 0)
    }

    /// Exact wire image: tag byte, 4-byte error code, 2-byte reason length,
    /// then the reason's UTF-8 bytes.
    pub open spec fn spec_bytes(&self) -> Seq<u8> {
        seq![0x02u8] + be_bytes(self.error_code as u64, 4) + be_bytes(
            self.spec_reason_bytes().len() as u64,
            2,
        ) + self.spec_reason_bytes()
    }

    /// What decoding recovers: the error code and length-prefixed reason.
    /// A buffer shorter than the fixed portion, or one whose declared reason
    /// length overruns it, is a parse error; a reason that is not valid
    /// UTF-8 is a text-encoding error.
    pub open spec fn spec_parse(s: Seq<u8>) -> Result<ConnectionCloseModel, QuicError> {
        if s.len() < 7 {
            Err(QuicError::ParseError)
        } else {
            let ec = be_val(s.subrange(1, 5)) as u32;
            let rl = be_val(s.subrange(5, 7));
            if rl == 0 {
                Ok(ConnectionCloseModel { error_code: ec, reason_length: 0, reason: None })
            } else if s.len() < 7 + rl {
                Err(QuicError::ParseError)
            } else {
                let rb = s.subrange(7, 7 + rl);
                if valid_utf8(rb) {
                    Ok(
                        ConnectionCloseModel {
                            error_code: ec,
                            reason_length: rl as u16,
                            reason: Some(decode_utf8(rb)),
                        },
                    )
                } else {
                    Err(QuicError::TextEncodingError)
                }
            }
        }
    }

    pub fn as_bytes(&self) -> (r: Vec<u8>)
        requires
            self.wf(),
        ensures
            r@ == self.spec_bytes(),
    {
        let mut out: Vec<u8> = Vec::new();
        out.push(0x02);
        push_be(&mut out, self.error_code as u64, 4);
        match &self.reason_phrase {
            Some(phrase) => {
                let mut rb = phrase.as_str().as_bytes_vec();
                push_be(&mut out, rb.len() as u64, 2);
                out.append(&mut rb);
            },
            None => {
                push_be(&mut out, 0, 2);
            },
        }
        proof {
            assert(out@ =~= self.spec_bytes());
        }
        out
    }

    pub fn from_bytes(buf: &[u8]) -> (r: Result<ConnectionCloseFrame, QuicError>)
        ensures
            (match Self::spec_parse(buf@) {
                Ok(m) => r matches Ok(f) && f.model() == m && f.wf(),
                Err(e) => r == Err::<ConnectionCloseFrame, QuicError>(e),
            }),
    {
        if buf.len() < 7 {
            return Err(QuicError::ParseError);
        }
        let ec = read_be(buf, 1, 4);
        let rl = read_be(buf, 5, 2);
        proof {
            lemma_pow256_values();
        }
        let ec = ec as u32;
        let rl = rl as u16;
        if rl == 0 {
            return Ok(
                ConnectionCloseFrame { error_code: ec, reason_length: 0, reason_phrase: None },
            );
        }
        if buf.len() - 7 < rl as usize {
            return Err(QuicError::ParseError);
        }
        let rb = slice_to_vec(slice_subrange(buf, 7, 7 + rl as usize));
        match bytes_to_string(rb) {
            Some(s) => {
                proof {
                    broadcast use decode_utf8_encode_utf8;
                }
                Ok(
                    ConnectionCloseFrame {
                        error_code: ec,
                        reason_length: rl,
                        reason_phrase: Some(s),
                    },
                )
            },
            None => Err(QuicError::TextEncodingError),
        }
    }

    /// Computed wire length: the fixed 7 bytes plus the declared reason
    /// length, read without decoding the reason itself.
    pub open spec fn spec_wire_len(s: Seq<u8>) -> Result<int, QuicError> {
        if s.len() < 7 {
            Err(QuicError::ParseError)
        } else {
            Ok(7 + be_val(s.subrange(5, 7)))
        }
    }

    /// Length probe: reads only the tag and the length-prefix field.
    pub fn frame_len(buf: &[u8]) -> (r: Result<usize, QuicError>)
        ensures
            (match Self::spec_wire_len(buf@) {
                Ok(n) => r matches Ok(v) && v == n,
                Err(e) => r == Err::<usize, QuicError>(e),
            }),
    {
        if buf.len() < 7 {
            return Err(QuicError::ParseError);
        }
        let rl = read_be(buf, 5, 2);
        proof {
            lemma_pow256_values();
        }
        Ok(7 + rl as usize)
    }

    /// Whether the frame satisfies its encoding invariant, decided at run
    /// time so that encoders without a precondition can test it.
    pub fn check_wf(&self) -> (b: bool)
        ensures
            b == self.wf(),
    {
        match &self.reason_phrase {
            Some(phrase) => {
                let rb = phrase.as_str().as_bytes_vec();
                rb.len() == self.reason_length as usize && self.reason_length > 0
            },
            None => self.reason_length == 0,
        }
    }
}

impl PartialEq for ConnectionCloseFrame {
    fn eq(&self, other: &Self) -> (r: bool) {
        let phrase_eq: bool = match &self.reason_phrase {
            Some(a) => match &other.reason_phrase {
                Some(b) => a.eq(b),
                None => false,
            },
            None => other.reason_phrase.is_none(),
        };
        assert(phrase_eq == (self.model().reason == other.model().reason));
        let same = self.error_code == other.error_code && self.reason_length
            == other.reason_length && phrase_eq;
        proof {
            if same {
                assert(self.model() == other.model());
            } else {
                assert(self.model() != other.model());
            }
        }
        same
    }
}

impl vstd::std_specs::cmp::PartialEqSpecImpl for ConnectionCloseFrame {
    open spec fn obeys_eq_spec() -> bool {
        true
    }

    open spec fn eq_spec(&self, other: &ConnectionCloseFrame) -> bool {
        self.model() == other.model()
    }
}

/// Relies on `String::from_utf8`: it returns `Ok` exactly on valid UTF-8
/// input, and the string it returns decodes those very bytes.
#[verifier::external_body]
fn bytes_to_string(b: Vec<u8>) -> (r: Option<String>)
    ensures
        (match r {
            Some(s) => valid_utf8(b@) && s@ == decode_utf8(b@),
            None => !valid_utf8(b@),
        }),
{
    match String::from_utf8(b) {
        Ok(s) => Some(s),
        Err(_) => None,
    }
}

/// Round trip: decoding an encoded well-formed frame recovers its content,
/// whatever trailing bytes follow; the image is exactly as long as the
/// length probe says.
pub proof fn lemma_connection_close_roundtrip(f: ConnectionCloseFrame, rest: Seq<u8>)
    requires
        f.wf(),
    ensures
        ConnectionCloseFrame::spec_parse(f.spec_bytes() + rest) == Ok::<
            ConnectionCloseModel,
            QuicError,
        >(f.model()),
        ConnectionCloseFrame::spec_wire_len(f.spec_bytes() + rest) == Ok::<int, QuicError>(
            f.spec_bytes().len() as int,
        ),
        f.spec_bytes().len() == 7 + f.spec_reason_bytes().len(),
{
    lemma_pow256_values();
    let rb = f.spec_reason_bytes();
    let rl = rb.len() as u64;
    lemma_be_bytes_len(f.error_code as u64, 4);
    lemma_be_bytes_len(rl, 2);
    let s = f.spec_bytes() + rest;
    assert(s.subrange(1, 5) =~= be_bytes(f.error_code as u64, 4));
    assert(s.subrange(5, 7) =~= be_bytes(rl, 2));
    lemma_be_val_of_be_bytes(f.error_code as u64, 4);
    lemma_be_val_of_be_bytes(rl, 2);
    if f.reason_phrase is Some {
        let p = f.reason_phrase->0;
        assert(s.subrange(7, 7 + rl as int) =~= encode_utf8(p@));
        broadcast use encode_utf8_valid_utf8;
        broadcast use encode_utf8_decode_utf8;

    }
}

} // verus!
