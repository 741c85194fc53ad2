//! Command records and their self-delimiting byte encoding.
//!
//! A segment file is a plain concatenation of encoded records. The encoding
//! is length-prefixed, so a stream of records can be decoded in order and
//! the byte offset after each record recovered exactly; a truncated or
//! corrupted tail never decodes.

use vstd::prelude::*;
use vstd::utf8::{decode_utf8, encode_utf8, valid_utf8};
use crate::bytes::{push_bytes, push_u64_le, read_u64_le, u64_from_le, u64_le_bytes, vec_range};
use crate::bytes::lemma_u64_le_round_trip;
use crate::error::{Error, ErrorKind};

verus! {

/// A single mutation recorded in a log segment.
#[derive(Debug, Clone)]
pub enum Cmd {
    /// Bind `key` to `value`.
    Put {
        /// The key being written.
        key: String,
        /// The value bound to the key.
        value: String,
    },
    /// Erase `key`.
    Rm {
        /// The key being erased.
        key: String,
    },
}

/// The mathematical shape of a record: its strings as character sequences.
pub enum CmdView {
    /// Bind `key` to `value`.
    Put {
        /// The key being written.
        key: Seq<char>,
        /// The value bound to the key.
        value: Seq<char>,
    },
    /// Erase `key`.
    Rm {
        /// The key being erased.
        key: Seq<char>,
    },
}

impl View for Cmd {
    type V = CmdView;

    open spec fn view(&self) -> CmdView {
        match self {
            Cmd::Put { key, value } => CmdView::Put { key: key@, value: value@ },
            Cmd::Rm { key } => CmdView::Rm { key: key@ },
        }
    }
}

impl Cmd {
    /// Build a record that binds a key to a value.
    pub fn set(k: String, v: String) -> (r: Cmd)
        ensures
            r@ == (CmdView::Put { key: k@, value: v@ }),
    {
        Cmd::Put { key: k, value: v }
    }

    /// Build a record that erases a key.
    pub fn rm(k: String) -> (r: Cmd)
        ensures
            r@ == (CmdView::Rm { key: k@ }),
    {
        Cmd::Rm { key: k }
    }
}

/// Whether the length prefixes of `c`'s encoding fit in a `u64`.
/// Every record built from in-memory strings satisfies this.
pub open spec fn cmd_encodable(c: CmdView) -> bool {
    match c {
        CmdView::Put { key, value } => encode_utf8(key).len() <= u64::MAX && encode_utf8(
            value,
        ).len() <= u64::MAX,
        CmdView::Rm { key } => encode_utf8(key).len() <= u64::MAX,
    }
}

/// The encoded bytes of a record: a tag byte, then each string as a
/// little-endian `u64` byte length followed by its UTF-8 bytes.
pub open spec fn spec_encode(c: CmdView) -> Seq<u8> {
    match c {
        CmdView::Put { key, value } => seq![0u8] + u64_le_bytes(
            encode_utf8(key).len() as u64,
        ) + encode_utf8(key) + u64_le_bytes(encode_utf8(value).len() as u64) + encode_utf8(value),
        CmdView::Rm { key } => seq![1u8] + u64_le_bytes(encode_utf8(key).len() as u64)
            + encode_utf8(key),
    }
}

/// Decode one record from the front of `s`: the record and the count of
/// bytes it occupies, or `None` when no complete, well-formed record starts
/// `s`.
pub open spec fn spec_decode(s: Seq<u8>) -> Option<(CmdView, int)> {
    if s.len() < 9 {
        None
    } else {
        let tag = s[0];
        let klen = u64_from_le(s.subrange(1, 9)) as int;
        if tag == 0u8 {
            if s.len() < 17 + klen {
                None
            } else {
                let kb = s.subrange(9, 9 + klen);
                let vlen = u64_from_le(s.subrange(9 + klen, 17 + klen)) as int;
                if s.len() < 17 + klen + vlen {
                    None
                } else {
                    let vb = s.subrange(17 + klen, 17 + klen + vlen);
                    if valid_utf8(kb) && valid_utf8(vb) {
                        Some(
                            (
                                CmdView::Put { key: decode_utf8(kb), value: decode_utf8(vb) },
                                17 + klen + vlen,
                            ),
                        )
                    } else {
                        None
                    }
                }
            }
        } else if tag == 1u8 {
            if s.len() < 9 + klen {
                None
            } else {
                let kb = s.subrange(9, 9 + klen);
                if valid_utf8(kb) {
                    Some((CmdView::Rm { key: decode_utf8(kb) }, 9 + klen))
                } else {
                    None
                }
            }
        } else {
            None
        }
    }
}

/// A decoded record occupies at least its nine header bytes and at most
/// the whole of `s`.
pub proof fn lemma_decode_bounds(s: Seq<u8>)
    requires
        spec_decode(s) is Some,
    ensures
        9 <= spec_decode(s)->Some_0.1 <= s.len(),
{
}

/// Decoding a concatenation of an encoded record and anything else yields
/// that record and its exact length.
pub proof fn lemma_encode_decode(c: CmdView, rest: Seq<u8>)
    requires
        cmd_encodable(c),
    ensures
        spec_decode(spec_encode(c) + rest) == Some((c, spec_encode(c).len() as int)),
{
    broadcast use vstd::utf8::encode_utf8_valid_utf8;
    broadcast use vstd::utf8::encode_utf8_decode_utf8;

    let s = spec_encode(c) + rest;
    match c {
        CmdView::Put { key, value } => {
            let kb = encode_utf8(key);
            let vb = encode_utf8(value);
            let klen = kb.len() as int;
            let vlen = vb.len() as int;
            lemma_u64_le_round_trip(kb.len() as u64);
            lemma_u64_le_round_trip(vb.len() as u64);
            assert(s.subrange(1, 9) =~= u64_le_bytes(kb.len() as u64));
            assert(s.subrange(9, 9 + klen) =~= kb);
            assert(s.subrange(9 + klen, 17 + klen) =~= u64_le_bytes(vb.len() as u64));
            assert(s.subrange(17 + klen, 17 + klen + vlen) =~= vb);
            assert(s[0] == 0u8);
            assert(s.len() >= 17 + klen + vlen);
        }
        CmdView::Rm { key } => {
            let kb = encode_utf8(key);
            let klen = kb.len() as int;
            lemma_u64_le_round_trip(kb.len() as u64);
            assert(s.subrange(1, 9) =~= u64_le_bytes(kb.len() as u64));
            assert(s.subrange(9, 9 + klen) =~= kb);
            assert(s[0] == 1u8);
            assert(s.len() >= 9 + klen);
        }
    }
}

/// Decoding looks only at the first `n` bytes: two byte sequences that
/// agree on them decode to the same record.
pub proof fn lemma_decode_depends_on_prefix(s1: Seq<u8>, s2: Seq<u8>)
    requires
        spec_decode(s1) is Some,
        s2.len() >= spec_decode(s1)->Some_0.1,
        s2.take(spec_decode(s1)->Some_0.1) == s1.take(spec_decode(s1)->Some_0.1),
    ensures
        spec_decode(s2) == spec_decode(s1),
{
    let n = spec_decode(s1)->Some_0.1;
    lemma_decode_bounds(s1);
    assert forall|i: int| 0 <= i < n implies s2[i] == s1[i] by {
        assert(s1.take(n)[i] == s1[i]);
        assert(s2.take(n)[i] == s2[i]);
        assert(s2.take(n) == s1.take(n));
    }
    assert(s2[0] == s1[0]);
    assert(s2.subrange(1, 9) =~= s1.subrange(1, 9));
    let klen = u64_from_le(s1.subrange(1, 9)) as int;
    if s1[0] == 0u8 {
        assert(s1.len() >= 17 + klen);
        let vlen = u64_from_le(s1.subrange(9 + klen, 17 + klen)) as int;
        assert(n == 17 + klen + vlen);
        assert(s2.subrange(9, 9 + klen) =~= s1.subrange(9, 9 + klen));
        assert(s2.subrange(9 + klen, 17 + klen) =~= s1.subrange(9 + klen, 17 + klen));
        assert(s2.subrange(17 + klen, 17 + klen + vlen) =~= s1.subrange(
            17 + klen,
            17 + klen + vlen,
        ));
    } else {
        assert(s1[0] == 1u8);
        assert(s1.len() >= 9 + klen);
        assert(n == 9 + klen);
        assert(s2.subrange(9, 9 + klen) =~= s1.subrange(9, 9 + klen));
    }
}

/// A strict prefix of a well-formed record never decodes: a record cut
/// short at any byte is detected, not misread.
pub proof fn lemma_decode_strict_prefix(s: Seq<u8>, p: Seq<u8>)
    requires
        spec_decode(s) is Some,
        p.len() < spec_decode(s)->Some_0.1,
        p == s.take(p.len() as int),
    ensures
        spec_decode(p) is None,
{
    let n = spec_decode(s)->Some_0.1;
    lemma_decode_bounds(s);
    if p.len() < 9 {
    } else {
        assert(p[0] == s[0]);
        assert(p.subrange(1, 9) =~= s.subrange(1, 9));
        let klen = u64_from_le(s.subrange(1, 9)) as int;
        if s[0] == 0u8 {
            if p.len() < 17 + klen {
            } else {
                assert(p.subrange(9 + klen, 17 + klen) =~= s.subrange(9 + klen, 17 + klen));
                let vlen = u64_from_le(s.subrange(9 + klen, 17 + klen)) as int;
                assert(n == 17 + klen + vlen);
                assert(p.len() < 17 + klen + vlen);
            }
        } else {
            assert(s[0] == 1u8);
            assert(n == 9 + klen);
            assert(p.len() < 9 + klen);
        }
    }
}

/// Relies on `String::from_utf8`: it returns the decoded string exactly
/// when the bytes are valid UTF-8, and refuses them otherwise.
#[verifier::external_body]
pub(crate) fn string_from_utf8(bytes: Vec<u8>) -> (r: Option<String>)
    ensures
        match r {
            Some(s) => valid_utf8(bytes@) && s@ == decode_utf8(bytes@),
            None => !valid_utf8(bytes@),
        },
{
    std::string::String::from_utf8(bytes).ok()
}

/// Encode one record as its on-disk bytes.
pub fn encode_cmd(c: &Cmd) -> (r: Vec<u8>)
    ensures
        r@ == spec_encode(c@),
        cmd_encodable(c@),
{
    let mut out: Vec<u8> = Vec::new();
    match c {
        Cmd::Put { key, value } => {
            out.push(0u8);
            let kb = key.as_str().as_bytes_vec();
            push_u64_le(&mut out, kb.len() as u64);
            push_bytes(&mut out, &kb);
            let vb = value.as_str().as_bytes_vec();
            push_u64_le(&mut out, vb.len() as u64);
            push_bytes(&mut out, &vb);
            proof {
                assert(out@ =~= spec_encode(c@));
            }
        }
        Cmd::Rm { key } => {
            out.push(1u8);
            let kb = key.as_str().as_bytes_vec();
            push_u64_le(&mut out, kb.len() as u64);
            push_bytes(&mut out, &kb);
            proof {
                assert(out@ =~= spec_encode(c@));
            }
        }
    }
    out
}

/// Decode the record starting at offset `off` of `data`, returning it with
/// the offset just past it.
pub fn decode_cmd_at(data: &Vec<u8>, off: usize) -> (r: Result<(Cmd, usize), Error>)
    requires
        off <= data@.len(),
    ensures
        match r {
            Ok(p) => {
                &&& spec_decode(data@.skip(off as int)) == Some((p.0@, p.1 - off))
                &&& off < p.1 <= data@.len()
            },
            Err(e) => {
                &&& spec_decode(data@.skip(off as int)) is None
                &&& e.kind == ErrorKind::CodecError
            },
        },
{
    let ghost s = data@.skip(off as int);
    let n = data.len();
    if n - off < 9 {
        return Err(Error::new(ErrorKind::CodecError));
    }
    let tag = data[off];
    let klen64 = read_u64_le(data, off + 1);
    proof {
        assert(data@.subrange(off as int + 1, off as int + 9) =~= s.subrange(1, 9));
    }
    if tag == 0u8 {
        if n - off < 17 || klen64 > (n - off - 17) as u64 {
            proof {
                assert(s.len() < 17 + klen64 as int);
            }
            return Err(Error::new(ErrorKind::CodecError));
        }
        let klen = klen64 as usize;
        let vpos = off + 9 + klen;
        let vlen64 = read_u64_le(data, vpos);
        proof {
            assert(data@.subrange(vpos as int, vpos as int + 8) =~= s.subrange(
                9 + klen as int,
                17 + klen as int,
            ));
        }
        if vlen64 > (n - off - 17 - klen) as u64 {
            proof {
                assert(s.len() < 17 + klen as int + vlen64 as int);
            }
            return Err(Error::new(ErrorKind::CodecError));
        }
        let vlen = vlen64 as usize;
        let kb = vec_range(data, off + 9, off + 9 + klen);
        let vb = vec_range(data, vpos + 8, vpos + 8 + vlen);
        proof {
            assert(kb@ =~= s.subrange(9, 9 + klen as int));
            assert(vb@ =~= s.subrange(17 + klen as int, 17 + klen as int + vlen as int));
        }
        let k = string_from_utf8(kb);
        let v = string_from_utf8(vb);
        match (k, v) {
            (Some(key), Some(value)) => Ok((Cmd::Put { key, value }, off + 17 + klen + vlen)),
            _ => Err(Error::new(ErrorKind::CodecError)),
        }
    } else if tag == 1u8 {
        if klen64 > (n - off - 9) as u64 {
            proof {
                assert(s.len() < 9 + klen64 as int);
            }
            return Err(Error::new(ErrorKind::CodecError));
        }
        let klen = klen64 as usize;
        let kb = vec_range(data, off + 9, off + 9 + klen);
        proof {
            assert(kb@ =~= s.subrange(9, 9 + klen as int));
        }
        match string_from_utf8(kb) {
            Some(key) => Ok((Cmd::Rm { key }, off + 9 + klen)),
            None => Err(Error::new(ErrorKind::CodecError)),
        }
    } else {
        Err(Error::new(ErrorKind::CodecError))
    }
}

} // verus!
