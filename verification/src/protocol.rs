//! The wire protocol: request and response payloads, the versioned
//! envelope, and its line framing.
//!
//! One envelope travels per line: the envelope's bytes are hex encoded —
//! so they contain no newline whatever the strings hold — and a newline
//! terminates them. The surrounding program moves whole lines between the
//! socket and these codecs.

use vstd::prelude::*;
use vstd::string::StrSliceExecFns;
use vstd::string::StringExecFns;
use vstd::utf8::{decode_utf8, encode_utf8, valid_utf8};
use crate::bytes::{
    hex_of, push_hex, push_u64_le, read_u64_le, u64_from_le, u64_le_bytes, unhex, unhex_bytes,
    vec_range, lemma_hex_round_trip, lemma_u64_le_round_trip, push_bytes,
};
use crate::codec::string_from_utf8;
use crate::error::{spec_message, Error, ErrorKind};
use crate::store::KvStore;

verus! {

/// What a client asks of the server.
#[derive(Debug)]
pub enum Request {
    /// A liveness probe; answered by `Pong` with the same code.
    Ping(i8),
    /// Close the connection; no response follows.
    Shutdown,
    /// Bind a key to a value.
    Put {
        /// The key being written.
        key: String,
        /// The value bound to the key.
        value: String,
    },
    /// Read a key's value.
    Get {
        /// The key being read.
        key: String,
    },
    /// Erase a key.
    Rm {
        /// The key being erased.
        key: String,
    },
}

/// What the server answers.
#[derive(Debug)]
pub enum Response {
    /// The answer to `Ping`, carrying the same code back.
    Pong(i8),
    /// Close the connection.
    Shutdown,
    /// The request was carried out; a `Get` hit carries the value.
    Success {
        /// The value read, when there is one.
        value: Option<String>,
    },
    /// The request failed; the message names the engine's error.
    Error {
        /// The engine's stringified error.
        msg: String,
    },
}

/// The mathematical shape of a request.
pub enum ReqView {
    /// A liveness probe.
    Ping(i8),
    /// Close the connection.
    Shutdown,
    /// Bind `key` to `value`.
    Put {
        /// The key being written.
        key: Seq<char>,
        /// The value bound to the key.
        value: Seq<char>,
    },
    /// Read a key's value.
    Get {
        /// The key being read.
        key: Seq<char>,
    },
    /// Erase a key.
    Rm {
        /// The key being erased.
        key: Seq<char>,
    },
}

/// The mathematical shape of a response.
pub enum RespView {
    /// The answer to a probe.
    Pong(i8),
    /// Close the connection.
    Shutdown,
    /// The request was carried out.
    Success {
        /// The value read, when there is one.
        value: Option<Seq<char>>,
    },
    /// The request failed.
    Error {
        /// The engine's stringified error.
        msg: Seq<char>,
    },
}

impl View for Request {
    type V = ReqView;

    open spec fn view(&self) -> ReqView {
        match self {
            Request::Ping(n) => ReqView::Ping(*n),
            Request::Shutdown => ReqView::Shutdown,
            Request::Put { key, value } => ReqView::Put { key: key@, value: value@ },
            Request::Get { key } => ReqView::Get { key: key@ },
            Request::Rm { key } => ReqView::Rm { key: key@ },
        }
    }
}

impl View for Response {
    type V = RespView;

    open spec fn view(&self) -> RespView {
        match self {
            Response::Pong(n) => RespView::Pong(*n),
            Response::Shutdown => RespView::Shutdown,
            Response::Success { value: Some(v) } => RespView::Success { value: Some(v@) },
            Response::Success { value: None } => RespView::Success { value: None },
            Response::Error { msg } => RespView::Error { msg: msg@ },
        }
    }
}

/// The payloads an envelope may carry.
pub trait ProtocolPayload {

}

impl ProtocolPayload for Request {

}

impl ProtocolPayload for Response {

}

/// A versioned envelope around one payload.
#[derive(Debug)]
pub struct Protocol<T: ProtocolPayload> {
    version: String,
    /// The payload carried.
    pub payload: T,
}

impl<T: ProtocolPayload> Protocol<T> {
    /// The version tag this envelope carries.
    pub closed spec fn spec_version(&self) -> Seq<char> {
        self.version@
    }

    /// The payload this envelope carries.
    pub closed spec fn spec_payload(&self) -> T {
        self.payload
    }

    /// Wrap a payload with the current protocol version.
    pub fn new(data: T) -> (r: Protocol<T>)
        ensures
            r.spec_payload() == data,
            r.spec_version() == "0.2"@,
    {
        Protocol { version: String::from_str("0.2"), payload: data }
    }

    /// The envelope's version tag.
    pub fn version(&self) -> (r: &str)
        ensures
            r@ == self.spec_version(),
    {
        self.version.as_str()
    }
}

/// A length-prefixed string: its UTF-8 byte count, little endian, then the
/// bytes.
pub open spec fn lp_bytes(s: Seq<char>) -> Seq<u8> {
    u64_le_bytes(encode_utf8(s).len() as u64) + encode_utf8(s)
}

/// Whether a string's UTF-8 byte count fits the length prefix. Every
/// in-memory string satisfies this.
pub open spec fn lp_fits(s: Seq<char>) -> bool {
    encode_utf8(s).len() <= u64::MAX
}

/// Parse a length-prefixed string at `off`: the string and the offset
/// just past it.
pub open spec fn parse_lp(b: Seq<u8>, off: int) -> Option<(Seq<char>, int)> {
    if off < 0 || off + 8 > b.len() {
        None
    } else {
        let l = u64_from_le(b.subrange(off, off + 8)) as int;
        if off + 8 + l > b.len() {
            None
        } else {
            let sb = b.subrange(off + 8, off + 8 + l);
            if valid_utf8(sb) {
                Some((decode_utf8(sb), off + 8 + l))
            } else {
                None
            }
        }
    }
}

/// A request payload's bytes: a tag, then its fields.
pub open spec fn req_payload_bytes(r: ReqView) -> Seq<u8> {
    match r {
        ReqView::Ping(n) => seq![0u8, n as u8],
        ReqView::Shutdown => seq![1u8],
        ReqView::Put { key, value } => seq![2u8] + lp_bytes(key) + lp_bytes(value),
        ReqView::Get { key } => seq![3u8] + lp_bytes(key),
        ReqView::Rm { key } => seq![4u8] + lp_bytes(key),
    }
}

/// A response payload's bytes: a tag, then its fields.
pub open spec fn resp_payload_bytes(r: RespView) -> Seq<u8> {
    match r {
        RespView::Pong(n) => seq![0u8, n as u8],
        RespView::Shutdown => seq![1u8],
        RespView::Success { value: None } => seq![2u8],
        RespView::Success { value: Some(v) } => seq![3u8] + lp_bytes(v),
        RespView::Error { msg } => seq![4u8] + lp_bytes(msg),
    }
}

/// Whether a request's strings fit their length prefixes.
pub open spec fn req_fits(r: ReqView) -> bool {
    match r {
        ReqView::Ping(_) => true,
        ReqView::Shutdown => true,
        ReqView::Put { key, value } => lp_fits(key) && lp_fits(value),
        ReqView::Get { key } => lp_fits(key),
        ReqView::Rm { key } => lp_fits(key),
    }
}

/// Whether a response's strings fit their length prefixes.
pub open spec fn resp_fits(r: RespView) -> bool {
    match r {
        RespView::Pong(_) => true,
        RespView::Shutdown => true,
        RespView::Success { value: None } => true,
        RespView::Success { value: Some(v) } => lp_fits(v),
        RespView::Error { msg } => lp_fits(msg),
    }
}

/// One framed line: the hex digits of `lp(version) + payload`, terminated
/// by a newline.
pub open spec fn req_line(version: Seq<char>, r: ReqView) -> Seq<u8> {
    hex_of(lp_bytes(version) + req_payload_bytes(r)) + seq![0x0au8]
}

/// One framed response line.
pub open spec fn resp_line(version: Seq<char>, r: RespView) -> Seq<u8> {
    hex_of(lp_bytes(version) + resp_payload_bytes(r)) + seq![0x0au8]
}

/// Parse a request payload that must fill `b` from `off` to its end.
pub open spec fn parse_req_payload(b: Seq<u8>, off: int) -> Option<ReqView> {
    if off < 0 || off >= b.len() {
        None
    } else if b[off] == 0u8 {
        if b.len() == off + 2 {
            Some(ReqView::Ping(b[off + 1] as i8))
        } else {
            None
        }
    } else if b[off] == 1u8 {
        if b.len() == off + 1 {
            Some(ReqView::Shutdown)
        } else {
            None
        }
    } else if b[off] == 2u8 {
        match parse_lp(b, off + 1) {
            Some((key, o2)) => match parse_lp(b, o2) {
                Some((value, o3)) => if o3 == b.len() {
                    Some(ReqView::Put { key, value })
                } else {
                    None
                },
                None => None,
            },
            None => None,
        }
    } else if b[off] == 3u8 {
        match parse_lp(b, off + 1) {
            Some((key, o2)) => if o2 == b.len() {
                Some(ReqView::Get { key })
            } else {
                None
            },
            None => None,
        }
    } else if b[off] == 4u8 {
        match parse_lp(b, off + 1) {
            Some((key, o2)) => if o2 == b.len() {
                Some(ReqView::Rm { key })
            } else {
                None
            },
            None => None,
        }
    } else {
        None
    }
}

/// Parse a response payload that must fill `b` from `off` to its end.
pub open spec fn parse_resp_payload(b: Seq<u8>, off: int) -> Option<RespView> {
    if off < 0 || off >= b.len() {
        None
    } else if b[off] == 0u8 {
        if b.len() == off + 2 {
            Some(RespView::Pong(b[off + 1] as i8))
        } else {
            None
        }
    } else if b[off] == 1u8 {
        if b.len() == off + 1 {
            Some(RespView::Shutdown)
        } else {
            None
        }
    } else if b[off] == 2u8 {
        if b.len() == off + 1 {
            Some(RespView::Success { value: None })
        } else {
            None
        }
    } else if b[off] == 3u8 {
        match parse_lp(b, off + 1) {
            Some((v, o2)) => if o2 == b.len() {
                Some(RespView::Success { value: Some(v) })
            } else {
                None
            },
            None => None,
        }
    } else if b[off] == 4u8 {
        match parse_lp(b, off + 1) {
            Some((msg, o2)) => if o2 == b.len() {
                Some(RespView::Error { msg })
            } else {
                None
            },
            None => None,
        }
    } else {
        None
    }
}

/// Parse one framed request line into its version and payload.
pub open spec fn parse_req_line(line: Seq<u8>) -> Option<(Seq<char>, ReqView)> {
    if line.len() < 1 || line.last() != 0x0au8 {
        None
    } else {
        match unhex(line.drop_last()) {
            Some(env) => match parse_lp(env, 0) {
                Some((version, o)) => match parse_req_payload(env, o) {
                    Some(r) => Some((version, r)),
                    None => None,
                },
                None => None,
            },
            None => None,
        }
    }
}

/// Parse one framed response line into its version and payload.
pub open spec fn parse_resp_line(line: Seq<u8>) -> Option<(Seq<char>, RespView)> {
    if line.len() < 1 || line.last() != 0x0au8 {
        None
    } else {
        match unhex(line.drop_last()) {
            Some(env) => match parse_lp(env, 0) {
                Some((version, o)) => match parse_resp_payload(env, o) {
                    Some(r) => Some((version, r)),
                    None => None,
                },
                None => None,
            },
            None => None,
        }
    }
}

/// Casting a signed byte through its unsigned carrier returns it.
proof fn lemma_i8_round_trip(n: i8)
    ensures
        (n as u8) as i8 == n,
{
    assert((n as u8) as i8 == n) by (bit_vector);
}

/// A request payload parses back from where it stands to the end.
#[verifier::rlimit(60)]
proof fn lemma_parse_req_payload(pre: Seq<u8>, r: ReqView)
    requires
        req_fits(r),
    ensures
        parse_req_payload(pre + req_payload_bytes(r), pre.len() as int) == Some(r),
{
    let b = pre + req_payload_bytes(r);
    let off = pre.len() as int;
    match r {
        ReqView::Ping(n) => {
            lemma_i8_round_trip(n);
        },
        ReqView::Shutdown => {},
        ReqView::Put { key, value } => {
            assert(b =~= (pre + seq![2u8]) + lp_bytes(key) + lp_bytes(value));
            lemma_parse_lp(pre + seq![2u8], key, lp_bytes(value));
            assert(b =~= (pre + seq![2u8] + lp_bytes(key)) + lp_bytes(value) + Seq::<u8>::empty());
            lemma_parse_lp(pre + seq![2u8] + lp_bytes(key), value, Seq::<u8>::empty());
            assert(b[off] == 2u8);
        },
        ReqView::Get { key } => {
            assert(b =~= (pre + seq![3u8]) + lp_bytes(key) + Seq::<u8>::empty());
            lemma_parse_lp(pre + seq![3u8], key, Seq::<u8>::empty());
            assert(b[off] == 3u8);
        },
        ReqView::Rm { key } => {
            assert(b =~= (pre + seq![4u8]) + lp_bytes(key) + Seq::<u8>::empty());
            lemma_parse_lp(pre + seq![4u8], key, Seq::<u8>::empty());
            assert(b[off] == 4u8);
        },
    }
}

/// A response payload parses back from where it stands to the end.
#[verifier::rlimit(60)]
proof fn lemma_parse_resp_payload(pre: Seq<u8>, r: RespView)
    requires
        resp_fits(r),
    ensures
        parse_resp_payload(pre + resp_payload_bytes(r), pre.len() as int) == Some(r),
{
    let b = pre + resp_payload_bytes(r);
    let off = pre.len() as int;
    match r {
        RespView::Pong(n) => {
            lemma_i8_round_trip(n);
        },
        RespView::Shutdown => {},
        RespView::Success { value: None } => {},
        RespView::Success { value: Some(v) } => {
            assert(b =~= (pre + seq![3u8]) + lp_bytes(v) + Seq::<u8>::empty());
            lemma_parse_lp(pre + seq![3u8], v, Seq::<u8>::empty());
            assert(b[off] == 3u8);
        },
        RespView::Error { msg } => {
            assert(b =~= (pre + seq![4u8]) + lp_bytes(msg) + Seq::<u8>::empty());
            lemma_parse_lp(pre + seq![4u8], msg, Seq::<u8>::empty());
            assert(b[off] == 4u8);
        },
    }
}

/// A framed request line parses back to its version and payload: with
/// `encode_request` and `decode_request`, what one peer sends the other
/// reads unchanged.
pub proof fn lemma_req_line_round_trip(version: Seq<char>, r: ReqView)
    requires
        lp_fits(version),
        req_fits(r),
    ensures
        parse_req_line(req_line(version, r)) == Some((version, r)),
{
    let env = lp_bytes(version) + req_payload_bytes(r);
    lemma_hex_round_trip(env);
    let line = req_line(version, r);
    assert(line.last() == 0x0au8);
    assert(line.drop_last() =~= hex_of(env));
    assert(env =~= Seq::<u8>::empty() + lp_bytes(version) + req_payload_bytes(r));
    lemma_parse_lp(Seq::<u8>::empty(), version, req_payload_bytes(r));
    assert(env =~= lp_bytes(version) + req_payload_bytes(r));
    lemma_parse_req_payload(lp_bytes(version), r);
}

/// A framed response line parses back to its version and payload.
pub proof fn lemma_resp_line_round_trip(version: Seq<char>, r: RespView)
    requires
        lp_fits(version),
        resp_fits(r),
    ensures
        parse_resp_line(resp_line(version, r)) == Some((version, r)),
{
    let env = lp_bytes(version) + resp_payload_bytes(r);
    lemma_hex_round_trip(env);
    let line = resp_line(version, r);
    assert(line.last() == 0x0au8);
    assert(line.drop_last() =~= hex_of(env));
    assert(env =~= Seq::<u8>::empty() + lp_bytes(version) + resp_payload_bytes(r));
    lemma_parse_lp(Seq::<u8>::empty(), version, resp_payload_bytes(r));
    assert(env =~= lp_bytes(version) + resp_payload_bytes(r));
    lemma_parse_resp_payload(lp_bytes(version), r);
}

/// Append a length-prefixed string.
pub(crate) fn push_lp(out: &mut Vec<u8>, s: &String)
    ensures
        final(out)@ == old(out)@ + lp_bytes(s@),
        lp_fits(s@),
{
    let b = s.as_str().as_bytes_vec();
    push_u64_le(out, b.len() as u64);
    push_bytes(out, &b);
    proof {
        assert(out@ =~= old(out)@ + lp_bytes(s@));
    }
}

/// Read a length-prefixed string at `off`, with the offset just past it.
pub(crate) fn read_lp(env: &Vec<u8>, off: usize) -> (r: Result<(String, usize), Error>)
    requires
        off <= env@.len(),
    ensures
        match r {
            Ok(p) => {
                &&& parse_lp(env@, off as int) == Some((p.0@, p.1 as int))
                &&& off + 8 <= p.1 <= env@.len()
            },
            Err(e) => {
                &&& parse_lp(env@, off as int) is None
                &&& e.kind == ErrorKind::CodecError
            },
        },
{
    let n = env.len();
    if n - off < 8 {
        return Err(Error::new(ErrorKind::CodecError));
    }
    let l64 = read_u64_le(env, off);
    if l64 > (n - off - 8) as u64 {
        proof {
            assert(off + 8 + l64 as int > env@.len());
        }
        return Err(Error::new(ErrorKind::CodecError));
    }
    let l = l64 as usize;
    let sb = vec_range(env, off + 8, off + 8 + l);
    match string_from_utf8(sb) {
        Some(s) => Ok((s, off + 8 + l)),
        None => Err(Error::new(ErrorKind::CodecError)),
    }
}

/// Encode one framed request line: hex of the envelope, then a newline.
/// The newline is the only one in the line.
pub fn encode_request(p: &Protocol<Request>) -> (r: Vec<u8>)
    ensures
        r@ == req_line(p.spec_version(), p.spec_payload()@),
        r@.len() >= 1,
        r@.last() == 0x0au8,
        forall|i: int| 0 <= i < r@.len() - 1 ==> r@[i] != 0x0au8,
{
    let mut env: Vec<u8> = Vec::new();
    push_lp(&mut env, &p.version);
    match &p.payload {
        Request::Ping(n) => {
            env.push(0u8);
            env.push(#[verifier::truncate] (*n as u8));
        },
        Request::Shutdown => {
            env.push(1u8);
        },
        Request::Put { key, value } => {
            env.push(2u8);
            push_lp(&mut env, key);
            push_lp(&mut env, value);
        },
        Request::Get { key } => {
            env.push(3u8);
            push_lp(&mut env, key);
        },
        Request::Rm { key } => {
            env.push(4u8);
            push_lp(&mut env, key);
        },
    }
    proof {
        assert(env@ =~= lp_bytes(p.spec_version()) + req_payload_bytes(p.spec_payload()@));
    }
    let mut out: Vec<u8> = Vec::new();
    push_hex(&mut out, &env);
    out.push(0x0au8);
    proof {
        lemma_hex_round_trip(env@);
        assert(out@ =~= req_line(p.spec_version(), p.spec_payload()@));
        assert(out@.drop_last() =~= hex_of(env@));
        assert(forall|i: int| 0 <= i < out@.len() - 1 ==> out@[i] == hex_of(env@)[i]);
    }
    out
}

/// Encode one framed response line.
pub fn encode_response(p: &Protocol<Response>) -> (r: Vec<u8>)
    ensures
        r@ == resp_line(p.spec_version(), p.spec_payload()@),
        r@.len() >= 1,
        r@.last() == 0x0au8,
        forall|i: int| 0 <= i < r@.len() - 1 ==> r@[i] != 0x0au8,
{
    let mut env: Vec<u8> = Vec::new();
    push_lp(&mut env, &p.version);
    match &p.payload {
        Response::Pong(n) => {
            env.push(0u8);
            env.push(#[verifier::truncate] (*n as u8));
        },
        Response::Shutdown => {
            env.push(1u8);
        },
        Response::Success { value: None } => {
            env.push(2u8);
        },
        Response::Success { value: Some(v) } => {
            env.push(3u8);
            push_lp(&mut env, v);
        },
        Response::Error { msg } => {
            env.push(4u8);
            push_lp(&mut env, msg);
        },
    }
    proof {
        assert(env@ =~= lp_bytes(p.spec_version()) + resp_payload_bytes(p.spec_payload()@));
    }
    let mut out: Vec<u8> = Vec::new();
    push_hex(&mut out, &env);
    out.push(0x0au8);
    proof {
        lemma_hex_round_trip(env@);
        assert(out@ =~= resp_line(p.spec_version(), p.spec_payload()@));
        assert(out@.drop_last() =~= hex_of(env@));
        assert(forall|i: int| 0 <= i < out@.len() - 1 ==> out@[i] == hex_of(env@)[i]);
    }
    out
}

/// Decode one framed request line, newline included.
pub fn decode_request(line: &Vec<u8>) -> (r: Result<Protocol<Request>, Error>)
    ensures
        match r {
            Ok(p) => parse_req_line(line@) == Some((p.spec_version(), p.spec_payload()@)),
            Err(e) => parse_req_line(line@) is None && e.kind == ErrorKind::CodecError,
        },
{
    let n = line.len();
    if n < 1 || line[n - 1] != 0x0au8 {
        return Err(Error::new(ErrorKind::CodecError));
    }
    let body = vec_range(line, 0, n - 1);
    proof {
        assert(body@ =~= line@.drop_last());
    }
    let env = match unhex_bytes(&body) {
        Some(e) => e,
        None => {
            return Err(Error::new(ErrorKind::CodecError));
        },
    };
    let (version, o1) = match read_lp(&env, 0) {
        Ok(p) => p,
        Err(e) => {
            return Err(e);
        },
    };
    let en = env.len();
    if o1 >= en {
        return Err(Error::new(ErrorKind::CodecError));
    }
    let tag = env[o1];
    if tag == 0u8 {
        if en < 2 || o1 != en - 2 {
            return Err(Error::new(ErrorKind::CodecError));
        }
        let code = #[verifier::truncate] (env[o1 + 1] as i8);
        Ok(Protocol { version, payload: Request::Ping(code) })
    } else if tag == 1u8 {
        if en != o1 + 1 {
            return Err(Error::new(ErrorKind::CodecError));
        }
        Ok(Protocol { version, payload: Request::Shutdown })
    } else if tag == 2u8 {
        let (key, o2) = match read_lp(&env, o1 + 1) {
            Ok(p) => p,
            Err(e) => {
                return Err(e);
            },
        };
        let (value, o3) = match read_lp(&env, o2) {
            Ok(p) => p,
            Err(e) => {
                return Err(e);
            },
        };
        if o3 != en {
            return Err(Error::new(ErrorKind::CodecError));
        }
        Ok(Protocol { version, payload: Request::Put { key, value } })
    } else if tag == 3u8 {
        let (key, o2) = match read_lp(&env, o1 + 1) {
            Ok(p) => p,
            Err(e) => {
                return Err(e);
            },
        };
        if o2 != en {
            return Err(Error::new(ErrorKind::CodecError));
        }
        Ok(Protocol { version, payload: Request::Get { key } })
    } else if tag == 4u8 {
        let (key, o2) = match read_lp(&env, o1 + 1) {
            Ok(p) => p,
            Err(e) => {
                return Err(e);
            },
        };
        if o2 != en {
            return Err(Error::new(ErrorKind::CodecError));
        }
        Ok(Protocol { version, payload: Request::Rm { key } })
    } else {
        Err(Error::new(ErrorKind::CodecError))
    }
}

/// Decode one framed response line, newline included.
pub fn decode_response(line: &Vec<u8>) -> (r: Result<Protocol<Response>, Error>)
    ensures
        match r {
            Ok(p) => parse_resp_line(line@) == Some((p.spec_version(), p.spec_payload()@)),
            Err(e) => parse_resp_line(line@) is None && e.kind == ErrorKind::CodecError,
        },
{
    let n = line.len();
    if n < 1 || line[n - 1] != 0x0au8 {
        return Err(Error::new(ErrorKind::CodecError));
    }
    let body = vec_range(line, 0, n - 1);
    proof {
        assert(body@ =~= line@.drop_last());
    }
    let env = match unhex_bytes(&body) {
        Some(e) => e,
        None => {
            return Err(Error::new(ErrorKind::CodecError));
        },
    };
    let (version, o1) = match read_lp(&env, 0) {
        Ok(p) => p,
        Err(e) => {
            return Err(e);
        },
    };
    let en = env.len();
    if o1 >= en {
        return Err(Error::new(ErrorKind::CodecError));
    }
    let tag = env[o1];
    if tag == 0u8 {
        if en < 2 || o1 != en - 2 {
            return Err(Error::new(ErrorKind::CodecError));
        }
        let code = #[verifier::truncate] (env[o1 + 1] as i8);
        Ok(Protocol { version, payload: Response::Pong(code) })
    } else if tag == 1u8 {
        if en != o1 + 1 {
            return Err(Error::new(ErrorKind::CodecError));
        }
        Ok(Protocol { version, payload: Response::Shutdown })
    } else if tag == 2u8 {
        if en != o1 + 1 {
            return Err(Error::new(ErrorKind::CodecError));
        }
        Ok(Protocol { version, payload: Response::Success { value: None } })
    } else if tag == 3u8 {
        let (v, o2) = match read_lp(&env, o1 + 1) {
            Ok(p) => p,
            Err(e) => {
                return Err(e);
            },
        };
        if o2 != en {
            return Err(Error::new(ErrorKind::CodecError));
        }
        Ok(Protocol { version, payload: Response::Success { value: Some(v) } })
    } else if tag == 4u8 {
        let (msg, o2) = match read_lp(&env, o1 + 1) {
            Ok(p) => p,
            Err(e) => {
                return Err(e);
            },
        };
        if o2 != en {
            return Err(Error::new(ErrorKind::CodecError));
        }
        Ok(Protocol { version, payload: Response::Error { msg } })
    } else {
        Err(Error::new(ErrorKind::CodecError))
    }
}

/// Run one request against the store and shape the response, as the
/// server's per-connection loop does for each line. The answer is fixed
/// exactly: `Ping` answers `Pong` with the same code; `Shutdown` answers
/// nothing and ends the connection; a bind always succeeds and answers
/// `Success` with no value; a read answers `Success` carrying exactly the
/// store's binding for the key, or none; an erase answers `Success` when
/// the key was there, else an `Error` carrying the `NotFound` message,
/// the engine error's own text.
pub fn dispatch(store: &mut KvStore, req: Request) -> (r: Option<Response>)
    requires
        old(store).wf(),
    ensures
        final(store).wf(),
        match req@ {
            ReqView::Ping(n) => {
                &&& (r matches Some(resp) && resp@ == RespView::Pong(n))
                &&& *final(store) == *old(store)
            },
            ReqView::Shutdown => r is None && *final(store) == *old(store),
            ReqView::Put { key, value } => {
                &&& (r matches Some(resp) && resp@ == (RespView::Success { value: None }))
                &&& final(store)@ == old(store)@.insert(key, value)
            },
            ReqView::Get { key } => {
                &&& *final(store) == *old(store)
                &&& (r matches Some(resp) && resp@ == (if old(store)@.dom().contains(key) {
                    RespView::Success { value: Some(old(store)@[key]) }
                } else {
                    RespView::Success { value: None }
                }))
            },
            ReqView::Rm { key } => r matches Some(resp) && (if old(store)@.dom().contains(key) {
                &&& resp@ == (RespView::Success { value: None })
                &&& final(store)@ == old(store)@.remove(key)
            } else {
                &&& resp@ == (RespView::Error { msg: spec_message(ErrorKind::NotFound) })
                &&& *final(store) == *old(store)
            }),
        },
{
    match req {
        Request::Ping(n) => Some(Response::Pong(n)),
        Request::Shutdown => None,
        Request::Put { key, value } => match store.set(key, value) {
            Ok(_) => Some(Response::Success { value: None }),
            Err(e) => {
                proof {
                    assert(false);
                }
                Some(Response::Error { msg: String::from_str(e.message()) })
            },
        },
        Request::Get { key } => match store.get(key) {
            Ok(v) => Some(Response::Success { value: v }),
            Err(e) => {
                proof {
                    assert(false);
                }
                Some(Response::Error { msg: String::from_str(e.message()) })
            },
        },
        Request::Rm { key } => match store.remove(key) {
            Ok(_) => Some(Response::Success { value: None }),
            Err(e) => Some(Response::Error { msg: String::from_str(e.message()) }),
        },
    }
}

/// The client's check of the opening handshake: the pong must carry back
/// the code the ping sent, else the peer speaks another protocol.
pub fn check_pong(resp: &Response, sent: i8) -> (r: Result<(), Error>)
    ensures
        r is Ok <==> resp@ == RespView::Pong(sent),
        r matches Err(e) ==> e.kind == ErrorKind::ProtocolError,
{
    match resp {
        Response::Pong(n) => {
            if *n == sent {
                Ok(())
            } else {
                Err(Error::new(ErrorKind::ProtocolError))
            }
        },
        _ => Err(Error::new(ErrorKind::ProtocolError)),
    }
}

/// A length-prefixed string parses back from wherever it stands.
pub proof fn lemma_parse_lp(pre: Seq<u8>, s: Seq<char>, post: Seq<u8>)
    requires
        lp_fits(s),
    ensures
        parse_lp(pre + lp_bytes(s) + post, pre.len() as int) == Some(
            (s, pre.len() + 8 + encode_utf8(s).len() as int),
        ),
{
    broadcast use vstd::utf8::encode_utf8_decode_utf8;
    broadcast use vstd::utf8::encode_utf8_valid_utf8;

    let b = pre + lp_bytes(s) + post;
    let off = pre.len() as int;
    let eb = encode_utf8(s);
    lemma_u64_le_round_trip(eb.len() as u64);
    assert(b.subrange(off, off + 8) =~= u64_le_bytes(eb.len() as u64));
    assert(b.subrange(off + 8, off + 8 + eb.len()) =~= eb);
}

} // verus!
