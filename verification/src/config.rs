//! The server's configuration record: the engine chosen on first run,
//! recorded beside the data directory and checked on every later start.

use vstd::prelude::*;
use crate::error::{Error, ErrorKind};
use crate::protocol::{lp_bytes, lp_fits, parse_lp, push_lp, read_lp, lemma_parse_lp};

verus! {

/// The configuration record's bytes: one length-prefixed engine name.
pub open spec fn conf_bytes(engine: Seq<char>) -> Seq<u8> {
    lp_bytes(engine)
}

/// Read a configuration record back: the engine name, when the bytes are
/// exactly one well-formed record.
pub open spec fn parse_conf(b: Seq<u8>) -> Option<Seq<char>> {
    match parse_lp(b, 0) {
        Some((s, end)) => if end == b.len() {
            Some(s)
        } else {
            None
        },
        None => None,
    }
}

/// A configuration record parses back to the name it recorded.
pub proof fn lemma_conf_round_trip(engine: Seq<char>)
    requires
        lp_fits(engine),
    ensures
        parse_conf(conf_bytes(engine)) == Some(engine),
{
    lemma_parse_lp(Seq::<u8>::empty(), engine, Seq::<u8>::empty());
    assert(Seq::<u8>::empty() + lp_bytes(engine) + Seq::<u8>::empty() =~= conf_bytes(engine));
}

/// Encode the configuration record for the chosen engine.
pub fn encode_conf(engine: &String) -> (r: Vec<u8>)
    ensures
        r@ == conf_bytes(engine@),
        lp_fits(engine@),
{
    let mut out: Vec<u8> = Vec::new();
    push_lp(&mut out, engine);
    out
}

/// Decode a configuration record; refused as `CodecError` when the bytes
/// are not exactly one record.
pub fn decode_conf(data: &Vec<u8>) -> (r: Result<String, Error>)
    ensures
        match r {
            Ok(s) => parse_conf(data@) == Some(s@),
            Err(e) => parse_conf(data@) is None && e.kind == ErrorKind::CodecError,
        },
{
    match read_lp(data, 0) {
        Ok(p) => {
            let (s, end) = p;
            if end == data.len() {
                Ok(s)
            } else {
                Err(Error::new(ErrorKind::CodecError))
            }
        },
        Err(e) => Err(e),
    }
}

/// The startup decision: a directory whose record names another engine is
/// refused with `ConfigMismatch`; a matching record, or none on a first
/// run, lets the chosen engine through.
pub fn check_engine(recorded: Option<String>, selected: String) -> (r: Result<String, Error>)
    ensures
        match recorded {
            Some(rec) => if rec@ == selected@ {
                r matches Ok(s) && s@ == selected@
            } else {
                r matches Err(e) && e.kind == ErrorKind::ConfigMismatch
            },
            None => r matches Ok(s) && s@ == selected@,
        },
{
    match &recorded {
        Some(rec) => {
            if *rec == selected {
                Ok(selected)
            } else {
                Err(Error::new(ErrorKind::ConfigMismatch))
            }
        },
        None => Ok(selected),
    }
}

} // verus!
