//! The record codec, the framed wire protocol, and the server dispatch.

use kvs::codec::{decode_cmd_at, encode_cmd};
use kvs::protocol::{
    check_pong, decode_request, decode_response, dispatch, encode_request, encode_response,
};
use kvs::store::KvStore;
use kvs::{Cmd, ErrorKind, Protocol, Request, Response};

fn s(x: &str) -> String {
    String::from(x)
}

#[test]
fn record_round_trip() {
    let rec = Cmd::set(s("some key"), s("some value"));
    let bytes = encode_cmd(&rec);
    let (back, end) = decode_cmd_at(&bytes, 0).unwrap();
    assert_eq!(end, bytes.len());
    match back {
        Cmd::Put { key, value } => {
            assert_eq!(key, s("some key"));
            assert_eq!(value, s("some value"));
        }
        Cmd::Rm { .. } => panic!("wrong record kind"),
    }
}

#[test]
fn record_round_trip_erase_and_unicode() {
    let rec = Cmd::rm(s("clé häßlich \u{1F600}"));
    let bytes = encode_cmd(&rec);
    let (back, end) = decode_cmd_at(&bytes, 0).unwrap();
    assert_eq!(end, bytes.len());
    match back {
        Cmd::Rm { key } => assert_eq!(key, s("clé häßlich \u{1F600}")),
        Cmd::Put { .. } => panic!("wrong record kind"),
    }
}

#[test]
fn record_stream_recovers_offsets() {
    let mut stream = encode_cmd(&Cmd::set(s("a"), s("1")));
    let second = encode_cmd(&Cmd::rm(s("a")));
    let first_len = stream.len();
    stream.extend_from_slice(&second);
    let (_, end1) = decode_cmd_at(&stream, 0).unwrap();
    assert_eq!(end1, first_len);
    let (back2, end2) = decode_cmd_at(&stream, end1).unwrap();
    assert_eq!(end2, stream.len());
    assert!(matches!(back2, Cmd::Rm { .. }));
}

#[test]
fn truncated_record_is_codec_error() {
    let bytes = encode_cmd(&Cmd::set(s("abc"), s("def")));
    for cut in 0..bytes.len() {
        let prefix: Vec<u8> = bytes[..cut].to_vec();
        let err = decode_cmd_at(&prefix, 0).unwrap_err();
        assert_eq!(err.kind(), ErrorKind::CodecError);
    }
}

#[test]
fn unknown_tag_is_codec_error() {
    let bytes = vec![9u8, 0, 0, 0, 0, 0, 0, 0, 0, 0, 0, 0];
    let err = decode_cmd_at(&bytes, 0).unwrap_err();
    assert_eq!(err.kind(), ErrorKind::CodecError);
}

#[test]
fn envelope_version_tag() {
    let p = Protocol::new(Request::Ping(1));
    assert_eq!(p.version(), "0.2");
}

#[test]
fn wire_scenario_ping_set_get_rm() {
    let mut store = KvStore::new();

    // Ping(7) => Pong(7).
    let line = encode_request(&Protocol::new(Request::Ping(7)));
    let req = decode_request(&line).unwrap();
    let resp = dispatch(&mut store, req.payload).unwrap();
    assert!(matches!(resp, Response::Pong(7)));
    assert!(check_pong(&resp, 7).is_ok());

    // Set {"x","y"} => Success{none}.
    let line = encode_request(&Protocol::new(Request::Put { key: s("x"), value: s("y") }));
    let req = decode_request(&line).unwrap();
    let resp = dispatch(&mut store, req.payload).unwrap();
    assert!(matches!(resp, Response::Success { value: None }));

    // Get {"x"} => Success{Some("y")}, carried back over the wire.
    let line = encode_request(&Protocol::new(Request::Get { key: s("x") }));
    let req = decode_request(&line).unwrap();
    let resp = dispatch(&mut store, req.payload).unwrap();
    let resp_line = encode_response(&Protocol::new(resp));
    let got = decode_response(&resp_line).unwrap();
    match got.payload {
        Response::Success { value } => assert_eq!(value, Some(s("y"))),
        _ => panic!("wrong response"),
    }

    // Rm {"x"} => Success{none}; then Get {"x"} => Success{none}.
    let line = encode_request(&Protocol::new(Request::Rm { key: s("x") }));
    let req = decode_request(&line).unwrap();
    let resp = dispatch(&mut store, req.payload).unwrap();
    assert!(matches!(resp, Response::Success { value: None }));
    let line = encode_request(&Protocol::new(Request::Get { key: s("x") }));
    let req = decode_request(&line).unwrap();
    let resp = dispatch(&mut store, req.payload).unwrap();
    assert!(matches!(resp, Response::Success { value: None }));
}

#[test]
fn shutdown_has_no_response() {
    let mut store = KvStore::new();
    let line = encode_request(&Protocol::new(Request::Shutdown));
    let req = decode_request(&line).unwrap();
    assert!(dispatch(&mut store, req.payload).is_none());
}

#[test]
fn remove_miss_answers_error_response() {
    let mut store = KvStore::new();
    let resp = dispatch(&mut store, Request::Rm { key: s("nope") }).unwrap();
    match resp {
        Response::Error { msg } => assert_eq!(msg, s("Key not found")),
        _ => panic!("expected an error response"),
    }
}

#[test]
fn pong_mismatch_is_protocol_error() {
    let err = check_pong(&Response::Pong(3), 7).unwrap_err();
    assert_eq!(err.kind(), ErrorKind::ProtocolError);
    let err = check_pong(&Response::Shutdown, 7).unwrap_err();
    assert_eq!(err.kind(), ErrorKind::ProtocolError);
    assert!(check_pong(&Response::Pong(-5), -5).is_ok());
}

#[test]
fn wire_lines_have_single_terminator() {
    let line = encode_request(&Protocol::new(Request::Put {
        key: s("multi\nline"),
        value: s("v\n"),
    }));
    assert_eq!(line.iter().filter(|b| **b == b'\n').count(), 1);
    assert_eq!(*line.last().unwrap(), b'\n');
    let req = decode_request(&line).unwrap();
    match req.payload {
        Request::Put { key, value } => {
            assert_eq!(key, s("multi\nline"));
            assert_eq!(value, s("v\n"));
        }
        _ => panic!("wrong request"),
    }
}

#[test]
fn garbled_line_is_codec_error() {
    let err = decode_request(&vec![b'z', b'z', b'\n']).unwrap_err();
    assert_eq!(err.kind(), ErrorKind::CodecError);
    let err = decode_response(&Vec::new()).unwrap_err();
    assert_eq!(err.kind(), ErrorKind::CodecError);
}
