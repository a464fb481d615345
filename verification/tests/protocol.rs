use ferrium::error::Error;
use ferrium::protocol::command::Command;
use ferrium::protocol::resp::Frame;

fn roundtrip(frame: Frame) -> Frame {
    let mut buf = Vec::new();
    frame.encode(&mut buf);
    Frame::decode(&mut buf).unwrap().unwrap()
}

fn arr() -> Frame {
    Frame::Array(vec![Frame::bulk(b"SET"), Frame::bulk(b"k"), Frame::bulk(b"v")])
}

#[test]
fn encodes_and_decodes_all_variants() {
    assert_eq!(
        roundtrip(Frame::Simple("OK".into())),
        Frame::Simple("OK".into())
    );
    assert_eq!(roundtrip(Frame::Integer(-42)), Frame::Integer(-42));
    assert_eq!(roundtrip(Frame::bulk(b"hello")), Frame::bulk(b"hello"));
    assert_eq!(roundtrip(Frame::Null), Frame::Null);
    let arr = Frame::Array(vec![Frame::bulk(b"SET"), Frame::bulk(b"k"), Frame::bulk(b"v")]);
    assert_eq!(roundtrip(arr.clone()), arr);
}

#[test]
fn partial_frame_returns_none() {
    let mut buf = b"$5\r\nhel".to_vec();
    assert_eq!(Frame::decode(&mut buf).unwrap(), None);
    buf.extend_from_slice(b"lo\r\n");
    assert_eq!(Frame::decode(&mut buf).unwrap(), Some(Frame::bulk(b"hello")));
}

#[test]
fn inline_command_is_parsed_as_array() {
    let mut buf = b"PING hello\r\n".to_vec();
    let frame = Frame::decode(&mut buf).unwrap().unwrap();
    assert_eq!(
        frame,
        Frame::Array(vec![Frame::bulk(b"PING"), Frame::bulk(b"hello")])
    );
}

#[test]
fn encoding_is_exact() {
    let mut buf = Vec::new();
    arr().encode(&mut buf);
    Frame::Error("ERR x".into()).encode(&mut buf);
    Frame::Integer(0).encode(&mut buf);
    Frame::Null.encode(&mut buf);
    assert_eq!(
        buf,
        b"*3\r\n$3\r\nSET\r\n$1\r\nk\r\n$1\r\nv\r\n-ERR x\r\n:0\r\n$-1\r\n".to_vec()
    );
}

#[test]
fn decode_consumes_one_frame_and_keeps_the_rest() {
    let mut buf = b"+OK\r\n:7\r\n".to_vec();
    assert_eq!(Frame::decode(&mut buf).unwrap(), Some(Frame::Simple("OK".into())));
    assert_eq!(buf, b":7\r\n".to_vec());
    assert_eq!(Frame::decode(&mut buf).unwrap(), Some(Frame::Integer(7)));
    assert!(buf.is_empty());
    assert_eq!(Frame::decode(&mut buf).unwrap(), None);
}

#[test]
fn every_proper_prefix_of_a_frame_is_incomplete() {
    let mut whole = Vec::new();
    Frame::Array(vec![Frame::bulk(b"a\r\nb"), Frame::Integer(-3), Frame::Simple("s".into())]).encode(&mut whole);
    for n in 0..whole.len() {
        let mut part = whole[..n].to_vec();
        assert_eq!(Frame::decode(&mut part).unwrap(), None, "prefix of length {n}");
        assert_eq!(part, whole[..n].to_vec());
    }
}

#[test]
fn malformed_input_is_a_protocol_error() {
    let mut buf = b":12x\r\n".to_vec();
    match Frame::decode(&mut buf) {
        Err(Error::Protocol(m)) => assert_eq!(m, "invalid integer: [49, 50, 120]"),
        other => panic!("unexpected {other:?}"),
    }
    let mut buf = b"$1\r\nab\r\n".to_vec();
    match Frame::decode(&mut buf) {
        Err(Error::Protocol(m)) => assert_eq!(m, "bulk not terminated by CRLF"),
        other => panic!("unexpected {other:?}"),
    }
    let mut buf = b"+\xff\r\n".to_vec();
    match Frame::decode(&mut buf) {
        Err(Error::Protocol(m)) => assert_eq!(m, "invalid utf-8 in simple string"),
        other => panic!("unexpected {other:?}"),
    }
    assert_eq!(buf, b"+\xff\r\n".to_vec());
}

#[test]
fn negative_lengths_are_null() {
    let mut buf = b"*-1\r\n$-7\r\n".to_vec();
    assert_eq!(Frame::decode(&mut buf).unwrap(), Some(Frame::Null));
    assert_eq!(Frame::decode(&mut buf).unwrap(), Some(Frame::Null));
}

#[test]
fn inline_command_skips_empty_words() {
    let mut buf = b"  GET   key \r\n".to_vec();
    assert_eq!(
        Frame::decode(&mut buf).unwrap(),
        Some(Frame::Array(vec![Frame::bulk(b"GET"), Frame::bulk(b"key")]))
    );
}

fn cmd(parts: &[&str]) -> Result<Command, Error> {
    let frame = Frame::Array(parts.iter().map(|p| Frame::bulk(p.as_bytes())).collect());
    Command::from_frame(frame)
}

#[test]
fn parses_set_get_del() {
    assert_eq!(
        cmd(&["SET", "k", "v"]).unwrap(),
        Command::SetKey {
            key: "k".into(),
            value: b"v".to_vec()
        }
    );
    assert_eq!(
        cmd(&["get", "k"]).unwrap(),
        Command::Get { key: "k".into() }
    );
    assert_eq!(
        cmd(&["DEL", "a", "b"]).unwrap(),
        Command::Del {
            keys: vec!["a".into(), "b".into()]
        }
    );
}

#[test]
fn arity_is_enforced() {
    assert!(matches!(cmd(&["GET"]), Err(Error::WrongArity(_))));
    assert!(matches!(
        cmd(&["SET", "only-key"]),
        Err(Error::WrongArity(_))
    ));
}

#[test]
fn cluster_subcommands() {
    assert_eq!(cmd(&["CLUSTER", "status"]).unwrap(), Command::ClusterStatus);
    assert_eq!(
        cmd(&["cluster", "MEMBERS"]).unwrap(),
        Command::ClusterMembers
    );
}

#[test]
fn writes_are_flagged() {
    assert!(cmd(&["SET", "k", "v"]).unwrap().is_write());
    assert!(!cmd(&["GET", "k"]).unwrap().is_write());
}

#[test]
fn every_error_of_command_parsing() {
    match Command::from_frame(Frame::Integer(1)) {
        Err(Error::Protocol(m)) => assert_eq!(m, "expected non-empty array"),
        other => panic!("unexpected {other:?}"),
    }
    match Command::from_frame(Frame::Array(vec![])) {
        Err(Error::Protocol(m)) => assert_eq!(m, "expected non-empty array"),
        other => panic!("unexpected {other:?}"),
    }
    match Command::from_frame(Frame::Array(vec![Frame::bulk(b"GET"), Frame::Integer(5)])) {
        Err(Error::Protocol(m)) => assert_eq!(m, "expected bulk string, got Integer(5)"),
        other => panic!("unexpected {other:?}"),
    }
    match Command::from_frame(Frame::Array(vec![Frame::Array(vec![Frame::bulk(b"a\n\x01"), Frame::Null])])) {
        Err(Error::Protocol(m)) => {
            assert_eq!(m, "expected bulk string, got Array([Bulk(b\"a\\n\\x01\"), Null])")
        }
        other => panic!("unexpected {other:?}"),
    }
    match Command::from_frame(Frame::Array(vec![Frame::bulk(b"SET"), Frame::Error("a\"b".into())])) {
        Err(Error::Protocol(m)) => {
            assert_eq!(m, format!("expected bulk string, got Error({:?})", "a\"b"))
        }
        other => panic!("unexpected {other:?}"),
    }
    match cmd(&["PING", "a", "b"]) {
        Err(Error::WrongArity(n)) => assert_eq!(n, "ping"),
        other => panic!("unexpected {other:?}"),
    }
    match cmd(&["DEL"]) {
        Err(Error::WrongArity(n)) => assert_eq!(n, "del"),
        other => panic!("unexpected {other:?}"),
    }
    match cmd(&["flushall"]) {
        Err(Error::UnknownCommand(n)) => assert_eq!(n, "FLUSHALL"),
        other => panic!("unexpected {other:?}"),
    }
    match cmd(&["CLUSTER", "reset"]) {
        Err(Error::UnknownCommand(n)) => assert_eq!(n, "CLUSTER RESET"),
        other => panic!("unexpected {other:?}"),
    }
    match cmd(&["CLUSTER"]) {
        Err(Error::UnknownCommand(n)) => assert_eq!(n, "CLUSTER "),
        other => panic!("unexpected {other:?}"),
    }
}

#[test]
fn simple_strings_count_as_arguments_and_invalid_utf8_is_replaced() {
    let frame = Frame::Array(vec![
        Frame::Simple("set".into()),
        Frame::bulk(b"k\xff"),
        Frame::Simple("v".into()),
    ]);
    assert_eq!(
        Command::from_frame(frame).unwrap(),
        Command::SetKey {
            key: "k\u{fffd}".into(),
            value: b"v".to_vec()
        }
    );
    assert_eq!(cmd(&["ping"]).unwrap(), Command::Ping(None));
    assert_eq!(cmd(&["Ping", "hi"]).unwrap(), Command::Ping(Some(b"hi".to_vec())));
    assert_eq!(cmd(&["command", "docs"]).unwrap(), Command::Command);
    assert_eq!(cmd(&["CLUSTER", "info"]).unwrap(), Command::ClusterStatus);
    assert_eq!(cmd(&["CLUSTER", "nodes"]).unwrap(), Command::ClusterMembers);
}

#[test]
fn client_messages_of_every_error() {
    assert_eq!(Error::NotLeader(Some("n2".into())).client_message(), "MOVED n2");
    assert_eq!(Error::NotLeader(None).client_message(), "CLUSTERDOWN no known leader");
    assert_eq!(Error::Protocol("x".into()).client_message(), "protocol error: x");
    assert_eq!(Error::UnknownCommand("FOO".into()).client_message(), "unknown command 'FOO'");
    assert_eq!(Error::WrongArity("get".into()).client_message(), "wrong number of arguments for 'get'");
    assert_eq!(Error::Storage("s".into()).client_message(), "storage error: s");
    assert_eq!(Error::Cluster("c".into()).client_message(), "cluster error: c");
    let io = Error::Io(std::io::Error::new(std::io::ErrorKind::Other, "boom"));
    assert_eq!(io.client_message(), "io error: boom");
}
