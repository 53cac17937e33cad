//! Frames, their codec and commands.

use bytes::{Bytes, BytesMut};
use kamino::protocol::codec::{ProtocolVersion, RespCodec, MAX_DEPTH};
use kamino::protocol::command::{Command, PartitionType, PutCommandOptions, ScanCommandOptions};
use kamino::protocol::double::DoubleText;
use kamino::protocol::error::{CommandError, ProtocolError};
use kamino::protocol::frame::{BulkString, Frame};
use kamino::protocol::hello::HelloArgs;

fn bulk(s: &str) -> BulkString {
    BulkString::from_bytes(Bytes::copy_from_slice(s.as_bytes()))
}

fn decode_one(bytes: &[u8]) -> Frame {
    let mut codec = RespCodec::new();
    let mut buf = BytesMut::from(bytes);
    let frame = codec.decode(&mut buf).expect("decode ok").expect("complete");
    assert!(buf.is_empty(), "trailing bytes: {buf:?}");
    frame
}

fn encode_one(codec: &mut RespCodec, frame: Frame) -> BytesMut {
    let mut buf = BytesMut::new();
    codec.encode(&frame, &mut buf).expect("encode ok");
    buf
}

#[test]
fn decode_simple_string() {
    assert_eq!(decode_one(b"+OK\r\n"), Frame::SimpleString("OK".to_string()));
}

#[test]
fn decode_error() {
    assert_eq!(decode_one(b"-ERR oops\r\n"), Frame::Error("ERR oops".to_string()));
}

#[test]
fn decode_integer() {
    assert_eq!(decode_one(b":42\r\n"), Frame::Integer(42));
    assert_eq!(decode_one(b":-7\r\n"), Frame::Integer(-7));
}

#[test]
fn decode_bulk() {
    assert_eq!(decode_one(b"$5\r\nhello\r\n"), Frame::Bulk(bulk("hello")));
}

#[test]
fn decode_null_bulk() {
    assert_eq!(decode_one(b"$-1\r\n"), Frame::Bulk(BulkString::null()));
}

#[test]
fn decode_empty_bulk() {
    assert_eq!(decode_one(b"$0\r\n\r\n"), Frame::Bulk(bulk("")));
}

#[test]
fn decode_array_of_bulks() {
    let frame = decode_one(b"*2\r\n$3\r\nfoo\r\n$3\r\nbar\r\n");
    assert_eq!(
        frame,
        Frame::Array(Some(vec![Frame::Bulk(bulk("foo")), Frame::Bulk(bulk("bar"))]))
    );
}

#[test]
fn decode_empty_array() {
    assert_eq!(decode_one(b"*0\r\n"), Frame::Array(Some(vec![])));
}

#[test]
fn decode_null_array() {
    assert_eq!(decode_one(b"*-1\r\n"), Frame::Array(None));
}

#[test]
fn decode_nested_array() {
    let frame = decode_one(b"*2\r\n*1\r\n:1\r\n:2\r\n");
    assert_eq!(
        frame,
        Frame::Array(Some(vec![
            Frame::Array(Some(vec![Frame::Integer(1)])),
            Frame::Integer(2),
        ]))
    );
}

#[test]
fn truncated_returns_none() {
    let mut codec = RespCodec::new();
    let mut buf = BytesMut::from(&b"$5\r\nhel"[..]);
    assert!(codec.decode(&mut buf).unwrap().is_none());
    buf.extend_from_slice(b"lo\r\n");
    let frame = codec.decode(&mut buf).unwrap().unwrap();
    assert_eq!(frame, Frame::Bulk(bulk("hello")));
}

#[test]
fn truncated_one_byte_short_each_position() {
    let full: &[u8] = b"*2\r\n$3\r\nfoo\r\n$3\r\nbar\r\n";
    for i in 1..full.len() {
        let mut codec = RespCodec::new();
        let mut buf = BytesMut::from(&full[..i]);
        assert!(
            codec.decode(&mut buf).unwrap().is_none(),
            "prefix len {i} should be incomplete"
        );
    }
}

#[test]
fn empty_buffer_is_none() {
    let mut codec = RespCodec::new();
    let mut buf = BytesMut::new();
    assert!(codec.decode(&mut buf).unwrap().is_none());
}

#[test]
fn bulk_over_max_rejected() {
    let mut codec = RespCodec::new();
    codec.set_max_bulk_size(8);
    let mut buf = BytesMut::from(&b"$100\r\n"[..]);
    assert!(matches!(
        codec.decode(&mut buf),
        Err(ProtocolError::BulkTooLarge { size: 100, max: 8 })
    ));
}

#[test]
fn array_over_max_rejected() {
    let mut codec = RespCodec::new();
    codec.set_max_array_len(2);
    let mut buf = BytesMut::from(&b"*10\r\n"[..]);
    assert!(matches!(
        codec.decode(&mut buf),
        Err(ProtocolError::ArrayTooLarge { len: 10, max: 2 })
    ));
}

#[test]
fn inline_ping_decodes_to_array() {
    let frame = decode_one(b"PING\r\n");
    assert_eq!(frame, Frame::Array(Some(vec![Frame::Bulk(bulk("PING"))])));
    let frame = decode_one(b"ping\r\n");
    assert_eq!(frame, Frame::Array(Some(vec![Frame::Bulk(bulk("PING"))])));
}

#[test]
fn inline_other_command_rejected() {
    let mut codec = RespCodec::new();
    let mut buf = BytesMut::from(&b"GET foo\r\n"[..]);
    assert!(matches!(
        codec.decode(&mut buf),
        Err(ProtocolError::InlineCommandRejected(_))
    ));
}

#[test]
fn garbage_prefix_rejected() {
    let mut codec = RespCodec::new();
    let mut buf = BytesMut::from(&[0x00_u8, 0x01, 0x02][..]);
    assert!(matches!(codec.decode(&mut buf), Err(ProtocolError::InvalidEncoding(_))));
}

#[test]
fn resp3_prefix_rejected_in_resp2() {
    let mut codec = RespCodec::new();
    let mut buf = BytesMut::from(&b"#t\r\n"[..]);
    assert!(matches!(codec.decode(&mut buf), Err(ProtocolError::InvalidEncoding(_))));
}

#[test]
fn resp3_frames_decode_after_upgrade() {
    let mut codec = RespCodec::new();
    assert_eq!(codec.version(), ProtocolVersion::Resp2);
    codec.upgrade_to_resp3();
    assert_eq!(codec.version(), ProtocolVersion::Resp3);
    let mut buf = BytesMut::from(&b"#t\r\n"[..]);
    assert_eq!(codec.decode(&mut buf).unwrap().unwrap(), Frame::Boolean(true));

    let mut buf = BytesMut::from(&b"_\r\n"[..]);
    assert_eq!(codec.decode(&mut buf).unwrap().unwrap(), Frame::Null);

    let mut buf = BytesMut::from(&b",2.5\r\n"[..]);
    let Frame::Double(d) = codec.decode(&mut buf).unwrap().unwrap() else {
        panic!("expected Double");
    };
    let d: f64 = std::str::from_utf8(d.as_bytes()).unwrap().parse().unwrap();
    assert!((d - 2.5).abs() < 1e-9);

    let mut buf = BytesMut::from(&b"(123456789012345678901234567890\r\n"[..]);
    assert_eq!(
        codec.decode(&mut buf).unwrap().unwrap(),
        Frame::BigNumber("123456789012345678901234567890".to_string())
    );

    let mut buf = BytesMut::from(&b"%2\r\n+a\r\n:1\r\n+b\r\n:2\r\n"[..]);
    assert_eq!(
        codec.decode(&mut buf).unwrap().unwrap(),
        Frame::MapFrame(vec![
            (Frame::SimpleString("a".to_string()), Frame::Integer(1)),
            (Frame::SimpleString("b".to_string()), Frame::Integer(2)),
        ])
    );

    let mut buf = BytesMut::from(&b"~2\r\n+x\r\n+y\r\n"[..]);
    assert_eq!(
        codec.decode(&mut buf).unwrap().unwrap(),
        Frame::SetFrame(vec![
            Frame::SimpleString("x".to_string()),
            Frame::SimpleString("y".to_string()),
        ])
    );

    let mut buf = BytesMut::from(&b">2\r\n+pub\r\n+msg\r\n"[..]);
    assert_eq!(
        codec.decode(&mut buf).unwrap().unwrap(),
        Frame::Push(vec![
            Frame::SimpleString("pub".to_string()),
            Frame::SimpleString("msg".to_string()),
        ])
    );
}

#[test]
fn encode_resp3_frame_on_resp2_fails() {
    let mut codec = RespCodec::new();
    let mut buf = BytesMut::new();
    assert!(matches!(
        codec.encode(&Frame::MapFrame(vec![]), &mut buf),
        Err(ProtocolError::Resp3Required("Map"))
    ));
    assert!(matches!(
        codec.encode(&Frame::Null, &mut buf),
        Err(ProtocolError::Resp3Required("Null"))
    ));
}

#[test]
fn encode_simple_frames_resp2() {
    let mut codec = RespCodec::new();
    assert_eq!(
        &encode_one(&mut codec, Frame::SimpleString("OK".to_string()))[..],
        b"+OK\r\n"
    );
    assert_eq!(
        &encode_one(&mut codec, Frame::Error("ERR oops".to_string()))[..],
        b"-ERR oops\r\n"
    );
    assert_eq!(&encode_one(&mut codec, Frame::Integer(-7))[..], b":-7\r\n");
    assert_eq!(&encode_one(&mut codec, Frame::Bulk(bulk("hi")))[..], b"$2\r\nhi\r\n");
    assert_eq!(&encode_one(&mut codec, Frame::Bulk(BulkString::null()))[..], b"$-1\r\n");
    assert_eq!(&encode_one(&mut codec, Frame::Array(None))[..], b"*-1\r\n");
    let frame = Frame::Array(Some(vec![
        Frame::Bulk(bulk("DM.GET")),
        Frame::Bulk(bulk("dm")),
        Frame::Bulk(bulk("k")),
    ]));
    assert_eq!(
        &encode_one(&mut codec, frame)[..],
        b"*3\r\n$6\r\nDM.GET\r\n$2\r\ndm\r\n$1\r\nk\r\n"
    );
}

#[test]
fn encode_by_reference() {
    let mut codec = RespCodec::new();
    let mut buf = BytesMut::new();
    let f = Frame::SimpleString("OK".to_string());
    codec.encode(&f, &mut buf).unwrap();
    assert_eq!(&buf[..], b"+OK\r\n");
    assert_eq!(f, Frame::SimpleString("OK".to_string()));
}

#[test]
fn encode_resp3_after_upgrade() {
    let mut codec = RespCodec::new();
    codec.upgrade_to_resp3();
    assert_eq!(&encode_one(&mut codec, Frame::Null)[..], b"_\r\n");
    assert_eq!(&encode_one(&mut codec, Frame::Boolean(true))[..], b"#t\r\n");
    assert_eq!(&encode_one(&mut codec, Frame::Boolean(false))[..], b"#f\r\n");
    let m = Frame::MapFrame(vec![(Frame::SimpleString("k".to_string()), Frame::Integer(1))]);
    assert_eq!(&encode_one(&mut codec, m)[..], b"%1\r\n+k\r\n:1\r\n");
}

#[test]
fn round_trip_all_resp2_frames() {
    let frames = [
        Frame::SimpleString("OK".to_string()),
        Frame::Error("ERR bad".to_string()),
        Frame::Integer(0),
        Frame::Integer(i64::MIN),
        Frame::Integer(i64::MAX),
        Frame::Bulk(bulk("hello")),
        Frame::Bulk(BulkString::null()),
        Frame::Bulk(bulk("")),
        Frame::Array(None),
        Frame::Array(Some(vec![])),
        Frame::Array(Some(vec![Frame::Bulk(bulk("a")), Frame::Integer(7)])),
    ];
    let mut codec = RespCodec::new();
    for f in frames {
        let mut buf = BytesMut::new();
        codec.encode(&f, &mut buf).unwrap();
        let mut codec2 = RespCodec::new();
        let back = codec2.decode(&mut buf).unwrap().unwrap();
        assert_eq!(back, f);
        assert!(buf.is_empty());
    }
}

#[test]
fn encode_simple_string_rejects_crlf() {
    let mut codec = RespCodec::new();
    let mut buf = BytesMut::new();
    assert!(matches!(
        codec.encode(&Frame::SimpleString("a\r\nb".to_string()), &mut buf),
        Err(ProtocolError::InvalidEncoding(_))
    ));
}

#[test]
fn bulk_with_binary_payload_round_trips() {
    let bin: Vec<u8> = (0..=255_u8).collect();
    let frame = Frame::Bulk(BulkString::from_bytes(Bytes::from(bin)));
    let mut codec = RespCodec::new();
    let mut buf = BytesMut::new();
    codec.encode(&frame, &mut buf).unwrap();
    let mut codec2 = RespCodec::new();
    let back = codec2.decode(&mut buf).unwrap().unwrap();
    assert_eq!(back, frame);
}

#[test]
fn deeply_nested_rejected() {
    let mut payload = Vec::new();
    for _ in 0..(MAX_DEPTH + 2) {
        payload.extend_from_slice(b"*1\r\n");
    }
    payload.extend_from_slice(b":1\r\n");
    let mut codec = RespCodec::new();
    let mut buf = BytesMut::from(payload.as_slice());
    let res = codec.decode(&mut buf);
    assert!(matches!(res, Err(ProtocolError::InvalidEncoding(_))));
}

#[test]
fn multiple_frames_back_to_back() {
    let mut codec = RespCodec::new();
    let mut buf = BytesMut::from(&b"+A\r\n+B\r\n:1\r\n"[..]);
    assert_eq!(
        codec.decode(&mut buf).unwrap().unwrap(),
        Frame::SimpleString("A".to_string())
    );
    assert_eq!(
        codec.decode(&mut buf).unwrap().unwrap(),
        Frame::SimpleString("B".to_string())
    );
    assert_eq!(codec.decode(&mut buf).unwrap().unwrap(), Frame::Integer(1));
    assert!(buf.is_empty());
}

#[test]
fn malformed_integer_rejected() {
    let mut codec = RespCodec::new();
    let mut buf = BytesMut::from(&b":notanumber\r\n"[..]);
    assert!(matches!(codec.decode(&mut buf), Err(ProtocolError::InvalidEncoding(_))));
}

#[test]
fn bulk_missing_trailing_crlf_rejected() {
    let mut codec = RespCodec::new();
    let mut buf = BytesMut::from(&b"$3\r\nfooXX"[..]);
    assert!(matches!(codec.decode(&mut buf), Err(ProtocolError::InvalidEncoding(_))));
}

fn b(s: &str) -> Bytes {
    Bytes::copy_from_slice(s.as_bytes())
}

fn words(w: &[&str]) -> Frame {
    Frame::Array(Some(w.iter().map(|s| Frame::Bulk(bulk(s))).collect()))
}

#[test]
fn commands_read_back() {
    let commands = vec![
        Command::Ping(None),
        Command::Ping(Some(b("hi"))),
        Command::Auth { username: None, password: b("pw") },
        Command::Auth { username: Some(b("u")), password: b("pw") },
        Command::Hello(HelloArgs { protocol_version: Some(3), auth: None, client_name: None }),
        Command::Quit,
        Command::Stats,
        Command::DmPut {
            dmap: b("m"),
            key: b("k"),
            value: b("v"),
            options: PutCommandOptions { px: Some(7), xx: true, timestamp: Some(-1), ..PutCommandOptions::default() },
        },
        Command::DmGet { dmap: b("m"), key: b("k") },
        Command::DmDel { dmap: b("m"), keys: vec![b("a"), b("b")] },
        Command::DmExpire { dmap: b("m"), key: b("k"), seconds: 9 },
        Command::DmPexpire { dmap: b("m"), key: b("k"), milliseconds: 9 },
        Command::DmIncr { dmap: b("m"), key: b("k"), delta: -3 },
        Command::DmDecr { dmap: b("m"), key: b("k"), delta: 3 },
        Command::DmGetPut { dmap: b("m"), key: b("k"), value: b("v") },
        Command::DmIncrByFloat {
            dmap: b("m"),
            key: b("k"),
            delta: DoubleText::parse(b"1.5").unwrap(),
        },
        Command::DmDestroy { dmap: b("m") },
        Command::DmScan {
            partition_id: 2,
            dmap: b("m"),
            cursor: 0,
            options: ScanCommandOptions { match_pattern: Some(b("a*")), count: Some(5) },
        },
        Command::InternalNodeUpdateRouting { table: b("t") },
        Command::InternalNodePublish { channel: b("c"), message: b("m") },
        Command::InternalNodeMoveFragment {
            partition_id: 1,
            partition_type: PartitionType::Backup,
            dmap: b("m"),
            payload: b("p"),
        },
    ];
    for c in commands {
        let frame = c.to_frame();
        let back = Command::parse(frame).unwrap();
        assert_eq!(back, c);
    }
}

#[test]
fn commands_are_written_as_words() {
    let c = Command::DmPut {
        dmap: b("m"),
        key: b("k"),
        value: b("v"),
        options: PutCommandOptions { ex: Some(5), nx: true, ..PutCommandOptions::default() },
    };
    assert_eq!(c.to_frame(), words(&["DM.PUT", "m", "k", "v", "EX", "5", "NX"]));
    assert_eq!(
        Command::parse(words(&["dm.put", "m", "k", "v", "nx", "ex", "5"])).unwrap(),
        c
    );
}

#[test]
fn bad_commands_are_refused() {
    assert!(matches!(
        Command::parse(words(&["NOPE"])),
        Err(CommandError::UnknownCommand(_))
    ));
    assert!(Command::parse(words(&["DM.GET", "m"])).is_err());
    assert!(Command::parse(words(&["DM.PUT", "m", "k", "v", "NX", "XX"])).is_err());
    assert!(Command::parse(words(&["DM.PUT", "m", "k", "v", "EX", "5", "PX", "5"])).is_err());
    assert!(Command::parse(words(&["DM.INCR", "m", "k", "x"])).is_err());
    assert!(Command::parse(Frame::Integer(1)).is_err());
}

#[test]
fn long_doubles_are_recognised() {
    let digits = "7".repeat(500_000);
    assert!(DoubleText::parse(format!("{digits}.{digits}e{digits}").as_bytes()).is_some());
    assert!(DoubleText::parse(format!("{digits}x").as_bytes()).is_none());
}

#[test]
fn doubles_are_recognised() {
    for good in ["1", "-1.5", "+2e10", ".5", "1.", "inf", "-Infinity", "nan", "1E-3"] {
        assert!(DoubleText::parse(good.as_bytes()).is_some(), "{good}");
        assert!(good.parse::<f64>().is_ok(), "{good}");
    }
    for bad in ["", ".", "1e", "abc", "1.5x", "--1", "e5", "+"] {
        assert!(DoubleText::parse(bad.as_bytes()).is_none(), "{bad}");
        assert!(bad.parse::<f64>().is_err(), "{bad}");
    }
}
