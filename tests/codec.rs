use mini_redis::parse::Parse;
use mini_redis::cmd::{Command, Get, Ping, Publish, SetCmd, Subscribe, Unsubscribe};
use mini_redis::connection::Connection;
use mini_redis::frame::{self, Frame};
use mini_redis::server::{duration_from_ms_str, next_backoff};

fn encode(frame: &Frame) -> Vec<u8> {
    let mut conn = Connection::new();
    conn.write_frame(frame);
    conn.take_output()
}

#[test]
fn encodes_each_kind() {
    assert_eq!(encode(&Frame::Simple(b"OK".to_vec())), b"+OK\r\n");
    assert_eq!(encode(&Frame::Error(b"bad".to_vec())), b"-bad\r\n");
    assert_eq!(encode(&Frame::Integer(0)), b":0\r\n");
    assert_eq!(encode(&Frame::Integer(u64::MAX)), b":18446744073709551615\r\n");
    assert_eq!(encode(&Frame::Null), b"$-1\r\n");
    assert_eq!(encode(&Frame::Bulk(b"hi".to_vec())), b"$2\r\nhi\r\n");
    assert_eq!(encode(&Frame::Bulk(Vec::new())), b"$0\r\n\r\n");
    let nested = Frame::Array(vec![Frame::Integer(7), Frame::Array(vec![Frame::Null])]);
    assert_eq!(encode(&nested), b"*2\r\n:7\r\n*1\r\n$-1\r\n");
}

#[test]
fn decodes_what_was_encoded() {
    let frames = vec![
        Frame::Simple(b"PONG".to_vec()),
        Frame::Error(b"Err: no".to_vec()),
        Frame::Integer(1234567890),
        Frame::Null,
        Frame::Bulk(b"a\r\nb".to_vec()),
        Frame::Array(vec![Frame::Bulk(b"x".to_vec()), Frame::Array(vec![]), Frame::Integer(3)]),
    ];
    for f in &frames {
        let mut bytes = encode(f);
        let len = bytes.len();
        bytes.extend_from_slice(b"+trailing\r\n");
        let (back, used) = Frame::parse(&bytes).unwrap();
        assert_eq!(used, len);
        assert_eq!(Frame::check(&bytes).unwrap(), len);
        assert_eq!(encode(&back), encode(f));
    }
}

#[test]
fn incomplete_and_invalid_input() {
    for partial in [&b""[..], b"+OK", b"+OK\r", b"$5\r\nhel", b"*2\r\n:1\r\n", b"$-1", b":12"] {
        assert!(matches!(Frame::parse(partial), Err(frame::Error::Incomplete)));
        assert!(matches!(Frame::check(partial), Err(frame::Error::Incomplete)));
    }
    for bad in [&b"?x\r\n"[..], b":12a\r\n", b":\r\n", b":-1\r\n", b"$-2\r\n", b"*x\r\n", b":18446744073709551616\r\n"] {
        assert!(matches!(Frame::parse(bad), Err(frame::Error::Other(_))));
        assert!(matches!(Frame::check(bad), Err(frame::Error::Other(_))));
    }
}

#[test]
fn leading_zeros_in_lengths() {
    let (f, used) = Frame::parse(b"$002\r\nhi\r\n").unwrap();
    assert_eq!(used, 10);
    assert_eq!(encode(&f), b"$2\r\nhi\r\n");
}

#[test]
fn push_helpers_and_text_comparison() {
    let mut f = Frame::array();
    f.push_bulk(b"message".to_vec());
    f.push_int(3);
    assert_eq!(encode(&f), b"*2\r\n$7\r\nmessage\r\n:3\r\n");
    assert!(Frame::Simple(b"OK".to_vec()).eq_text("OK"));
    assert!(Frame::Bulk("你好".as_bytes().to_vec()).eq_text("你好"));
    assert!(!Frame::Integer(1).eq_text("1"));
    assert!(!Frame::Error(b"OK".to_vec()).eq_text("ok"));
}

#[test]
fn commands_round_trip() {
    let back = |f: Frame| Command::from_frame(f).unwrap();
    match back(Get::new("hello").into_frame()) {
        Command::Get(g) => assert_eq!(g.key(), "hello"),
        _ => panic!(),
    }
    match back(SetCmd::new("k", b"v".to_vec(), Some(1500)).into_frame()) {
        Command::SetCmd(s) => {
            assert_eq!(s.key(), "k");
            assert_eq!(s.value(), b"v");
            assert_eq!(s.expire(), Some(1500));
        },
        _ => panic!(),
    }
    match back(Publish::new("ch", b"m".to_vec()).into_frame()) {
        Command::Publish(p) => {
            assert_eq!(p.channel(), "ch");
            assert_eq!(p.message(), b"m");
        },
        _ => panic!(),
    }
    let chans = vec!["a".to_string(), "b".to_string()];
    match back(Subscribe::new(&chans).into_frame()) {
        Command::Subscribe(s) => assert_eq!(s.channels().to_vec(), chans),
        _ => panic!(),
    }
    match back(Unsubscribe::new(&[]).into_frame()) {
        Command::Unsubscribe(u) => assert!(u.channels().is_empty()),
        _ => panic!(),
    }
    match back(Ping::new(Some("hi".to_string())).into_frame()) {
        Command::Ping(_) => {},
        _ => panic!(),
    }
}

#[test]
fn command_decoding_rules() {
    let parse = |b: &[u8]| Command::from_frame(Frame::parse(b).unwrap().0);
    // Names fold ASCII case; an unknown name keeps its folded text.
    match parse(b"*1\r\n$5\r\nHeLLo\r\n").unwrap() {
        Command::Unknown(u) => assert_eq!(u.get_name(), "hello"),
        _ => panic!(),
    }
    // Seconds become milliseconds; PX keeps milliseconds.
    match parse(b"*5\r\n$3\r\nset\r\n$1\r\nk\r\n$1\r\nv\r\n$2\r\nex\r\n$2\r\n10\r\n").unwrap() {
        Command::SetCmd(s) => assert_eq!(s.expire(), Some(10_000)),
        _ => panic!(),
    }
    match parse(b"*5\r\n$3\r\nset\r\n$1\r\nk\r\n$1\r\nv\r\n+PX\r\n:25\r\n").unwrap() {
        Command::SetCmd(s) => assert_eq!(s.expire(), Some(25)),
        _ => panic!(),
    }
    match parse(b"*5\r\n$3\r\nset\r\n$1\r\nk\r\n$1\r\nv\r\n+EX\r\n:18446744073709551615\r\n").unwrap() {
        Command::SetCmd(s) => assert_eq!(s.expire(), Some(u64::MAX)),
        _ => panic!(),
    }
    // Errors: not an array, missing or extra arguments, bad option, bad text.
    assert!(parse(b"+GET\r\n").is_err());
    assert!(parse(b"*0\r\n").is_err());
    assert!(parse(b"*1\r\n$3\r\nGET\r\n").is_err());
    assert!(parse(b"*3\r\n$3\r\nGET\r\n$1\r\na\r\n$1\r\nb\r\n").is_err());
    assert!(parse(b"*4\r\n$3\r\nSET\r\n$1\r\nk\r\n$1\r\nv\r\n$2\r\nEX\r\n").is_err());
    assert!(parse(b"*5\r\n$3\r\nSET\r\n$1\r\nk\r\n$1\r\nv\r\n$2\r\nNX\r\n:1\r\n").is_err());
    assert!(parse(b"*1\r\n$9\r\nSUBSCRIBE\r\n").is_err());
    assert!(parse(b"*2\r\n$3\r\nGET\r\n$1\r\n\xff\r\n").is_err());
    assert!(parse(b"*2\r\n$3\r\nGET\r\n:1\r\n").is_err());
}

#[test]
fn accept_backoff_doubles_up_to_the_ceiling() {
    assert_eq!(next_backoff(1), Some(2));
    assert_eq!(next_backoff(32), Some(64));
    assert_eq!(next_backoff(64), Some(128));
    assert_eq!(next_backoff(128), None);
}

#[test]
fn expiry_argument() {
    assert_eq!(duration_from_ms_str("100"), Some(100));
    assert_eq!(duration_from_ms_str("+7"), Some(7));
    assert_eq!(duration_from_ms_str("x1"), None);
    assert_eq!(duration_from_ms_str(""), None);
}

#[test]
fn set_request_sends_every_argument_as_bulk() {
    let f = SetCmd::new("k", b"v".to_vec(), Some(1500)).into_frame();
    assert_eq!(
        encode(&f),
        b"*5\r\n$3\r\nset\r\n$1\r\nk\r\n$1\r\nv\r\n$2\r\npx\r\n$4\r\n1500\r\n"
    );
    let f = SetCmd::new("k", b"v".to_vec(), None).into_frame();
    assert_eq!(encode(&f), b"*3\r\n$3\r\nset\r\n$1\r\nk\r\n$1\r\nv\r\n");
}

#[test]
fn set_arguments_fail_whatever_follows() {
    let read = |b: &[u8]| {
        let mut p = Parse::new(Frame::parse(b).unwrap().0).unwrap();
        p.next_string().unwrap();
        SetCmd::parse_frames(&mut p)
    };
    // An unknown unit, or a unit without a number, fails even with more elements after it.
    assert!(read(b"*6\r\n$3\r\nSET\r\n$1\r\nk\r\n$1\r\nv\r\n$2\r\nNX\r\n:1\r\n:2\r\n").is_err());
    assert!(read(b"*5\r\n$3\r\nSET\r\n$1\r\nk\r\n$1\r\nv\r\n$2\r\nEX\r\n$1\r\nx\r\n").is_err());
    assert!(read(b"*6\r\n$3\r\nSET\r\n$1\r\nk\r\n$1\r\nv\r\n$2\r\nPX\r\n$1\r\nx\r\n:2\r\n").is_err());
    let s = read(b"*6\r\n$3\r\nSET\r\n$1\r\nk\r\n$1\r\nv\r\n$2\r\nPX\r\n$2\r\n12\r\n:2\r\n").unwrap();
    assert_eq!(s.expire(), Some(12));
}
