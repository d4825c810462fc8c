use mini_redis::cmd::{Action, Command};
use mini_redis::connection::Connection;
use mini_redis::db::Db;
use mini_redis::frame::Frame;
use mini_redis::subscribed::{make_message_frame, Subscriptions};

/// Feeds `input` to a connection in normal mode and gives what it answers.
fn serve(db: &mut Db, conn: &mut Connection, input: &[u8], now: u64) -> Vec<u8> {
    conn.receive(input);
    while let Some(frame) = conn.parse_frame().unwrap() {
        let cmd = Command::from_frame(frame).unwrap();
        match cmd.apply(db, now) {
            Action::Reply { frame, .. } => conn.write_frame(&frame),
            Action::Subscribe(_) => panic!("unexpected subscribe"),
            Action::Fail(msg) => panic!("{}", msg),
        }
    }
    conn.take_output()
}

fn encode(frame: &Frame) -> Vec<u8> {
    let mut conn = Connection::new();
    conn.write_frame(frame);
    conn.take_output()
}

fn frame_of(bytes: &[u8]) -> Frame {
    let (frame, used) = Frame::parse(bytes).unwrap();
    assert_eq!(used, bytes.len());
    frame
}

/// Enters subscribed mode with `channels` and gives the encoded reports.
fn enter(db: &mut Db, channels: &[&str]) -> (Subscriptions, Vec<tokio::sync::broadcast::Receiver<Vec<u8>>>, Vec<u8>) {
    let mut subs = Subscriptions::new(channels.iter().map(|c| c.to_string()).collect());
    let mut out = Vec::new();
    let mut receivers = Vec::new();
    for channel in subs.take_pending() {
        let (rx, reply) = subs.subscribe_to_channel(channel, db);
        receivers.push(rx);
        out.extend(encode(&reply));
    }
    (subs, receivers, out)
}

fn handle(subs: &mut Subscriptions, input: &[u8]) -> Vec<u8> {
    let replies = subs.handle_command(frame_of(input)).unwrap();
    let mut out = Vec::new();
    for r in &replies {
        out.extend(encode(r));
    }
    out
}

#[test]
fn key_value_get_set() {
    let mut db = Db::new();
    let mut conn = Connection::new();
    let get = b"*2\r\n$3\r\nGET\r\n$5\r\nhello\r\n";
    assert_eq!(serve(&mut db, &mut conn, get, 0), b"$-1\r\n");
    let set = b"*3\r\n$3\r\nSET\r\n$5\r\nhello\r\n$5\r\nworld\r\n";
    assert_eq!(serve(&mut db, &mut conn, set, 0), b"+OK\r\n");
    assert_eq!(serve(&mut db, &mut conn, get, 0), b"$5\r\nworld\r\n");
}

#[test]
fn key_value_timeout() {
    let mut db = Db::new();
    let mut conn = Connection::new();
    let set = b"*5\r\n$3\r\nSET\r\n$5\r\nhello\r\n$5\r\nworld\r\n+EX\r\n:1\r\n";
    assert_eq!(serve(&mut db, &mut conn, set, 0), b"+OK\r\n");
    let get = b"*2\r\n$3\r\nGET\r\n$5\r\nhello\r\n";
    assert_eq!(serve(&mut db, &mut conn, get, 0), b"$5\r\nworld\r\n");
    assert_eq!(serve(&mut db, &mut conn, get, 999), b"$5\r\nworld\r\n");
    assert_eq!(serve(&mut db, &mut conn, get, 1000), b"$-1\r\n");
    assert_eq!(db.purge_expired_keys(1000), None);
    assert_eq!(serve(&mut db, &mut conn, get, 0), b"$-1\r\n");
}

#[test]
fn pub_sub() {
    let mut db = Db::new();
    let mut publisher = Connection::new();
    let publish_hello = b"*3\r\n$7\r\nPUBLISH\r\n$5\r\nhello\r\n$5\r\nJerry\r\n";
    let publish_foo = b"*3\r\n$7\r\nPUBLISH\r\n$3\r\nfoo\r\n$3\r\nbar\r\n";
    assert_eq!(serve(&mut db, &mut publisher, b"*3\r\n$7\r\nPUBLISH\r\n$5\r\nhello\r\n$5\r\nworld\r\n", 0), b":0\r\n");

    let (_sub1, mut rx1, out1) = enter(&mut db, &["hello"]);
    assert_eq!(out1, b"*3\r\n$9\r\nsubscribe\r\n$5\r\nhello\r\n:1\r\n");
    let (_sub2, mut rx2, out2) = enter(&mut db, &["hello", "foo"]);
    assert_eq!(
        out2,
        b"*3\r\n$9\r\nsubscribe\r\n$5\r\nhello\r\n:1\r\n*3\r\n$9\r\nsubscribe\r\n$3\r\nfoo\r\n:2\r\n"
    );

    assert_eq!(serve(&mut db, &mut publisher, publish_hello, 0), b":2\r\n");
    let m1 = rx1[0].try_recv().unwrap();
    let m2 = rx2[0].try_recv().unwrap();
    let expected: &[u8] = b"*3\r\n$7\r\nmessage\r\n$5\r\nhello\r\n$5\r\nJerry\r\n";
    assert_eq!(encode(&make_message_frame(&"hello".to_string(), m1)), expected);
    assert_eq!(encode(&make_message_frame(&"hello".to_string(), m2)), expected);

    assert_eq!(serve(&mut db, &mut publisher, publish_foo, 0), b":1\r\n");
    assert!(rx1[0].try_recv().is_err());
    assert_eq!(rx2[1].try_recv().unwrap(), b"bar".to_vec());
}

#[test]
fn manage_subscription() {
    let mut db = Db::new();
    let (mut subs, _rx, _) = enter(&mut db, &["hello"]);
    let more = handle(&mut subs, b"*2\r\n$9\r\nSUBSCRIBE\r\n$3\r\nfoo\r\n");
    assert!(more.is_empty());
    let mut out = Vec::new();
    for channel in subs.take_pending() {
        let (_rx, reply) = subs.subscribe_to_channel(channel, &mut db);
        out.extend(encode(&reply));
    }
    assert_eq!(out, b"*3\r\n$9\r\nsubscribe\r\n$3\r\nfoo\r\n:2\r\n");
    let out = handle(&mut subs, b"*2\r\n$11\r\nUNSUBSCRIBE\r\n$5\r\nhello\r\n");
    assert_eq!(out, b"*3\r\n$11\r\nunsubscribe\r\n$5\r\nhello\r\n:1\r\n");
    assert_eq!(subs.channels().to_vec(), vec!["foo".to_string()]);
}

#[test]
fn unsubscribe_from_channels() {
    let mut db = Db::new();
    let (mut subs, _rx, _) = enter(&mut db, &["hello", "foo"]);
    let out = handle(&mut subs, b"*1\r\n$11\r\nUNSUBSCRIBE\r\n");
    assert_eq!(
        out,
        b"*3\r\n$11\r\nunsubscribe\r\n$5\r\nhello\r\n:1\r\n*3\r\n$11\r\nunsubscribe\r\n$3\r\nfoo\r\n:0\r\n"
    );
    assert!(subs.channels().is_empty());
}

#[test]
fn send_error_unknown_command() {
    let mut db = Db::new();
    let mut conn = Connection::new();
    let foo = b"*2\r\n$3\r\nFOO\r\n$5\r\nhello\r\n";
    assert_eq!(serve(&mut db, &mut conn, foo, 0), b"-Err: unknown command 'foo'\r\n");
}

#[test]
fn send_error_get_set_after_subscribe() {
    let mut db = Db::new();
    let (mut subs, _rx, _) = enter(&mut db, &["hello"]);
    let set = b"*3\r\n$3\r\nSET\r\n$5\r\nhello\r\n$5\r\nworld\r\n";
    assert_eq!(handle(&mut subs, set), b"-Err: unknown command 'set'\r\n");
    let get = b"*2\r\n$3\r\nGET\r\n$5\r\nhello\r\n";
    assert_eq!(handle(&mut subs, get), b"-Err: unknown command 'get'\r\n");
    let ping = b"*1\r\n$4\r\nPING\r\n";
    assert_eq!(handle(&mut subs, ping), b"-Err: unknown command 'ping'\r\n");
    assert_eq!(subs.channels().to_vec(), vec!["hello".to_string()]);
}

#[test]
fn ping_without_message() {
    let mut db = Db::new();
    let mut conn = Connection::new();
    assert_eq!(serve(&mut db, &mut conn, b"*1\r\n$4\r\nPING\r\n", 0), b"+PONG\r\n");
}

#[test]
fn ping_with_hello() {
    let mut db = Db::new();
    let mut conn = Connection::new();
    let text = "你好";
    let mut input = format!("*2\r\n$4\r\nping\r\n${}\r\n", text.len()).into_bytes();
    input.extend_from_slice(text.as_bytes());
    input.extend_from_slice(b"\r\n");
    let mut expected = b"$6\r\n".to_vec();
    expected.extend_from_slice(text.as_bytes());
    expected.extend_from_slice(b"\r\n");
    assert_eq!(serve(&mut db, &mut conn, &input, 0), expected);
}

#[test]
fn unsubscribe_outside_subscribed_mode_fails() {
    let mut db = Db::new();
    let frame = frame_of(b"*2\r\n$11\r\nUNSUBSCRIBE\r\n$5\r\nhello\r\n");
    let cmd = Command::from_frame(frame).unwrap();
    assert!(matches!(cmd.apply(&mut db, 0), Action::Fail(_)));
}

#[test]
fn subscribe_enters_subscribed_mode() {
    let mut db = Db::new();
    let frame = frame_of(b"*3\r\n$9\r\nsubscribe\r\n$5\r\nhello\r\n$3\r\nfoo\r\n");
    let cmd = Command::from_frame(frame).unwrap();
    match cmd.apply(&mut db, 0) {
        Action::Subscribe(chs) => assert_eq!(chs, vec!["hello".to_string(), "foo".to_string()]),
        _ => panic!("expected subscribed mode"),
    }
}

#[test]
fn frames_split_over_reads() {
    let mut db = Db::new();
    let mut conn = Connection::new();
    assert_eq!(serve(&mut db, &mut conn, b"*2\r\n$3\r\nGE", 0), b"");
    assert_eq!(serve(&mut db, &mut conn, b"T\r\n$5\r\nhello\r\n*1\r\n$4\r\nPING\r\n", 0), b"$-1\r\n+PONG\r\n");
    assert!(matches!(conn.end_of_stream(), Ok(None)));
    conn.receive(b"*1\r\n");
    assert!(conn.end_of_stream().is_err());
}
