use redix::network::redis::classify_cli_line;
use redix::network::redis::format_reply;
use redix::network::redis::parse_request;
use redix::network::redis::render_reply;
use redix::network::redis::unknown_command_reply;
use redix::network::redis::CliLine;
use redix::network::redis::RedisRequest;
use redix::network::redis::RedisServer;
use redix::network::redis::ReplyStyle;
use redix::raft::Command;

fn forward(r: RedisRequest) -> (Command, ReplyStyle) {
    match r {
        RedisRequest::Forward(c, s) => (c, s),
        other => panic!("expected a command, got {:?}", other),
    }
}

#[test]
fn server_keeps_its_address() {
    assert_eq!(RedisServer::new("127.0.0.1:6379".into()).addr, "127.0.0.1:6379");
}

#[test]
fn set_get_del_keys_flushall_are_recognised() {
    assert_eq!(forward(parse_request(b"SET foo bar\n")), (Command::SetKey("foo".into(), "bar".into()), ReplyStyle::Simple));
    assert!(matches!(parse_request(b"  get foo "), RedisRequest::Get(ref k) if k == "foo"));
    assert_eq!(forward(parse_request(b"Del foo\r\n")), (Command::Delete("foo".into()), ReplyStyle::Integer));
    assert_eq!(forward(parse_request(b"KEYS *")), (Command::Keys, ReplyStyle::Bulk));
    assert_eq!(forward(parse_request(b"keys")), (Command::Keys, ReplyStyle::Bulk));
    assert_eq!(forward(parse_request(b"flushall now")), (Command::Flush, ReplyStyle::Simple));
}

#[test]
fn wrong_arity_and_unknown_verbs_are_unknown() {
    assert!(matches!(parse_request(b"SET foo"), RedisRequest::Unknown));
    assert!(matches!(parse_request(b"GET a b"), RedisRequest::Unknown));
    assert!(matches!(parse_request(b"PING"), RedisRequest::Unknown));
    assert!(matches!(parse_request(b" \t\r\n"), RedisRequest::Blank));
    assert!(matches!(parse_request(b""), RedisRequest::Blank));
}

#[test]
fn invalid_utf8_is_decoded_lossily() {
    assert_eq!(
        forward(parse_request(b"SET k \xff")),
        (Command::SetKey("k".into(), "\u{fffd}".into()), ReplyStyle::Simple)
    );
}

#[test]
fn replies_follow_resp() {
    assert_eq!(format_reply(ReplyStyle::Simple, "OK"), "+OK\r\n");
    assert_eq!(format_reply(ReplyStyle::Integer, "1"), ":1\r\n");
    assert_eq!(format_reply(ReplyStyle::Bulk, "bar"), "$3\r\nbar\r\n");
    assert_eq!(format_reply(ReplyStyle::Bulk, "héllo"), "$6\r\nhéllo\r\n");
    assert_eq!(format_reply(ReplyStyle::Bulk, ""), "$0\r\n\r\n");
    assert_eq!(unknown_command_reply(), "-ERR unknown command\r\n");
}

#[test]
fn client_renders_replies() {
    assert_eq!(render_reply(b"+OK\r\n"), "OK\n");
    assert_eq!(render_reply(b"$3\r\nbar\r\n"), "bar\n");
    assert_eq!(render_reply(b"$5\r\na\nb\r\n"), "a\nb\n");
    assert_eq!(render_reply(b"$3"), "$3\n");
    assert_eq!(render_reply(b":1000\r\n"), "1000\n");
    assert_eq!(render_reply(b"-ERR unknown command\r\n"), "ERR unknown command\n");
    assert_eq!(render_reply(b"plain"), "plain");
    assert_eq!(render_reply(b""), "");
    assert_eq!(render_reply(b"+caf\xc3\xa9\r\n"), "caf\u{e9}\n");
}

#[test]
fn cli_lines_are_classified() {
    assert!(matches!(classify_cli_line("   "), CliLine::Blank));
    assert!(matches!(classify_cli_line(" exit "), CliLine::Quit(ref s) if s == "exit"));
    assert!(matches!(classify_cli_line("QUIT"), CliLine::Quit(_)));
    assert!(matches!(classify_cli_line("Help"), CliLine::Help(ref s) if s == "Help"));
    assert!(matches!(classify_cli_line("  SET a b "), CliLine::Send(ref s) if s == "SET a b"));
}

#[test]
fn resp_arrays_from_redis_clients_are_read() {
    assert_eq!(
        forward(parse_request(b"*3\r\n$3\r\nSET\r\n$3\r\nfoo\r\n$3\r\nbar\r\n")),
        (Command::SetKey("foo".into(), "bar".into()), ReplyStyle::Simple)
    );
    assert!(matches!(parse_request(b"*2\r\n$3\r\nget\r\n$1\r\nk\r\n"), RedisRequest::Get(ref k) if k == "k"));
    assert_eq!(
        forward(parse_request(b"*2\r\n$3\r\nDEL\r\n$0\r\n\r\n")),
        (Command::Delete("".into()), ReplyStyle::Integer)
    );
    // a bulk string may hold whitespace and line breaks
    assert_eq!(
        forward(parse_request(b"*3\r\n$3\r\nset\r\n$1\r\nk\r\n$8\r\nv a\r\nlue\r\n")),
        (Command::SetKey("k".into(), "v a\r\nlue".into()), ReplyStyle::Simple)
    );
    assert_eq!(forward(parse_request(b"*2\r\n$4\r\nKEYS\r\n$1\r\n*\r\n")), (Command::Keys, ReplyStyle::Bulk));
    // what follows the array is not read
    assert_eq!(
        forward(parse_request(b"*1\r\n$8\r\nFLUSHALL\r\n*1\r\n$4\r\nPING\r\n")),
        (Command::Flush, ReplyStyle::Simple)
    );
    assert!(matches!(parse_request(b"*0\r\n"), RedisRequest::Blank));
    assert!(matches!(parse_request(b"*1\r\n$4\r\nPING\r\n"), RedisRequest::Unknown));
}

#[test]
fn malformed_resp_arrays_are_unknown() {
    assert!(matches!(parse_request(b"*"), RedisRequest::Unknown));
    assert!(matches!(parse_request(b"*x\r\n"), RedisRequest::Unknown));
    assert!(matches!(parse_request(b"*2\r\n$3\r\nGET\r\n"), RedisRequest::Unknown));
    assert!(matches!(parse_request(b"*1\r\n$3\r\nKEYSX\r\n"), RedisRequest::Unknown));
    assert!(matches!(parse_request(b"*1\r\n$9\r\nKEYS\r\n"), RedisRequest::Unknown));
    assert!(matches!(parse_request(b"*1\r\n+KEYS\r\n"), RedisRequest::Unknown));
    assert!(matches!(parse_request(b"*99999999999999999999999\r\n"), RedisRequest::Unknown));
    assert!(matches!(parse_request(b"*1\n$4\nKEYS\n"), RedisRequest::Unknown));
}
