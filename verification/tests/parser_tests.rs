use infinity_q::constants::RESP_BUFFER_SIZE;
use infinity_q::resp::{
    create_line_indexes, map_command, read_raw_cmd, read_raw_msg, split_crlf, Cmd, RespError,
};
use infinity_q::resp_buffered_reader::RespBufferedReader;
use infinity_q::server::TcpClient;

fn frame(text: &str) -> Vec<u8> {
    text.as_bytes().to_vec()
}

// Round trip: a greeting frame encoded on the wire decodes to the typed
// command with every field filled as sent.
#[test]
fn test_hello_round_trip() {
    let bytes = frame("*6\r\n$5\r\nHELLO\r\n$1\r\n3\r\n$4\r\nAUTH\r\n$4\r\nroot\r\n$8\r\nPASSWORD\r\n$3\r\nabc\r\n");
    let mut decoder = RespBufferedReader::new();
    let complete = decoder.extend(bytes.as_slice()).unwrap();
    assert!(complete);
    let cmd = read_raw_cmd(decoder).unwrap();
    match cmd {
        Cmd::HELLO { auth, password, protocol_version, setname } => {
            assert_eq!(auth.as_deref(), Some("root"));
            assert_eq!(password.as_deref(), Some("abc"));
            assert_eq!(protocol_version, 3);
            assert_eq!(setname, None);
        },
        other => panic!("expected a greeting, got {:?}", other),
    }
}

#[test]
fn test_hello_setname() {
    let tokens = split_crlf(&frame("*3\r\n$5\r\nHELLO\r\n$1\r\n3\r\n$7\r\nSETNAME\r\n$2\r\ncli\r\n"));
    let cmd = map_command(&tokens).unwrap();
    match cmd {
        Cmd::HELLO { auth, password, protocol_version, setname } => {
            assert_eq!(auth, None);
            assert_eq!(password, None);
            assert_eq!(protocol_version, 3);
            assert_eq!(setname.as_deref(), Some("cli"));
        },
        other => panic!("expected a greeting, got {:?}", other),
    }
}

#[test]
fn test_unknown_command() {
    let tokens = split_crlf(&frame("*1\r\n$3\r\nFOO\r\n"));
    match map_command(&tokens) {
        Err(RespError::CommandNotFound(kw)) => assert_eq!(kw, "FOO"),
        other => panic!("expected an unknown command, got {:?}", other),
    }
}

#[test]
fn test_reserved_not_implemented() {
    let tokens = split_crlf(&frame("*2\r\n$4\r\nPUSH\r\n$1\r\nx\r\n"));
    match map_command(&tokens) {
        Err(RespError::CmdNotImplemented(kw)) => assert_eq!(kw, "PUSH"),
        other => panic!("expected not-implemented, got {:?}", other),
    }
}

#[test]
fn test_no_data() {
    let tokens: Vec<Vec<u8>> = Vec::new();
    assert!(matches!(map_command(&tokens), Err(RespError::NoData)));
    // Marker lines alone carry no command either.
    let markers = vec![b"$3".to_vec(), b"*1".to_vec()];
    assert!(matches!(map_command(&markers), Err(RespError::NoData)));
}

// A version token with a leading plus sign parses as Rust's integer parsing
// would have it.
#[test]
fn test_protocol_version_leading_plus() {
    let tokens = split_crlf(&frame("*2\r\n$5\r\nHELLO\r\n$2\r\n+3\r\n"));
    match map_command(&tokens).unwrap() {
        Cmd::HELLO { protocol_version, .. } => assert_eq!(protocol_version, 3),
        other => panic!("expected a greeting, got {:?}", other),
    }
}

#[test]
fn test_protocol_out_of_range() {
    let tokens = split_crlf(&frame("*2\r\n$5\r\nHELLO\r\n$3\r\n999\r\n"));
    match map_command(&tokens) {
        Err(RespError::ProtocolOutOfRange(raw)) => assert_eq!(raw, "999"),
        other => panic!("expected out-of-range, got {:?}", other),
    }
}

#[test]
fn test_invalid_argument() {
    let tokens = split_crlf(&frame("*4\r\n$5\r\nHELLO\r\n$1\r\n3\r\n$3\r\nBAD\r\n$1\r\nx\r\n"));
    match map_command(&tokens) {
        Err(RespError::InvalidArgument(v)) => assert_eq!(v, "x"),
        other => panic!("expected an invalid argument, got {:?}", other),
    }
}

#[test]
fn test_split_tokens() {
    let tokens = split_crlf(&frame("ab\r\ncd\r\n"));
    assert_eq!(tokens.len(), 3);
    assert_eq!(tokens[0], b"ab");
    assert_eq!(tokens[1], b"cd");
    assert_eq!(tokens[2], b"");
    let single = split_crlf(&frame("abc"));
    assert_eq!(single.len(), 1);
    assert_eq!(single[0], b"abc");
}

#[test]
fn test_create_line_indexes_positions() {
    let breaks: Vec<usize> = vec![3, 7, 14];
    let lines = create_line_indexes(&breaks);
    assert_eq!(lines.len(), 2);
    assert_eq!(lines[0], (4, 5));
    assert_eq!(lines[1], (8, 12));
}

#[test]
fn test_read_raw_msg_lpush() {
    // *3, $5, LPUSH, $4, mkey, $2, ab -- breaks at each line feed, with the
    // start of the payload counting as a break before line zero.
    let msg = frame("*3\r\n$5\r\nLPUSH\r\n$4\r\nmkey\r\n$2\r\nab\r\n");
    let mut breaks: Vec<usize> = vec![0];
    for (i, b) in msg.iter().enumerate() {
        if *b == 10 {
            breaks.push(i);
        }
    }
    assert_eq!(breaks.len(), 8);
    match read_raw_msg(msg, &breaks).unwrap() {
        Cmd::LPUSH { key, elements } => {
            assert_eq!(key, "mkey");
            assert_eq!(elements.len(), 1);
            assert_eq!(elements[0], b"ab");
        },
        other => panic!("expected a list push, got {:?}", other),
    }
}

#[test]
fn test_read_raw_msg_too_short() {
    let msg = frame("*1\r\n$2\r\nab\r\n");
    let breaks: Vec<usize> = vec![3, 7, 11];
    assert!(matches!(
        read_raw_msg(msg, &breaks),
        Err(RespError::IncompleteCommand)
    ));
}

fn to_buffer(v: &[u8]) -> [u8; RESP_BUFFER_SIZE] {
    let mut arr = [0u8; RESP_BUFFER_SIZE];
    arr[..v.len()].copy_from_slice(v);
    arr
}

// A client read that carries two whole frames and the beginning of a third
// queues two payload texts and keeps the unfinished bytes.
#[test]
fn test_client_read_buff() {
    let mut client = TcpClient::new("127.0.0.1".to_string());
    let mut bytes = frame("*1\r\n$2\r\nhi\r\n");
    let second = frame("*1\r\n$2\r\nyo\r\n");
    bytes.extend_from_slice(&second);
    bytes.extend_from_slice(b"*2\r\n$1");
    let len = bytes.len();
    client.read_buff(to_buffer(&bytes), len).unwrap();
    assert_eq!(client.msg_from_client, 2);
    assert_eq!(client.raw_msg_queue.len(), 2);
    assert_eq!(client.raw_msg_queue[0], "*1\r\n$2\r\nhi\r\n");
    assert_eq!(client.raw_msg_queue[1], "*1\r\n$2\r\nyo\r\n");
    assert_eq!(client.resp_buff_reader.data, b"*2\r\n$1");
}

// The same bytes chunked differently queue the same payload texts.
#[test]
fn test_client_read_buff_chunked() {
    let bytes = frame("*1\r\n$2\r\nhi\r\n*1\r\n$2\r\nyo\r\n");

    let mut at_once = TcpClient::new("a".to_string());
    at_once.read_buff(to_buffer(&bytes), bytes.len()).unwrap();

    let mut byte_wise = TcpClient::new("b".to_string());
    for b in bytes.iter() {
        byte_wise.read_buff(to_buffer(&[*b]), 1).unwrap();
    }

    assert_eq!(at_once.msg_from_client, byte_wise.msg_from_client);
    assert_eq!(at_once.raw_msg_queue, byte_wise.raw_msg_queue);
}
