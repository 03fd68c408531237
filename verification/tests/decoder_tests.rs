use infinity_q::constants::RESP_BUFFER_SIZE;
use infinity_q::raw_cmd::RawCmd;
use infinity_q::resp_buffered_reader::RespBufferedReader;
use infinity_q::resp_reader::RespReader;
use infinity_q::utils::{from_utf8_without_delimiter, get_eol_index};

fn hello_frame_bytes() -> Vec<u8> {
    vec![
        42, 53, 13, 10, // *5
        36, 53, 13, 10, // $5
        104, 101, 108, 108, 111, 13, 10, // hello
        36, 49, 13, 10, // $1
        51, 13, 10, // 3
        36, 52, 13, 10, // $4
        97, 117, 116, 104, 13, 10, // auth
        36, 52, 13, 10, // $4
        114, 111, 111, 116, 13, 10, // root
        36, 51, 13, 10, // $3
        97, 98, 99, 13, 10, // abc
    ]
}

fn create_hello_raw_cmd() -> RawCmd {
    RawCmd::from_vec(hello_frame_bytes())
}

fn create_partial_hello_raw_cmd() -> RawCmd {
    RawCmd::from_vec(vec![42, 53, 13, 10, 36, 53])
}

#[test]
fn raw_cmd_test_is_last_line_complete_returns_false_without_data() {
    let cmd = RawCmd::new();
    assert_eq!(false, cmd.is_last_line_complete());
}

#[test]
fn raw_cmd_test_is_last_line_complete_returns_true_with_data() {
    let cmd = create_hello_raw_cmd();
    assert_eq!(true, cmd.is_last_line_complete());
}

#[test]
fn raw_cmd_test_first_line_eol_returns_correct_index() {
    let cmd = create_hello_raw_cmd();
    assert_eq!(3, cmd.first_line_eol().unwrap());
}

#[test]
fn raw_cmd_test_size_returns_correct_size() {
    let mut cmd = create_hello_raw_cmd();
    assert_eq!(11, cmd.size().unwrap());
    assert_eq!(Some(11), cmd.size);
}

#[test]
fn raw_cmd_test_message_ready_returns_true() {
    let mut cmd = create_hello_raw_cmd();
    assert_eq!(true, cmd.all_lines_received().unwrap());
}

#[test]
fn raw_cmd_test_message_ready_returns_false() {
    let mut cmd = create_partial_hello_raw_cmd();
    assert_eq!(false, cmd.all_lines_received().unwrap());
    assert_eq!(5, cmd.last_read_idx);
    assert_eq!(1, cmd.cr_nr_count);
}

fn create_hello_cmd() -> RespBufferedReader {
    RespBufferedReader::from_vec(hello_frame_bytes())
}

fn create_partial_hello_cmd() -> RespBufferedReader {
    RespBufferedReader::from_vec(vec![42, 53, 13, 10, 36, 53])
}

#[test]
fn resp_buffered_reader_test_is_last_line_complete_returns_false_without_data() {
    let cmd = RespBufferedReader::new();
    assert_eq!(false, cmd.is_last_line_complete());
}

#[test]
fn resp_buffered_reader_test_is_last_line_complete_returns_true_with_data() {
    let cmd = create_hello_cmd();
    assert_eq!(true, cmd.is_last_line_complete());
}

#[test]
fn resp_buffered_reader_test_first_line_eol_returns_correct_index() {
    let cmd = create_hello_cmd();
    assert_eq!(3, cmd.first_line_eol().unwrap());
}

#[test]
fn resp_buffered_reader_test_size_returns_correct_size() {
    let mut cmd = create_hello_cmd();
    assert_eq!(11, cmd.size().unwrap());
    assert_eq!(Some(11), cmd.size);
}

#[test]
fn resp_buffered_reader_test_message_ready_returns_true() {
    let mut cmd = create_hello_cmd();
    assert_eq!(true, cmd.all_lines_received().unwrap());
}

#[test]
fn resp_buffered_reader_test_message_ready_returns_false() {
    let mut cmd = create_partial_hello_cmd();
    assert_eq!(false, cmd.all_lines_received().unwrap());
    assert_eq!(5, cmd.last_read_idx);
    assert_eq!(1, cmd.delimiter_cnt);
}

fn create_hello() -> Vec<u8> {
    hello_frame_bytes()
}

fn convert_to_arr(v: &Vec<u8>) -> [u8; RESP_BUFFER_SIZE] {
    let mut arr = [0u8; RESP_BUFFER_SIZE];
    arr[..v.len()].copy_from_slice(v);
    arr
}

fn create_lpush_and_sadd_cmds() -> Vec<u8> {
    // First command: 50 bytes, its final line feed at index 49.
    let mut v = b"*3\r\n$5\r\nLPUSH\r\n$4\r\nmkey\r\n$18\r\nabcdefghijklmnopqr\r\n".to_vec();
    assert_eq!(v.len(), 50);
    // A second command follows in the same transmission.
    v.extend_from_slice(b"*3\r\n$4\r\nSADD\r\n$3\r\nkey\r\n$1\r\na\r\n");
    v
}

#[test]
fn test_read() {
    let hello = create_hello();
    let buff = convert_to_arr(&hello);
    let mut r = RespReader::new();
    let bytes_read = r.read(&buff).unwrap();
    assert_eq!(bytes_read, hello.len() - 1);
}

#[test]
fn test_read_chunked_transmission() {
    let mut reader = RespReader::new();
    let cmds = create_lpush_and_sadd_cmds();
    let buffer = convert_to_arr(&cmds);
    let bytes_read = reader.read(&buffer).unwrap();
    assert_eq!(reader.reached_end_of_msg, true);
    assert_eq!(bytes_read, 49);
}

fn create_buffer() -> Vec<u8> {
    hello_frame_bytes()
}

#[test]
fn test_find_next_cr() {
    let buff = &create_buffer();
    let result = get_eol_index(1, &buff).unwrap();
    let expected = 3;
    assert_eq!(result, expected);
}

// Chunking independence: feeding the frame one byte at a time reports
// completion exactly once, at the same point as feeding it whole.
#[test]
fn test_chunking_independence() {
    let frame = hello_frame_bytes();

    let mut whole = RespBufferedReader::new();
    let complete_whole = whole.extend(frame.as_slice()).unwrap();
    assert!(complete_whole);

    let mut chunked = RespBufferedReader::new();
    let mut completions = Vec::new();
    for b in frame.iter() {
        let r = chunked.extend(&[*b]);
        completions.push(match r {
            Ok(done) => done,
            Err(_) => false,
        });
    }
    // Never complete before the last byte, complete at the last.
    for (i, done) in completions.iter().enumerate() {
        assert_eq!(*done, i == frame.len() - 1);
    }
    assert_eq!(chunked.data, whole.data);
    assert_eq!(chunked.reached_end_of_msg, whole.reached_end_of_msg);
    assert_eq!(chunked.size, whole.size);
    assert_eq!(chunked.last_read_idx, whole.last_read_idx);
    assert_eq!(chunked.delimiter_cnt, whole.delimiter_cnt);
}

// The scan cursor never moves backwards: each call resumes where the last
// one stopped, so already-seen bytes are not re-examined.
#[test]
fn test_scan_resumes_forward() {
    let frame = hello_frame_bytes();
    let mut cmd = RespBufferedReader::new();
    let mut previous_cursor = 0;
    for chunk in frame.chunks(3) {
        let _ = cmd.extend(chunk);
        assert!(cmd.last_read_idx >= previous_cursor);
        previous_cursor = cmd.last_read_idx;
    }
    // An incomplete scan stands at the last byte received.
    let mut partial = RespBufferedReader::from_vec(frame[..frame.len() - 1].to_vec());
    assert_eq!(partial.last_read_idx, frame.len() - 2);
    let before = partial.last_read_idx;
    let _ = partial.extend(&frame[frame.len() - 1..]);
    assert!(partial.last_read_idx >= before);
    assert!(partial.reached_end_of_msg);
}

// A header of five elements expects eleven delimiter lines: with all eleven
// the frame is complete, with ten it is not.
#[test]
fn test_delimiter_count_threshold() {
    let frame = hello_frame_bytes();

    let mut header_only = RespBufferedReader::new();
    let _ = header_only.extend(&frame[..4]);
    assert_eq!(header_only.size, Some(11));

    let full = RespBufferedReader::from_vec(frame.clone());
    assert!(full.reached_end_of_msg);

    let ten = RespBufferedReader::from_vec(frame[..frame.len() - 1].to_vec());
    assert!(!ten.reached_end_of_msg);
    assert_eq!(ten.delimiter_cnt, 10);
}

// A twelve-element header expects twenty-five delimiter lines.
#[test]
fn test_size_formula() {
    let mut cmd = RespBufferedReader::from_vec(b"*12\r\n$1\r\na\r\n".to_vec());
    assert_eq!(25, cmd.size().unwrap());
}

// Fewer than four bytes, or a missing array marker, is an incomplete
// command.
#[test]
fn test_size_incomplete_command() {
    let mut short = RespBufferedReader::from_vec(vec![42, 53]);
    assert!(matches!(
        short.size(),
        Err(infinity_q::server::SerializeError::IncompleteCommand)
    ));
    let mut unmarked = RespBufferedReader::from_vec(b"5\r\n$1\r\n".to_vec());
    assert!(matches!(
        unmarked.size(),
        Err(infinity_q::server::SerializeError::IncompleteCommand)
    ));
}

// A header line with no delimiter yet is an incomplete line.
#[test]
fn test_size_incomplete_line() {
    let mut cmd = RespBufferedReader::from_vec(vec![42, 53, 53, 53, 53]);
    assert!(matches!(
        cmd.size(),
        Err(infinity_q::server::SerializeError::IncompleteLine)
    ));
}

// A header whose count is not a readable number is rejected.
#[test]
fn test_size_unreadable() {
    let mut cmd = RespBufferedReader::from_vec(b"*x\r\n$1\r\na\r\n".to_vec());
    assert!(matches!(
        cmd.size(),
        Err(infinity_q::server::SerializeError::UnreadableCommandSize)
    ));
}

// A payload that is not valid text cannot be written out as text.
#[test]
fn test_write_to_utf8_invalid() {
    let cmd = RespBufferedReader::from_vec(vec![42, 49, 13, 10, 36, 255, 254, 13, 10]);
    assert!(matches!(
        cmd.write_to_utf8(),
        Err(infinity_q::server::SerializeError::UnsupportedTextEncoding)
    ));
}

// The byte-at-a-time reader rejects an unreadable header count too.
#[test]
fn test_resp_reader_unreadable_header() {
    let mut reader = RespReader::new();
    let buffer = convert_to_arr(&b"*x\r\n".to_vec());
    assert!(matches!(
        reader.read(&buffer),
        Err(infinity_q::server::SerializeError::UnreadableCommandSize)
    ));
}

// The reset decoder accepts a fresh frame.
#[test]
fn test_reset_and_reuse() {
    let mut cmd = RespBufferedReader::from_vec(hello_frame_bytes());
    assert!(cmd.reached_end_of_msg);
    cmd.reset();
    assert!(!cmd.reached_end_of_msg);
    assert_eq!(cmd.data.len(), 0);
    let done = cmd.extend(hello_frame_bytes().as_slice()).unwrap();
    assert!(done);
}

// The decoded payload text round-trips the frame's bytes.
#[test]
fn test_write_to_utf8_text() {
    let cmd = RespBufferedReader::from_vec(b"*1\r\n$2\r\nok\r\n".to_vec());
    assert_eq!(cmd.write_to_utf8().unwrap(), "*1\r\n$2\r\nok\r\n");
}

// The text of a line is read without the delimiter that ends it.
#[test]
fn test_from_utf8_without_delimiter_strips() {
    assert_eq!(from_utf8_without_delimiter(b"*2ab\r\n").unwrap(), "*2ab");
    assert_eq!(from_utf8_without_delimiter(b"abc").unwrap(), "abc");
    assert!(matches!(
        from_utf8_without_delimiter(&[255, 255, 254]),
        Err(infinity_q::server::SerializeError::UnsupportedTextEncoding)
    ));
}

// A zero-padded read buffer is trimmed to its meaningful prefix.
#[test]
fn test_remove_empty_data_trims() {
    let buff = [42u8, 49, 13, 10, 0, 0, 0, 0];
    assert_eq!(infinity_q::utils::remove_empty_data(&buff), &[42, 49, 13, 10]);
}

// Reading a line takes the bytes through its delimiter, resuming where the
// previous line ended.
#[test]
fn test_read_line_takes_one_line() {
    let buff = b"*2\r\nab\r\n";
    assert_eq!(infinity_q::utils::read_line(0, buff), b"*2\r\n");
    assert_eq!(infinity_q::utils::read_line(4, buff), b"ab\r\n");
}
