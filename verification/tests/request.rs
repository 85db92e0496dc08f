use std::io::{BufReader, Cursor, Read};

use simple_kv::request::{Request, RequestParseError, RequestReader, READ_CHUNK_SIZE};
use simple_kv::util::Bytes;

/// Reads the next request, handing the decoder chunks from the byte source
/// until a request is complete or the source ends.
fn read_next<R: Read>(requests: &mut RequestReader<R>) -> Result<Option<Request>, RequestParseError> {
    loop {
        if let Some(request) = requests.decode_next()? {
            return Ok(Some(request));
        }
        let mut chunk = [0u8; READ_CHUNK_SIZE];
        let num_bytes_read = requests
            .get_reader_mut()
            .read(&mut chunk)
            .map_err(RequestParseError::Io)?;
        if num_bytes_read == 0 {
            requests.validate_eof()?;
            return Ok(None);
        }
        requests.push_bytes(&chunk[..num_bytes_read]);
    }
}

fn read_bytes(bytes: &[u8]) -> Result<Option<Request>, RequestParseError> {
    read_next(&mut RequestReader::new(Cursor::new(bytes)))
}

fn assert_parses(input: &[u8], expected: Vec<Bytes>) {
    let request = read_bytes(input)
        .expect("parse should succeed")
        .expect("request should be complete");

    assert_eq!(request.into_args(), expected);
}

#[test]
fn parses_del_one_key() {
    assert_parses(
        b"*2\r\n$3\r\nDEL\r\n$5\r\nMyKey\r\n",
        vec![b"DEL".to_vec(), b"MyKey".to_vec()],
    );
}

#[test]
fn parses_get_one_key() {
    assert_parses(
        b"*2\r\n$3\r\nGET\r\n$5\r\nMYKEY\r\n",
        vec![b"GET".to_vec(), b"MYKEY".to_vec()],
    );
}

#[test]
fn parses_set_key_value() {
    assert_parses(
        b"*3\r\n$3\r\nSET\r\n$5\r\nMyKey\r\n$8\r\nMYValue2\r\n",
        vec![b"SET".to_vec(), b"MyKey".to_vec(), b"MYValue2".to_vec()],
    );
}

fn assert_round_trips(input: &[u8]) {
    let request = read_bytes(input)
        .expect("parse should succeed")
        .expect("request should be complete");

    assert_eq!(request.to_bytes(), input);
}

#[test]
fn request_round_trips_get() {
    assert_round_trips(b"*2\r\n$3\r\nGET\r\n$5\r\nMYKEY\r\n");
}

#[test]
fn request_round_trips_set() {
    assert_round_trips(b"*3\r\n$3\r\nSET\r\n$5\r\nMyKey\r\n$8\r\nMYValue2\r\n");
}

#[test]
fn request_round_trips_del() {
    assert_round_trips(b"*2\r\n$3\r\nDEL\r\n$5\r\nMyKey\r\n");
}

fn parse_error(input: &[u8]) -> RequestParseError {
    read_bytes(input).expect_err("parse should fail")
}

#[test]
fn errors_when_array_byte_is_wrong() {
    let err = parse_error(b"&2\r\n$3\r\nGET\r\n$5\r\nMYKEY\r\n");
    assert!(matches!(err, RequestParseError::ExpectedArray(b'&')));
}

#[test]
fn errors_when_array_byte_is_missing() {
    let err = parse_error(b"\r\n$3\r\nGET\r\n$5\r\nMYKEY\r\n");
    assert!(matches!(err, RequestParseError::MissingFirstByte));
}

#[test]
fn errors_when_cstr_byte_is_wrong() {
    let err = parse_error(b"*2\r\n&3\r\nGET\r\n$5\r\nMYKEY\r\n");
    assert!(matches!(err, RequestParseError::ExpectedCString(b'&')));
}

#[test]
fn errors_when_cstr_byte_is_missing() {
    let err = parse_error(b"*2\r\n\r\nGET\r\n$5\r\nMYKEY\r\n");
    assert!(matches!(err, RequestParseError::MissingFirstByte));
}

fn assert_unexpected_eof(input: &[u8]) {
    assert!(matches!(read_bytes(input), Err(RequestParseError::UnexpectedEof)));
}

#[test]
fn array_header_without_crlf_is_unexpected_eof() {
    assert_unexpected_eof(b"*2");
}

#[test]
fn cstr_header_without_crlf_is_unexpected_eof() {
    assert_unexpected_eof(b"*2\r\n$3");
}

#[test]
fn request_errors_on_missing_crlf_after_cstr_payload() {
    let err = parse_error(b"*1\r\n$3\r\nGETXX");
    assert!(matches!(err, RequestParseError::MissingCrlf));
}

#[test]
fn errors_on_partial_crlf_after_cstr_payload() {
    let err = parse_error(b"*1\r\n$3\r\nGET\rX");
    assert!(matches!(err, RequestParseError::MissingCrlf));
}

#[test]
fn parses_array_header_split_across_buffer_fills() {
    let reader = BufReader::with_capacity(2, Cursor::new(b"*1\r\n$4\r\nPING\r\n"));
    let mut requests = RequestReader::new(reader);

    let request = read_next(&mut requests)
        .expect("parse should succeed")
        .expect("request should be complete");

    assert_eq!(request.into_args(), vec![b"PING".to_vec()]);
}

#[test]
fn completes_request_fed_in_chunks() {
    let reader = BufReader::with_capacity(4, Cursor::new(b"*2\r\n$3\r\nGET\r\n$5\r\nMYKEY\r\n"));
    let mut requests = RequestReader::new(reader);

    let request = read_next(&mut requests)
        .expect("no error")
        .expect("request should now be complete");

    assert_eq!(request.into_args(), vec![b"GET".to_vec(), b"MYKEY".to_vec()]);
}

#[test]
fn declared_length_too_short_errors() {
    let err = parse_error(b"*1\r\n$3\r\nHELLO\r\n");
    assert!(matches!(err, RequestParseError::MissingCrlf));
}

#[test]
fn declared_length_too_long_within_buffer_errors() {
    let err = parse_error(b"*1\r\n$5\r\nHI\r\nZZZ");
    assert!(matches!(err, RequestParseError::MissingCrlf));
}

#[test]
fn declared_length_too_long_past_buffer_is_unexpected_eof() {
    assert_unexpected_eof(b"*1\r\n$5\r\nHI\r\n");
}

#[test]
fn partial_array_header_leaves_state_uncommitted() {
    let mut requests = RequestReader::new(Cursor::new(b"*5\r"));

    let result = read_next(&mut requests);

    assert!(matches!(result, Err(RequestParseError::UnexpectedEof)));
    assert_eq!(requests.expected_arg_count(), None);
    assert_eq!(requests.cursor(), 0);
    assert_eq!(requests.buffered(), b"*5\r");
    assert!(requests.pending_args().is_empty());
}

#[test]
fn request_decoder_is_poisoned_after_an_error() {
    let mut requests = RequestReader::new(Cursor::new(b"&2\r\n$3\r\nGET\r\n"));

    let err = read_next(&mut requests).expect_err("bad array byte should error");
    assert!(matches!(err, RequestParseError::ExpectedArray(b'&')));

    let err = read_next(&mut requests).expect_err("poisoned parser should reject further input");
    assert!(matches!(err, RequestParseError::Poisoned));
}

#[test]
fn validate_eof_succeeds_when_decoder_is_empty() {
    let requests = RequestReader::new(Cursor::new(b""));

    assert!(requests.validate_eof().is_ok());
}

#[test]
fn validate_eof_succeeds_after_complete_request_is_consumed() {
    let mut requests = RequestReader::new(Cursor::new(b"*1\r\n$4\r\nPING\r\n"));
    read_next(&mut requests)
        .expect("parse should succeed")
        .expect("request should be complete");

    assert!(requests.validate_eof().is_ok());
}

#[test]
fn read_next_errors_when_request_ends_incomplete() {
    assert!(matches!(
        read_bytes(b"*2\r\n$3\r\nGET\r\n"),
        Err(RequestParseError::UnexpectedEof)
    ));
}

#[test]
fn validate_eof_reports_poisoned_before_buffered_data() {
    let mut requests = RequestReader::new(Cursor::new(b"&1\r\n"));
    let _ = read_next(&mut requests).expect_err("parse should fail");

    assert!(matches!(requests.validate_eof(), Err(RequestParseError::Poisoned)));
}

#[test]
fn full_array_header_commits_state() {
    let mut requests = RequestReader::new(Cursor::new(b"*5\r\n"));

    let result = read_next(&mut requests);

    assert!(matches!(result, Err(RequestParseError::UnexpectedEof)));
    assert_eq!(requests.expected_arg_count(), Some(5));
    assert_eq!(requests.cursor(), 4);
    assert_eq!(requests.buffered(), b"*5\r\n");
    assert!(requests.pending_args().is_empty());
}

#[test]
fn good_array_then_bad_cstr_header_state() {
    let mut requests = RequestReader::new(Cursor::new(b"*2\r\n&3\r\nGET\r\n"));

    let err = read_next(&mut requests).expect_err("bad cstr byte should error");

    assert!(matches!(err, RequestParseError::ExpectedCString(b'&')));
    assert!(requests.is_poisoned());
    assert_eq!(requests.expected_arg_count(), Some(2));
    assert_eq!(requests.cursor(), 4);
    assert!(requests.pending_args().is_empty());
}

#[test]
fn good_array_good_cstr_header_bad_body_state() {
    let mut requests = RequestReader::new(Cursor::new(b"*1\r\n$3\r\nGETXX"));

    let err = read_next(&mut requests).expect_err("bad cstr terminator should error");

    assert!(matches!(err, RequestParseError::MissingCrlf));
    assert!(requests.is_poisoned());
    assert_eq!(requests.expected_arg_count(), Some(1));
    assert_eq!(requests.cursor(), 4);
    assert!(requests.pending_args().is_empty());
}

#[test]
fn good_array_one_cstr_then_bad_next_cstr_state() {
    let mut requests = RequestReader::new(Cursor::new(b"*2\r\n$3\r\nGET\r\n&5\r\nMYKEY\r\n"));

    let err = read_next(&mut requests).expect_err("bad second cstr byte should error");

    assert!(matches!(err, RequestParseError::ExpectedCString(b'&')));
    assert!(requests.is_poisoned());
    assert_eq!(requests.expected_arg_count(), Some(2));
    assert_eq!(requests.cursor(), 13);
    assert_eq!(requests.pending_args(), &vec![b"GET".to_vec()]);
}

#[test]
fn read_next_yields_second_buffered_request_without_more_bytes() {
    let reader = Cursor::new(b"*2\r\n$3\r\nGET\r\n$1\r\na\r\n*2\r\n$3\r\nGET\r\n$1\r\nb\r\n");
    let mut requests = RequestReader::new(reader);

    let first = read_next(&mut requests)
        .expect("no error")
        .expect("first request should be complete");
    assert_eq!(first.into_args(), vec![b"GET".to_vec(), b"a".to_vec()]);

    let second = read_next(&mut requests)
        .expect("no error")
        .expect("second request should already be buffered");
    assert_eq!(second.into_args(), vec![b"GET".to_vec(), b"b".to_vec()]);

    assert!(read_next(&mut requests).expect("no error").is_none(), "no third request");
}

#[test]
fn from_args_round_trips_through_the_wire() {
    let request = Request::from_args(vec![b"SET".to_vec(), b"k".to_vec(), vec![0xff, 0x00]]);
    let bytes = request.to_bytes();
    assert_eq!(bytes, b"*3\r\n$3\r\nSET\r\n$1\r\nk\r\n$2\r\n\xff\x00\r\n".to_vec());
    let back = read_bytes(&bytes).expect("valid").expect("complete");
    assert_eq!(back.into_args(), vec![b"SET".to_vec(), b"k".to_vec(), vec![0xff, 0x00]]);
}

#[test]
fn array_length_over_the_limit_errors() {
    let err = parse_error(b"*1048577\r\n");
    assert!(matches!(err, RequestParseError::ArrayTooLong(1048577)));
}

#[test]
fn bulk_string_length_over_the_limit_errors() {
    let err = parse_error(b"*1\r\n$536870913\r\n");
    assert!(matches!(err, RequestParseError::CStringTooLong(536870913)));
}

#[test]
fn non_numeric_length_errors() {
    assert!(matches!(parse_error(b"*x\r\n"), RequestParseError::InvalidInt(_)));
    assert!(matches!(parse_error(b"*\xff\r\n"), RequestParseError::InvalidUtf8(_)));
}

#[test]
fn into_inner_gives_back_the_source() {
    let requests = RequestReader::new(Cursor::new(b"abc".to_vec()));
    assert_eq!(requests.into_inner().into_inner(), b"abc".to_vec());
}

#[test]
fn to_string_joins_the_bulk_strings() {
    let request = Request::from_args(vec![b"SET".to_vec(), b"k".to_vec(), vec![0xff]]);
    assert_eq!(request.to_string(), "SET k \u{fffd}");
    assert_eq!(Request::from_args(vec![]).to_string(), "");
}
