use std::io::{BufRead, Cursor};

use simple_kv::response::{ParseError, Response, ResponseDecoder, ResponseReader};

/// Reads the next response, handing the decoder what the source has buffered
/// until a response is complete or the source ends.
fn read_next<R: BufRead>(reader: &mut ResponseReader<R>) -> Result<Option<Response>, ParseError> {
    loop {
        if let Some(response) = reader.decode_next()? {
            return Ok(Some(response));
        }
        let bytes = reader.get_reader_mut().fill_buf().map_err(ParseError::Io)?.to_vec();
        if bytes.is_empty() {
            reader.validate_eof()?;
            return Ok(None);
        }
        reader.push_bytes(&bytes);
        reader.get_reader_mut().consume(bytes.len());
    }
}

fn push_parse(parser: &mut ResponseDecoder, bytes: &[u8]) -> Result<Option<Response>, ParseError> {
    parser.push_bytes(bytes);
    parser.decode_next()
}

fn assert_parses(input: &[u8], expected: Response) {
    let mut parser = ResponseDecoder::default();
    let response = push_parse(&mut parser, input)
        .expect("parse should succeed")
        .expect("response should be complete");

    assert_eq!(response, expected);
    assert!(
        parser.decode_next().expect("no error").is_none(),
        "parser should have consumed the full input"
    );
}

fn parse_error(input: &[u8]) -> ParseError {
    let mut parser = ResponseDecoder::default();
    push_parse(&mut parser, input).expect_err("parse should fail")
}

fn assert_incomplete(input: &[u8]) {
    let mut parser = ResponseDecoder::default();
    let result = push_parse(&mut parser, input).expect("parse should not error");
    assert!(result.is_none(), "expected incomplete, got a full response");
}

#[test]
fn parses_ok() {
    assert_parses(b"+OK\r\n", Response::Okay);
}

#[test]
fn parses_error() {
    assert_parses(
        b"-ERR unknown command 'MYKEY'\r\n",
        Response::Error("ERR unknown command 'MYKEY'".to_owned()),
    );
}

#[test]
fn parses_empty_error() {
    assert_parses(b"-\r\n", Response::Error(String::new()));
}

#[test]
fn parses_cstr() {
    assert_parses(b"$5\r\nhello\r\n", Response::Cstr(b"hello".to_vec()));
}

#[test]
fn parses_empty_cstr() {
    assert_parses(b"$0\r\n\r\n", Response::Cstr(vec![]));
}

#[test]
fn parses_null_cstr() {
    assert_parses(b"$-1\r\n", Response::Null);
}

#[test]
fn parses_integer() {
    assert_parses(b":2\r\n", Response::Integer(2));
}

#[test]
fn parses_negative_integer() {
    assert_parses(b":-1\r\n", Response::Integer(-1));
}

#[test]
fn parses_array() {
    assert_parses(
        b"*3\r\n$5\r\nvalue\r\n$-1\r\n:2\r\n",
        Response::Array(vec![
            Response::Cstr(b"value".to_vec()),
            Response::Null,
            Response::Integer(2),
        ]),
    );
}

#[test]
fn incomplete_array_does_not_consume_buffered_elements() {
    let mut parser = ResponseDecoder::default();
    assert!(push_parse(&mut parser, b"*2\r\n$3\r\none\r\n").expect("no error").is_none());

    assert_eq!(
        push_parse(&mut parser, b"$3\r\ntwo\r\n").expect("no error"),
        Some(Response::Array(vec![
            Response::Cstr(b"one".to_vec()),
            Response::Cstr(b"two".to_vec()),
        ]))
    );
}

#[test]
fn empty_cstr_is_not_null() {
    let mut parser = ResponseDecoder::default();
    assert_eq!(push_parse(&mut parser, b"$0\r\n\r\n").unwrap(), Some(Response::Cstr(vec![])));
    assert_eq!(push_parse(&mut parser, b"$-1\r\n").unwrap(), Some(Response::Null));
}

#[test]
fn ok_without_crlf_is_incomplete() {
    assert_incomplete(b"+OK");
}

#[test]
fn cstr_header_without_crlf_is_incomplete() {
    assert_incomplete(b"$5");
}

#[test]
fn cstr_payload_incomplete() {
    assert_incomplete(b"$5\r\nhel");
}

#[test]
fn declared_null_does_not_wait_for_body() {
    assert_parses(b"$-1\r\n", Response::Null);
}

#[test]
fn completes_cstr_fed_in_chunks() {
    let mut parser = ResponseDecoder::default();

    assert!(push_parse(&mut parser, b"$5\r\n").expect("no error").is_none());
    assert!(push_parse(&mut parser, b"hel").expect("no error").is_none());

    let response = push_parse(&mut parser, b"lo\r\n")
        .expect("no error")
        .expect("response should now be complete");

    assert_eq!(response, Response::Cstr(b"hello".to_vec()));
}

#[test]
fn decode_next_yields_second_response_without_more_bytes() {
    let mut parser = ResponseDecoder::default();
    parser.push_bytes(b"+OK\r\n:1\r\n");

    assert_eq!(parser.decode_next().unwrap(), Some(Response::Okay));
    assert_eq!(parser.decode_next().unwrap(), Some(Response::Integer(1)));
    assert!(parser.decode_next().unwrap().is_none());
}

#[test]
fn errors_on_unexpected_prefix() {
    let err = parse_error(b"?2\r\n");
    assert!(matches!(err, ParseError::UnexpectedPrefix(b'?')));
}

#[test]
fn errors_on_sstr_that_is_not_ok() {
    let err = parse_error(b"+PONG\r\n");
    assert!(matches!(err, ParseError::UnexpectedSstr(s) if s == "PONG"));
}

#[test]
fn response_errors_on_missing_crlf_after_cstr_payload() {
    let err = parse_error(b"$3\r\nGETXX");
    assert!(matches!(err, ParseError::MissingCrlf));
}

#[test]
fn errors_on_invalid_cstr_length() {
    let err = parse_error(b"$-2\r\n");
    assert!(matches!(err, ParseError::InvalidCStringLength(-2)));
}

#[test]
fn errors_on_non_utf8_error_message() {
    let err = parse_error(b"-\xff\xfe\r\n");
    assert!(matches!(err, ParseError::InvalidUtf8(_)));
}

#[test]
fn response_decoder_is_poisoned_after_an_error() {
    let mut parser = ResponseDecoder::default();

    let err = push_parse(&mut parser, b"?1\r\n").expect_err("bad prefix should error");
    assert!(matches!(err, ParseError::UnexpectedPrefix(b'?')));

    parser.push_bytes(b"+OK\r\n");
    let err = parser
        .decode_next()
        .expect_err("poisoned decoder should reject further input");
    assert!(matches!(err, ParseError::Poisoned));
}

#[test]
fn reader_reads_buffered_responses_one_at_a_time() {
    let mut reader = ResponseReader::new(Cursor::new(b"+OK\r\n:1\r\n"));

    assert_eq!(read_next(&mut reader).unwrap(), Some(Response::Okay));
    assert_eq!(read_next(&mut reader).unwrap(), Some(Response::Integer(1)));
    assert_eq!(read_next(&mut reader).unwrap(), None);
}

#[test]
fn reader_errors_on_incomplete_response_at_eof() {
    let mut reader = ResponseReader::new(Cursor::new(b"$5\r\nhel"));

    assert!(matches!(read_next(&mut reader), Err(ParseError::UnexpectedEof)));
}

fn assert_round_trips(response: Response) {
    let mut parser = ResponseDecoder::default();
    parser.push_bytes(&response.to_bytes());
    let parsed = parser
        .decode_next()
        .expect("serialized response should be valid RESP")
        .expect("serialized response should be complete");
    assert_eq!(parsed, response);
}

#[test]
fn round_trips_ok() {
    assert_round_trips(Response::Okay);
}

#[test]
fn round_trips_error() {
    assert_round_trips(Response::Error("ERR unknown command".to_owned()));
}

#[test]
fn round_trips_cstr() {
    assert_round_trips(Response::Cstr(b"hello".to_vec()));
}

#[test]
fn round_trips_empty_cstr() {
    assert_round_trips(Response::Cstr(vec![]));
}

#[test]
fn round_trips_null() {
    assert_round_trips(Response::Null);
}

#[test]
fn round_trips_integer() {
    assert_round_trips(Response::Integer(2));
}

#[test]
fn round_trips_nested_array() {
    assert_round_trips(Response::Array(vec![
        Response::Array(vec![Response::Cstr(b"k".to_vec()), Response::Cstr(b"v".to_vec())]),
        Response::Integer(-42),
        Response::Null,
        Response::Okay,
        Response::Error("bad".to_owned()),
    ]));
}

#[test]
fn to_bytes_writes_each_form() {
    assert_eq!(Response::Okay.to_bytes(), b"+OK\r\n".to_vec());
    assert_eq!(Response::Null.to_bytes(), b"$-1\r\n".to_vec());
    assert_eq!(Response::Integer(-7).to_bytes(), b":-7\r\n".to_vec());
    assert_eq!(Response::Cstr(b"ab".to_vec()).to_bytes(), b"$2\r\nab\r\n".to_vec());
    assert_eq!(Response::Error("no".to_owned()).to_bytes(), b"-no\r\n".to_vec());
    assert_eq!(
        Response::Array(vec![Response::Integer(1)]).to_bytes(),
        b"*1\r\n:1\r\n".to_vec()
    );
    assert_eq!(Response::Array(vec![]).prefix_byte(), b'*');
}

#[test]
fn errors_on_invalid_array_length_and_integer() {
    assert!(matches!(parse_error(b"*-1\r\n"), ParseError::InvalidArrayLength(-1)));
    assert!(matches!(parse_error(b":x\r\n"), ParseError::InvalidInt(_)));
    assert!(matches!(parse_error(b"$536870913\r\n"), ParseError::CStringTooLong(536870913)));
}

#[test]
fn to_string_shows_each_form() {
    assert_eq!(Response::Okay.to_string(), "OK");
    assert_eq!(Response::Null.to_string(), "(nil)");
    assert_eq!(Response::Integer(-12).to_string(), "-12");
    assert_eq!(Response::Error("ERR x".to_owned()).to_string(), "ERR x");
    assert_eq!(Response::Cstr(vec![b'a', 0xff]).to_string(), "a\u{fffd}");
    assert_eq!(
        Response::Array(vec![
            Response::Integer(1),
            Response::Array(vec![Response::Null, Response::Okay]),
        ])
        .to_string(),
        "1, (nil), OK"
    );
}
