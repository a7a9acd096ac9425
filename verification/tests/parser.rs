use redis_clone::parser::DecodeError;
use redis_clone::parser::RespMessage;
use redis_clone::parser::RespParser;

#[test]
fn test_parse_simple_string() {
    let data = b"+OK\r\n";
    let mut parser = RespParser::new(data.to_vec());
    let result = parser.parse_next().unwrap();

    assert_eq!(result, RespMessage::SimpleString(b"OK".to_vec()));
}

#[test]
fn test_parse_integer() {
    let data = b":1000\r\n";
    let mut parser = RespParser::new(data.to_vec());
    let result = parser.parse_next().unwrap();

    assert_eq!(result, RespMessage::Integer(1000));
}

#[test]
fn test_parse_bulk_string() {
    let data = b"$5\r\nhello\r\n";
    let mut parser = RespParser::new(data.to_vec());
    let result = parser.parse_next().unwrap();

    assert_eq!(result, RespMessage::BulkString(b"hello".to_vec()));
}

#[test]
fn test_parse_array() {
    let data = b"*3\r\n$5\r\nhello\r\n:1000\r\n+OK\r\n";
    let mut parser = RespParser::new(data.to_vec());
    let result = parser.parse_next().unwrap();

    assert_eq!(
        result,
        RespMessage::Array(vec![
            RespMessage::BulkString(b"hello".to_vec()),
            RespMessage::Integer(1000),
            RespMessage::SimpleString(b"OK".to_vec())
        ])
    );
}

#[test]
fn test_parse_error_message() {
    let data = b"-ERR unknown command\r\n";
    let mut parser = RespParser::new(data.to_vec());
    let result = parser.parse_next().unwrap();

    assert_eq!(result, RespMessage::Error(b"ERR unknown command".to_vec()));
}

#[test]
fn test_parse_null_consumes_exactly_header() {
    let data = b"$-1\r\n";
    let mut parser = RespParser::new(data.to_vec());
    let result = parser.parse_next().unwrap();

    assert_eq!(result, RespMessage::Null);
    assert_eq!(parser.position(), 5);
    assert_eq!(parser.parse_next(), Err(DecodeError::UnexpectedEof));
}

#[test]
fn test_unknown_tag_consumes_only_tag() {
    let data = b"#oops\r\n";
    let mut parser = RespParser::new(data.to_vec());
    let result = parser.parse_next();

    assert_eq!(result, Err(DecodeError::UnknownTypeTag));
    assert_eq!(parser.position(), 1);
}

#[test]
fn test_empty_input_is_eof() {
    let mut parser = RespParser::new(Vec::new());
    assert_eq!(parser.parse_next(), Err(DecodeError::UnexpectedEof));
    assert_eq!(parser.position(), 0);
}

#[test]
fn test_truncated_header_is_eof() {
    let mut parser = RespParser::new(b":12".to_vec());
    assert_eq!(parser.parse_next(), Err(DecodeError::UnexpectedEof));

    let mut parser = RespParser::new(b"+OK\r".to_vec());
    assert_eq!(parser.parse_next(), Err(DecodeError::UnexpectedEof));
}

#[test]
fn test_truncated_payload_is_eof() {
    let mut parser = RespParser::new(b"$5\r\nhel".to_vec());
    assert_eq!(parser.parse_next(), Err(DecodeError::UnexpectedEof));

    let mut parser = RespParser::new(b"$5\r\nhello".to_vec());
    assert_eq!(parser.parse_next(), Err(DecodeError::UnexpectedEof));
}

#[test]
fn test_truncated_array_is_eof() {
    let mut parser = RespParser::new(b"*2\r\n:1\r\n".to_vec());
    assert_eq!(parser.parse_next(), Err(DecodeError::UnexpectedEof));

    let mut parser = RespParser::new(b"*2\r\n:1\r\n$3\r\nab".to_vec());
    assert_eq!(parser.parse_next(), Err(DecodeError::UnexpectedEof));
}

#[test]
fn test_two_messages_back_to_back() {
    let data = b":1\r\n+OK\r\n";
    let mut parser = RespParser::new(data.to_vec());

    assert_eq!(parser.parse_next(), Ok(RespMessage::Integer(1)));
    assert_eq!(parser.position(), 4);
    assert_eq!(
        parser.parse_next(),
        Ok(RespMessage::SimpleString(b"OK".to_vec()))
    );
    assert_eq!(parser.position(), 9);
    assert_eq!(parser.parse_next(), Err(DecodeError::UnexpectedEof));
}

#[test]
fn test_invalid_integer() {
    let mut parser = RespParser::new(b":12a\r\n".to_vec());
    assert_eq!(parser.parse_next(), Err(DecodeError::InvalidInteger));

    let mut parser = RespParser::new(b":\r\n".to_vec());
    assert_eq!(parser.parse_next(), Err(DecodeError::InvalidInteger));

    let mut parser = RespParser::new(b":-\r\n".to_vec());
    assert_eq!(parser.parse_next(), Err(DecodeError::InvalidInteger));
}

#[test]
fn test_integer_overflow_is_invalid() {
    let mut parser = RespParser::new(b":9223372036854775808\r\n".to_vec());
    assert_eq!(parser.parse_next(), Err(DecodeError::InvalidInteger));

    let mut parser = RespParser::new(b":-9223372036854775809\r\n".to_vec());
    assert_eq!(parser.parse_next(), Err(DecodeError::InvalidInteger));
}

#[test]
fn test_integer_extremes() {
    let mut parser = RespParser::new(b":9223372036854775807\r\n".to_vec());
    assert_eq!(parser.parse_next(), Ok(RespMessage::Integer(i64::MAX)));

    let mut parser = RespParser::new(b":-9223372036854775808\r\n".to_vec());
    assert_eq!(parser.parse_next(), Ok(RespMessage::Integer(i64::MIN)));
}

#[test]
fn test_integer_sign_and_leading_zeros() {
    let mut parser = RespParser::new(b":+07\r\n".to_vec());
    assert_eq!(parser.parse_next(), Ok(RespMessage::Integer(7)));

    let mut parser = RespParser::new(b":-0\r\n".to_vec());
    assert_eq!(parser.parse_next(), Ok(RespMessage::Integer(0)));
}

#[test]
fn test_invalid_bulk_length() {
    let mut parser = RespParser::new(b"$x\r\nhello\r\n".to_vec());
    assert_eq!(parser.parse_next(), Err(DecodeError::InvalidBulkLength));
}

#[test]
fn test_negative_bulk_length_other_than_null() {
    let mut parser = RespParser::new(b"$-5\r\n".to_vec());
    assert_eq!(parser.parse_next(), Err(DecodeError::InvalidBulkLength));
}

#[test]
fn test_invalid_array_length() {
    let mut parser = RespParser::new(b"*abc\r\n".to_vec());
    assert_eq!(parser.parse_next(), Err(DecodeError::InvalidArrayLength));
}

#[test]
fn test_negative_array_length() {
    let mut parser = RespParser::new(b"*-1\r\n".to_vec());
    assert_eq!(parser.parse_next(), Err(DecodeError::InvalidArrayLength));

    let mut parser = RespParser::new(b"*-5\r\n".to_vec());
    assert_eq!(parser.parse_next(), Err(DecodeError::InvalidArrayLength));
}

#[test]
fn test_empty_array() {
    let mut parser = RespParser::new(b"*0\r\n".to_vec());
    assert_eq!(parser.parse_next(), Ok(RespMessage::Array(Vec::new())));
    assert_eq!(parser.position(), 4);
}

#[test]
fn test_empty_bulk_string() {
    let mut parser = RespParser::new(b"$0\r\n\r\n".to_vec());
    assert_eq!(parser.parse_next(), Ok(RespMessage::BulkString(Vec::new())));
    assert_eq!(parser.position(), 6);
}

#[test]
fn test_bulk_string_with_embedded_crlf() {
    let data = b"$6\r\nab\r\ncd\r\n";
    let mut parser = RespParser::new(data.to_vec());
    let result = parser.parse_next().unwrap();

    assert_eq!(result, RespMessage::BulkString(b"ab\r\ncd".to_vec()));
    assert_eq!(parser.position(), data.len());
}

#[test]
fn test_nested_array() {
    let data = b"*2\r\n*1\r\n:5\r\n$1\r\nx\r\n";
    let mut parser = RespParser::new(data.to_vec());
    let result = parser.parse_next().unwrap();

    assert_eq!(
        result,
        RespMessage::Array(vec![
            RespMessage::Array(vec![RespMessage::Integer(5)]),
            RespMessage::BulkString(b"x".to_vec()),
        ])
    );
    assert_eq!(parser.position(), data.len());
}
