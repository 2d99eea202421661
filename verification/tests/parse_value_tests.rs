//! Reading RESP values from bytes.

use redis_lite::protocol::{ProtocolError, RespValue, parse_value};

// -- SimpleString --------------------------------------

#[test]
fn test_parse_simple_string() {
    let buf = b"+OK\r\n";
    let mut pos = 0;
    let result = parse_value(buf, &mut pos);

    match result {
        Ok(RespValue::SimpleString(s)) => assert_eq!(s, "OK"),
        other => panic!("expected SimpleString(\"OK\"), got {:?}", other),
    }
    assert_eq!(pos, 5);
}

#[test]
fn test_parse_simple_string_empty() {
    let buf = b"+\r\n";
    let mut pos = 0;
    let result = parse_value(buf, &mut pos);

    match result {
        Ok(RespValue::SimpleString(s)) => assert_eq!(s, ""),
        other => panic!("expected SimpleString(\"\"), got {:?}", other),
    }
    assert_eq!(pos, 3);
}

#[test]
fn test_parse_simple_string_incomplete() {
    let buf = b"+OK";
    let mut pos = 0;
    let result = parse_value(buf, &mut pos);

    match result {
        Err(ProtocolError::Incomplete) => {}
        other => panic!("expected Incomplete, got {:?}", other),
    }
    assert_eq!(pos, 0); // rollback
}

// -- Error ---------------------------------------------

#[test]
fn test_parse_error() {
    let buf = b"-ERR unknown command\r\n";
    let mut pos = 0;
    let result = parse_value(buf, &mut pos);

    match result {
        Ok(RespValue::Error(s)) => assert_eq!(s, "ERR unknown command"),
        other => panic!("expected Error, got {:?}", other),
    }
    assert_eq!(pos, buf.len());
}

// -- Integer -------------------------------------------

#[test]
fn test_parse_integer_positive() {
    let buf = b":1337\r\n";
    let mut pos = 0;
    let result = parse_value(buf, &mut pos);

    match result {
        Ok(RespValue::Integer(n)) => assert_eq!(n, 1337),
        other => panic!("expected Integer(1337), got {:?}", other),
    }
    assert_eq!(pos, 7);
}

#[test]
fn test_parse_integer_negative() {
    let buf = b":-42\r\n";
    let mut pos = 0;
    let result = parse_value(buf, &mut pos);

    match result {
        Ok(RespValue::Integer(n)) => assert_eq!(n, -42),
        other => panic!("expected Integer(-42), got {:?}", other),
    }
    assert_eq!(pos, 6);
}

#[test]
fn test_parse_integer_zero() {
    let buf = b":0\r\n";
    let mut pos = 0;
    let result = parse_value(buf, &mut pos);

    match result {
        Ok(RespValue::Integer(n)) => assert_eq!(n, 0),
        other => panic!("expected Integer(0), got {:?}", other),
    }
    assert_eq!(pos, 4);
}

#[test]
fn test_parse_integer_invalid() {
    let buf = b":notanumber\r\n";
    let mut pos = 0;
    let result = parse_value(buf, &mut pos);

    match result {
        Err(ProtocolError::InvalidFormat(_)) => {}
        other => panic!("expected InvalidFormat, got {:?}", other),
    }
}

// -- BulkString ----------------------------------------

#[test]
fn test_parse_bulk_string() {
    let buf = b"$5\r\nhello\r\n";
    let mut pos = 0;
    let result = parse_value(buf, &mut pos);

    match result {
        Ok(RespValue::BulkString(Some(b))) => assert_eq!(&b[..], b"hello"),
        other => panic!("expected BulkString(Some(\"hello\")), got {:?}", other),
    }
    assert_eq!(pos, buf.len());
}

#[test]
fn test_parse_bulk_string_empty() {
    let buf = b"$0\r\n\r\n";
    let mut pos = 0;
    let result = parse_value(buf, &mut pos);

    match result {
        Ok(RespValue::BulkString(Some(b))) => assert_eq!(b.len(), 0),
        other => panic!("expected BulkString(Some(empty)), got {:?}", other),
    }
    assert_eq!(pos, 6);
}

#[test]
fn test_parse_bulk_string_null() {
    let buf = b"$-1\r\n";
    let mut pos = 0;
    let result = parse_value(buf, &mut pos);

    match result {
        Ok(RespValue::BulkString(None)) => {}
        other => panic!("expected BulkString(None), got {:?}", other),
    }
    assert_eq!(pos, 5);
}

#[test]
fn test_parse_bulk_string_incomplete_data() {
    let buf = b"$10\r\nhello"; // claims 10 bytes, only 5 present
    let mut pos = 0;
    let result = parse_value(buf, &mut pos);

    match result {
        Err(ProtocolError::Incomplete) => {}
        other => panic!("expected Incomplete, got {:?}", other),
    }
    assert_eq!(pos, 0); // rollback
}

#[test]
fn test_parse_bulk_string_incomplete_length() {
    let buf = b"$5\r"; // \r\n not complete
    let mut pos = 0;
    let result = parse_value(buf, &mut pos);

    match result {
        Err(ProtocolError::Incomplete) => {}
        other => panic!("expected Incomplete, got {:?}", other),
    }
    assert_eq!(pos, 0);
}

#[test]
fn test_parse_bulk_string_with_crlf_inside() {
    // bulk string containing \r\n in the data itself — length-prefix handles this
    let buf = b"$7\r\nfoo\r\nbar\r\n"; // "foo\r\nba" wait — let me be precise
    // data is: f o o \r \n b a = 7 bytes, then \r\n terminator
    let buf = b"$7\r\nfoo\r\nba\r\n";
    let mut pos = 0;
    let result = parse_value(buf, &mut pos);

    match result {
        Ok(RespValue::BulkString(Some(b))) => assert_eq!(&b[..], b"foo\r\nba"),
        other => panic!("expected BulkString with embedded crlf, got {:?}", other),
    }
    assert_eq!(pos, buf.len());
}

// -- Array ---------------------------------------------

#[test]
fn test_parse_array_simple() {
    // *2\r\n$3\r\nfoo\r\n$3\r\nbar\r\n
    let buf = b"*2\r\n$3\r\nfoo\r\n$3\r\nbar\r\n";
    let mut pos = 0;
    let result = parse_value(buf, &mut pos);

    match result {
        Ok(RespValue::Array(elements)) => {
            assert_eq!(elements.len(), 2);
            match &elements[0] {
                RespValue::BulkString(Some(b)) => assert_eq!(&b[..], b"foo"),
                other => panic!("expected BulkString(foo), got {:?}", other),
            }
            match &elements[1] {
                RespValue::BulkString(Some(b)) => assert_eq!(&b[..], b"bar"),
                other => panic!("expected BulkString(bar), got {:?}", other),
            }
        }
        other => panic!("expected Array, got {:?}", other),
    }
    assert_eq!(pos, buf.len());
}

#[test]
fn test_parse_array_empty() {
    let buf = b"*0\r\n";
    let mut pos = 0;
    let result = parse_value(buf, &mut pos);

    match result {
        Ok(RespValue::Array(elements)) => assert_eq!(elements.len(), 0),
        other => panic!("expected empty Array, got {:?}", other),
    }
    assert_eq!(pos, 4);
}

#[test]
fn test_parse_array_null() {
    let buf = b"*-1\r\n";
    let mut pos = 0;
    let result = parse_value(buf, &mut pos);

    match result {
        Ok(RespValue::BulkString(None)) => {}
        other => panic!("expected BulkString(None) for null array, got {:?}", other),
    }
    assert_eq!(pos, 5);
}

#[test]
fn test_parse_array_mixed_types() {
    // array of: simple string, integer, bulk string
    // *3\r\n+hello\r\n:42\r\n$3\r\nfoo\r\n
    let buf = b"*3\r\n+hello\r\n:42\r\n$3\r\nfoo\r\n";
    let mut pos = 0;
    let result = parse_value(buf, &mut pos);

    match result {
        Ok(RespValue::Array(elements)) => {
            assert_eq!(elements.len(), 3);
            match &elements[0] {
                RespValue::SimpleString(s) => assert_eq!(s, "hello"),
                other => panic!("expected SimpleString, got {:?}", other),
            }
            match &elements[1] {
                RespValue::Integer(n) => assert_eq!(*n, 42),
                other => panic!("expected Integer, got {:?}", other),
            }
            match &elements[2] {
                RespValue::BulkString(Some(b)) => assert_eq!(&b[..], b"foo"),
                other => panic!("expected BulkString, got {:?}", other),
            }
        }
        other => panic!("expected Array, got {:?}", other),
    }
    assert_eq!(pos, buf.len());
}

#[test]
fn test_parse_array_nested() {
    // *2\r\n*2\r\n:1\r\n:2\r\n*2\r\n:3\r\n:4\r\n
    // array of two arrays: [[1, 2], [3, 4]]
    let buf = b"*2\r\n*2\r\n:1\r\n:2\r\n*2\r\n:3\r\n:4\r\n";
    let mut pos = 0;
    let result = parse_value(buf, &mut pos);

    match result {
        Ok(RespValue::Array(outer)) => {
            assert_eq!(outer.len(), 2);
            match &outer[0] {
                RespValue::Array(inner) => {
                    assert_eq!(inner.len(), 2);
                    match (&inner[0], &inner[1]) {
                        (RespValue::Integer(1), RespValue::Integer(2)) => {}
                        other => panic!("expected [1, 2], got {:?}", other),
                    }
                }
                other => panic!("expected inner array, got {:?}", other),
            }
            match &outer[1] {
                RespValue::Array(inner) => {
                    assert_eq!(inner.len(), 2);
                    match (&inner[0], &inner[1]) {
                        (RespValue::Integer(3), RespValue::Integer(4)) => {}
                        other => panic!("expected [3, 4], got {:?}", other),
                    }
                }
                other => panic!("expected inner array, got {:?}", other),
            }
        }
        other => panic!("expected nested Array, got {:?}", other),
    }
    assert_eq!(pos, buf.len());
}

#[test]
fn test_parse_array_incomplete() {
    // says 3 elements, only 2 present
    let buf = b"*3\r\n$3\r\nfoo\r\n$3\r\nbar\r\n";
    let mut pos = 0;
    let result = parse_value(buf, &mut pos);

    match result {
        Err(ProtocolError::Incomplete) => {}
        other => panic!("expected Incomplete, got {:?}", other),
    }
    assert_eq!(pos, 0); // full rollback
}

// -- Edge cases ----------------------------------------

#[test]
fn test_parse_invalid_type_byte() {
    let buf = b"!garbage\r\n";
    let mut pos = 0;
    let result = parse_value(buf, &mut pos);

    match result {
        Err(ProtocolError::InvalidType(b'!')) => {}
        other => panic!("expected InvalidType('!'), got {:?}", other),
    }
}

#[test]
fn test_parse_empty_buffer() {
    let buf = b"";
    let mut pos = 0;
    let result = parse_value(buf, &mut pos);

    match result {
        Err(ProtocolError::Incomplete) => {}
        other => panic!("expected Incomplete, got {:?}", other),
    }
}

#[test]
fn test_parse_realistic_get_command() {
    // what redis-cli actually sends for GET foo
    let buf = b"*2\r\n$3\r\nGET\r\n$3\r\nfoo\r\n";
    let mut pos = 0;
    let result = parse_value(buf, &mut pos);

    match result {
        Ok(RespValue::Array(elements)) => {
            assert_eq!(elements.len(), 2);
            match &elements[0] {
                RespValue::BulkString(Some(b)) => assert_eq!(&b[..], b"GET"),
                other => panic!("expected BulkString(GET), got {:?}", other),
            }
            match &elements[1] {
                RespValue::BulkString(Some(b)) => assert_eq!(&b[..], b"foo"),
                other => panic!("expected BulkString(foo), got {:?}", other),
            }
        }
        other => panic!("expected Array, got {:?}", other),
    }
    assert_eq!(pos, buf.len());
}

#[test]
fn test_parse_realistic_set_command() {
    // SET foo bar
    let buf = b"*3\r\n$3\r\nSET\r\n$3\r\nfoo\r\n$3\r\nbar\r\n";
    let mut pos = 0;
    let result = parse_value(buf, &mut pos);

    match result {
        Ok(RespValue::Array(elements)) => {
            assert_eq!(elements.len(), 3);
            match &elements[0] {
                RespValue::BulkString(Some(b)) => assert_eq!(&b[..], b"SET"),
                other => panic!("expected BulkString(SET), got {:?}", other),
            }
            match &elements[1] {
                RespValue::BulkString(Some(b)) => assert_eq!(&b[..], b"foo"),
                other => panic!("expected BulkString(foo), got {:?}", other),
            }
            match &elements[2] {
                RespValue::BulkString(Some(b)) => assert_eq!(&b[..], b"bar"),
                other => panic!("expected BulkString(bar), got {:?}", other),
            }
        }
        other => panic!("expected Array, got {:?}", other),
    }
    assert_eq!(pos, buf.len());
}
