use redis_lite::cursor::{Cursor, Error};

#[test]
fn cursor_new() {
    let input = b"hello";
    let cursor = Cursor::new(input);
    assert_eq!(cursor.position(), 0);
    assert_eq!(cursor.input(), input);
}

#[test]
fn read_byte_success() {
    let input = b"ab";
    let mut cursor = Cursor::new(input);

    assert_eq!(cursor.read_byte().unwrap(), b'a');
    assert_eq!(cursor.position(), 1);

    assert_eq!(cursor.read_byte().unwrap(), b'b');
    assert_eq!(cursor.position(), 2);
}

#[test]
fn read_byte_eof() {
    let input = b"a";
    let mut cursor = Cursor::new(input);

    assert_eq!(cursor.read_byte().unwrap(), b'a');
    assert_eq!(cursor.position(), 1);

    assert!(matches!(cursor.read_byte(), Err(Error::UnexpectedEOF)));
    assert_eq!(cursor.position(), 1);
}

#[test]
fn read_line_success() {
    let input = b"hello\r\nworld\r\n";
    let mut cursor = Cursor::new(input);

    assert_eq!(cursor.read_line().unwrap(), b"hello");
    assert_eq!(cursor.position(), 7);

    assert_eq!(cursor.read_line().unwrap(), b"world");
    assert_eq!(cursor.position(), 14);
}

#[test]
fn read_line_no_crlf() {
    let input = b"hello";
    let mut cursor = Cursor::new(input);

    assert!(matches!(cursor.read_line(), Err(Error::UnexpectedEOF)));
    assert_eq!(cursor.position(), 4);
}

#[test]
fn read_line_empty() {
    let input = b"\r\n";
    let mut cursor = Cursor::new(input);

    assert_eq!(cursor.read_line().unwrap(), b"");
    assert_eq!(cursor.position(), 2);
}

#[test]
fn read_string_success() {
    let input = "hello\r\nworld\r\n".as_bytes();
    let mut cursor = Cursor::new(input);

    assert_eq!(cursor.read_string().unwrap(), "hello");
    assert_eq!(cursor.position(), 7);

    assert_eq!(cursor.read_string().unwrap(), "world");
    assert_eq!(cursor.position(), 14);
}

#[test]
fn read_string_empty() {
    let input = "\r\n".as_bytes();
    let mut cursor = Cursor::new(input);

    assert_eq!(cursor.read_string().unwrap(), "");
    assert_eq!(cursor.position(), 2);
}

#[test]
fn read_string_invalid_utf8() {
    let input = &[0xFF, b'\r', b'\n'];
    let mut cursor = Cursor::new(input);

    match cursor.read_string() {
        Err(Error::InvalidInput(msg)) => {
            assert!(msg.contains("is not a valid UTF-8 sequence"));
        }
        _ => panic!("Expected InvalidInput error"),
    }
    assert_eq!(cursor.position(), 3);
}

#[test]
fn read_string_eof() {
    let input = "hello".as_bytes();
    let mut cursor = Cursor::new(input);

    assert!(matches!(cursor.read_string(), Err(Error::UnexpectedEOF)));
    assert_eq!(cursor.position(), 4);
}

#[test]
fn read_integer_success() {
    let input = "42\r\n-123\r\n0\r\n".as_bytes();
    let mut cursor = Cursor::new(input);

    assert_eq!(cursor.read_integer().unwrap(), 42);
    assert_eq!(cursor.position(), 4);

    assert_eq!(cursor.read_integer().unwrap(), -123);
    assert_eq!(cursor.position(), 10);

    assert_eq!(cursor.read_integer().unwrap(), 0);
    assert_eq!(cursor.position(), 13);
}

#[test]
fn read_integer_invalid_input() {
    let input = "not_a_number\r\n".as_bytes();
    let mut cursor = Cursor::new(input);

    match cursor.read_integer() {
        Err(Error::InvalidInput(msg)) => {
            assert!(msg.contains("is not a valid integer"));
        }
        _ => panic!("Expected InvalidInput error"),
    }
    assert_eq!(cursor.position(), 14);
}

#[test]
fn read_integer_empty() {
    let input = "\r\n".as_bytes();
    let mut cursor = Cursor::new(input);

    match cursor.read_integer() {
        Err(Error::InvalidInput(msg)) => {
            assert!(msg.contains("is not a valid integer"));
        }
        _ => panic!("Expected InvalidInput error"),
    }
    assert_eq!(cursor.position(), 2);
}

#[test]
fn read_integer_out_of_range() {
    let input = "9223372036854775808\r\n".as_bytes();
    let mut cursor = Cursor::new(input);

    match cursor.read_integer() {
        Err(Error::InvalidInput(msg)) => {
            assert!(msg.contains("is not a valid integer"));
        }
        _ => panic!("Expected InvalidInput error"),
    }
    assert_eq!(cursor.position(), 21);
}

#[test]
fn read_integer_bad_utf8_moves_past_line() {
    let input = &[0xFF, b'\r', b'\n', b'1'];
    let mut cursor = Cursor::new(input);
    match cursor.read_integer() {
        Err(Error::InvalidInput(msg)) => assert!(msg.ends_with("is not a valid UTF-8 sequence")),
        _ => panic!("Expected InvalidInput error"),
    }
    assert_eq!(cursor.position(), 3);
}
