use redis_lite::cursor::Error;
use redis_lite::resp::{parse, RespValue, MAX_DEPTH};

fn round_trips(value: RespValue) {
    let bytes = value.as_bytes();
    let decoded = parse(&bytes).unwrap();
    assert_eq!(decoded.as_bytes(), bytes);
}

#[test]
fn round_trip_scalars() {
    round_trips(RespValue::SimpleString("OK".to_string()));
    round_trips(RespValue::Error("ERR bad".to_string()));
    round_trips(RespValue::Integer(i64::MIN));
    round_trips(RespValue::Integer(i64::MAX));
    round_trips(RespValue::BulkString("foo\r\nbar".to_string()));
    round_trips(RespValue::BulkString(String::new()));
    round_trips(RespValue::NullBulkString);
    round_trips(RespValue::Null);
    round_trips(RespValue::True);
    round_trips(RespValue::False);
    round_trips(RespValue::Double("1.5".to_string()));
    round_trips(RespValue::Double("-2.5e-3".to_string()));
    round_trips(RespValue::NaN);
    round_trips(RespValue::PositiveInfinity);
    round_trips(RespValue::NegativeInfinity);
    round_trips(RespValue::BigNumber("-3492890328409238509324850943850943825024385".to_string()));
    round_trips(RespValue::BulkError("SYNTAX invalid".to_string()));
    round_trips(RespValue::VerbatimString("txt".to_string(), "héllo".to_string()));
}

#[test]
fn round_trip_nested() {
    round_trips(RespValue::Array(vec![
        RespValue::Integer(1),
        RespValue::MapPairs(vec![
            (RespValue::BulkString("k".to_string()), RespValue::SetItems(vec![RespValue::Null])),
            (RespValue::SimpleString("x".to_string()), RespValue::True),
        ]),
    ]));
    round_trips(RespValue::SetItems(vec![
        RespValue::Array(vec![]),
        RespValue::BulkError("last".to_string()),
    ]));
}

#[test]
fn round_trip_bytes() {
    let input = b"*3\r\n:1\r\n*2\r\n+Hello\r\n-Error\r\n$5\r\nworld\r\n";
    assert_eq!(parse(input).unwrap().as_bytes(), input);
    let input = b"%2\r\n$3\r\nkey\r\n$5\r\nvalue\r\n+OK\r\n:2\r\n";
    assert_eq!(parse(input).unwrap().as_bytes(), input);
}

#[test]
fn open_ended_element_before_another_does_not_round_trip() {
    let value = RespValue::Array(vec![RespValue::True, RespValue::Integer(1)]);
    let bytes = value.as_bytes();
    assert_eq!(bytes, b"*2\r\n#t\r\n:1\r\n");
    assert!(matches!(parse(&bytes), Err(Error::InvalidInput(_))));
}

#[test]
fn parse_leaves_line_end_after_boolean() {
    assert!(matches!(parse(b"#t"), Ok(RespValue::True)));
    assert!(matches!(parse(b"#x\r\n"), Err(Error::InvalidInput(_))));
    assert!(matches!(parse(b"#"), Err(Error::UnexpectedEOF)));
}

#[test]
fn parse_multibyte_text() {
    assert!(matches!(parse("$2\r\né\r\n".as_bytes()), Ok(RespValue::BulkString(s)) if s == "é"));
    assert!(matches!(parse(b"$2\r\n\xC3\x28\r\n"), Err(Error::InvalidInput(_))));
    assert!(matches!(parse("+héllo\r\n".as_bytes()), Ok(RespValue::SimpleString(s)) if s == "héllo"));
}

#[test]
fn parse_bulk_string_bad_terminator() {
    assert!(matches!(parse(b"$2\r\nhiXY"), Err(Error::InvalidInput(_))));
    assert!(matches!(parse(b"$2\r\nhi\r"), Err(Error::UnexpectedEOF)));
}

#[test]
fn parse_negative_lengths() {
    assert!(matches!(parse(b"$-2\r\n"), Err(Error::InvalidInput(_))));
    assert!(matches!(parse(b"!-1\r\n"), Err(Error::InvalidInput(_))));
    assert!(matches!(parse(b"=-5\r\n"), Err(Error::InvalidInput(_))));
    assert!(matches!(parse(b"$-1\r\n"), Ok(RespValue::NullBulkString)));
    assert!(matches!(parse(b"*-2\r\n"), Ok(RespValue::Array(a)) if a.is_empty()));
    assert!(matches!(parse(b"~-1\r\n"), Ok(RespValue::SetItems(s)) if s.is_empty()));
    assert!(matches!(parse(b"%-1\r\n"), Ok(RespValue::MapPairs(m)) if m.is_empty()));
}

#[test]
fn parse_short_verbatim_string() {
    assert!(matches!(parse(b"=3\r\ntxt\r\n"), Err(Error::InvalidInput(_))));
    assert!(matches!(parse(b"=4\r\ntxt:\r\n"), Ok(RespValue::VerbatimString(e, s)) if e == "txt" && s.is_empty()));
}

#[test]
fn parse_null_bad_terminator() {
    assert!(matches!(parse(b"_ab"), Err(Error::InvalidInput(_))));
    assert!(matches!(parse(b"_"), Err(Error::UnexpectedEOF)));
}

#[test]
fn parse_double_forms() {
    assert!(matches!(parse(b",1e10\r\n"), Ok(RespValue::Double(s)) if s == "1e10"));
    assert!(matches!(parse(b",.5\r\n"), Ok(RespValue::Double(s)) if s == ".5"));
    assert!(matches!(parse(b",5.\r\n"), Ok(RespValue::Double(s)) if s == "5."));
    assert!(matches!(parse(b",-Infinity\r\n"), Ok(RespValue::Double(s)) if s == "-Infinity"));
    assert!(matches!(parse(b",NaN\r\n"), Ok(RespValue::Double(s)) if s == "NaN"));
    assert!(matches!(parse(b",1.2.3\r\n"), Err(Error::InvalidInput(_))));
    assert!(matches!(parse(b",1e\r\n"), Err(Error::InvalidInput(_))));
    assert!(matches!(parse(b",.\r\n"), Err(Error::InvalidInput(_))));
    assert!(matches!(parse(b",\r\n"), Err(Error::InvalidInput(_))));
}

#[test]
fn parse_big_number_sign_only() {
    assert!(matches!(parse(b"(+\r\n"), Ok(RespValue::BigNumber(s)) if s == "+"));
}

#[test]
fn parse_integer_forms() {
    assert!(matches!(parse(b":+7\r\n"), Ok(RespValue::Integer(7))));
    assert!(matches!(parse(b":-\r\n"), Err(Error::InvalidInput(_))));
    assert!(matches!(parse(b":9223372036854775808\r\n"), Err(Error::InvalidInput(_))));
    assert!(matches!(parse(b":-9223372036854775809\r\n"), Err(Error::InvalidInput(_))));
}

#[test]
fn parse_empty_input() {
    assert!(matches!(parse(b""), Err(Error::UnexpectedEOF)));
}

#[test]
fn parse_stops_after_first_value() {
    assert!(matches!(parse(b"+a\r\n+b\r\n"), Ok(RespValue::SimpleString(s)) if s == "a"));
}

#[test]
fn encode_verbatim_length_counts_bytes() {
    let v = RespValue::VerbatimString("txt".to_string(), "é".to_string());
    assert_eq!(v.as_bytes(), "=6\r\ntxt:é\r\n".as_bytes());
}

#[test]
fn encode_bulk_length_counts_bytes() {
    assert_eq!(RespValue::BulkString("é".to_string()).as_bytes(), "$2\r\né\r\n".as_bytes());
}

#[test]
fn error_messages() {
    assert_eq!(Error::UnexpectedEOF.message(), "Unexpected EOF");
    assert_eq!(Error::InvalidInput("x".to_string()).message(), "Invalid input: x");
}

#[test]
fn nesting_beyond_the_limit_is_rejected() {
    let deep = MAX_DEPTH as usize;
    let mut ok = b"*1\r\n".repeat(deep);
    ok.extend_from_slice(b":1\r\n");
    assert!(parse(&ok).is_ok());
    let mut too_deep = b"*1\r\n".repeat(deep + 1);
    too_deep.extend_from_slice(b":1\r\n");
    assert!(matches!(parse(&too_deep), Err(Error::InvalidInput(_))));
    let mut maps = b"%1\r\n+k\r\n".repeat(deep + 1);
    maps.extend_from_slice(b":1\r\n");
    assert!(matches!(parse(&maps), Err(Error::InvalidInput(_))));
    let huge = b"*1\r\n".repeat(1_000_000);
    assert!(matches!(parse(&huge), Err(Error::InvalidInput(_))));
}

#[test]
fn diagnostics_name_the_problem() {
    match parse(b"/hello\r\n") {
        Err(Error::InvalidInput(m)) => assert_eq!(m, "47 is an unexpected first byte"),
        _ => panic!("expected invalid input"),
    }
    match parse(b"$-3\r\n") {
        Err(Error::InvalidInput(m)) => assert!(m.ends_with("is a negative length")),
        _ => panic!("expected invalid input"),
    }
    match parse(b"(12a\r\n") {
        Err(Error::InvalidInput(m)) => assert!(m.ends_with("is an invalid big number")),
        _ => panic!("expected invalid input"),
    }
}
