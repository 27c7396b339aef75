use resp_decoder::deserializer::{from_bytes, from_stream, from_string, Deserialer, Error, Value};
use resp_decoder::source::ByteReader;

fn setup_int(data: &str) -> Result<i64, Error> {
    let mut d = Deserialer::new(ByteReader::new(data.as_bytes()));
    d.parse_integer()
}

fn setup_string(data: &str) -> Result<String, Error> {
    let mut d = Deserialer::new(ByteReader::new(data.as_bytes()));
    d.parse_string()
}

fn setup_bulk(data: &str) -> Result<Vec<u8>, Error> {
    let mut d = Deserialer::new(ByteReader::new(data.as_bytes()));
    d.parse_bulk()
}

fn is_invalid<T>(r: &Result<T, Error>) -> bool {
    matches!(r, Err(Error::InvalidValue(_)))
}

fn is_end_of_stream<T>(r: &Result<T, Error>) -> bool {
    matches!(r, Err(Error::EndOfStream))
}

#[test]
fn parse_integer() {
    let result = setup_int("1234567890\r\n");
    assert!(result.is_ok(), "{:?}", result.err().unwrap());
    let result = result.unwrap();
    let correct = 1234567890;
    assert_eq!(result, correct);
}

#[test]
fn parse_negative_integer() {
    let result = setup_int("-1234567890\r\n");
    assert!(result.is_ok(), "{:?}", result.err().unwrap());
    let result = result.unwrap();
    let correct = -1234567890;
    assert_eq!(result, correct);
}

#[test]
fn parse_zero() {
    let result = setup_int("0\r\n");
    assert!(result.is_ok(), "{:?}", result.err().unwrap());
    let result = result.unwrap();
    let correct = 0;
    assert_eq!(result, correct);
}

#[test]
fn parse_invalid_integer() {
    let data = "r\r\n";
    let result = setup_int(&data);
    assert!(
        result.is_err(),
        "String {} shouldnt parse to integer. Found: {:?}",
        data,
        result.unwrap()
    );
}

#[test]
fn parse_integer_end_of_stream() {
    let data = "8122\r";
    let result = setup_int(&data);
    assert!(
        result.is_err(),
        "String {} should raise an error. Found: {:?}",
        data,
        result.unwrap()
    );
}

#[test]
fn parse_string() {
    let data = "OK\r\n";
    let result = setup_string(&data);
    assert!(result.is_ok(), "{:?}", result.err().unwrap());
    let result = result.unwrap();
    let correct = "OK".to_string();
    assert_eq!(result, correct);
}

#[test]
fn parse_string_end_of_stream() {
    let data = "OK\r";
    let result = setup_int(&data);
    assert!(
        result.is_err(),
        "String {} should raise an error. Found: {:?}",
        data,
        result.unwrap()
    );
}

#[test]
fn parse_bulk_string() {
    let data = "4\r\nECHO\r\n";
    let result = setup_bulk(&data);
    assert!(result.is_ok(), "{:?}", result.err().unwrap());
    let result = result.unwrap();
    let correct = "ECHO".as_bytes();
    assert_eq!(result, correct);
}

#[test]
fn parse_array() {
    let result = from_string("*2\r\n$4\r\nECHO\r\n$3\r\nhey\r\n");
    let result = result.unwrap();
    let correct = Value::Array(vec![
        Value::BulkString(Vec::from("ECHO".as_bytes())),
        Value::BulkString(Vec::from("hey".as_bytes())),
    ]);
    assert_eq!(result, correct);
}

#[test]
fn integer_errors_are_classified() {
    assert!(is_invalid(&setup_int("r\r\n")));
    assert!(is_end_of_stream(&setup_int("8122\r")));
    assert!(is_end_of_stream(&setup_int("OK\r")));
    assert!(is_end_of_stream(&setup_int("12")));
    assert!(is_invalid(&setup_int("12\rx")));
    assert!(is_invalid(&setup_int("\r\n")));
    assert!(is_invalid(&setup_int("-\r\n")));
    assert!(is_invalid(&setup_int("1 2\r\n")));
}

#[test]
fn integer_limits() {
    assert_eq!(setup_int("9223372036854775807\r\n").unwrap(), i64::MAX);
    assert_eq!(setup_int("-9223372036854775808\r\n").unwrap(), i64::MIN);
    assert!(is_invalid(&setup_int("9223372036854775808\r\n")));
    assert!(is_invalid(&setup_int("-9223372036854775809\r\n")));
    assert!(is_invalid(&setup_int("99999999999999999999\r\n")));
    assert_eq!(setup_int("+42\r\n").unwrap(), 42);
    assert_eq!(setup_int("-0\r\n").unwrap(), 0);
    assert_eq!(setup_int("007\r\n").unwrap(), 7);
}

#[test]
fn integer_value_through_tag() {
    assert_eq!(from_string(":0\r\n").unwrap(), Value::Integer(0));
    assert_eq!(
        from_string(":-1234567890\r\n").unwrap(),
        Value::Integer(-1234567890)
    );
}

#[test]
fn simple_string_and_error() {
    assert_eq!(
        from_string("+OK\r\n").unwrap(),
        Value::String("OK".to_string())
    );
    assert_eq!(
        from_string("-ERR bad\r\n").unwrap(),
        Value::Error("ERR bad".to_string())
    );
    assert_eq!(from_string("+\r\n").unwrap(), Value::String(String::new()));
    assert_eq!(
        from_string("+h\u{e9}llo\r\n").unwrap(),
        Value::String("h\u{e9}llo".to_string())
    );
}

#[test]
fn bare_newline_in_text_is_invalid() {
    assert!(is_invalid(&from_string("+O\nK\r\n")));
    assert!(is_invalid(&from_string("-\n\r\n")));
    assert!(is_invalid(&setup_string("OK\n")));
}

#[test]
fn text_terminator_errors() {
    assert!(is_invalid(&setup_string("OK\rX")));
    assert!(is_end_of_stream(&setup_string("OK\r")));
    assert!(is_end_of_stream(&setup_string("OK")));
}

#[test]
fn non_utf8_text_is_invalid() {
    assert!(is_invalid(&from_bytes(&[b'+', 0xff, 0xfe, b'\r', b'\n'])));
    assert!(is_invalid(&from_bytes(&[b'-', 0xc3, b'\r', b'\n'])));
    assert_eq!(
        from_bytes(&[b'+', 0xc3, 0xa9, b'\r', b'\n']).unwrap(),
        Value::String("\u{e9}".to_string())
    );
}

#[test]
fn bulk_payload_is_byte_exact() {
    let payload: Vec<u8> = vec![b'a', b'\r', b'\n', 0, 0xff, b'\n'];
    let mut wire: Vec<u8> = b"$6\r\n".to_vec();
    wire.extend_from_slice(&payload);
    wire.extend_from_slice(b"\r\n");
    let v = from_bytes(&wire).unwrap();
    assert_eq!(v, Value::BulkString(payload.clone()));
    if let Value::BulkString(b) = v {
        assert_eq!(b.len(), 6);
    }
}

#[test]
fn bulk_edge_cases() {
    assert_eq!(from_string("$0\r\n\r\n").unwrap(), Value::BulkString(vec![]));
    assert_eq!(from_string("$-1\r\n\r\n").unwrap(), Value::BulkString(vec![]));
    assert!(is_end_of_stream(&from_string("$4\r\nEC")));
    assert!(is_end_of_stream(&from_string("$4\r\nECHO")));
    assert!(is_end_of_stream(&from_string("$4\r\nECHO\r")));
    assert!(is_invalid(&from_string("$4\r\nECHOX\r\n")));
    assert!(is_invalid(&from_string("$4\r\nECHO\rX")));
    assert!(is_invalid(&from_string("$x\r\nECHO\r\n")));
}

#[test]
fn nested_and_mixed_arrays() {
    let v = from_string("*3\r\n:1\r\n*2\r\n+a\r\n-b\r\n$1\r\nc\r\n").unwrap();
    let expected = Value::Array(vec![
        Value::Integer(1),
        Value::Array(vec![
            Value::String("a".to_string()),
            Value::Error("b".to_string()),
        ]),
        Value::BulkString(vec![b'c']),
    ]);
    assert_eq!(v, expected);
    assert_eq!(from_string("*0\r\n").unwrap(), Value::Array(vec![]));
    assert_eq!(from_string("*-1\r\n").unwrap(), Value::Array(vec![]));
}

#[test]
fn array_failures_propagate() {
    assert!(is_end_of_stream(&from_string("*2\r\n:1\r\n")));
    assert!(is_invalid(&from_string("*2\r\n:1\r\n?\r\n")));
    assert!(is_invalid(&from_string("*2\r\n:x\r\n:1\r\n")));
}

#[test]
fn unknown_tag_is_invalid() {
    for b in [b'?', b'a', b'0', b'\r', b'\n', b' ', b'_', 0u8, 0xffu8] {
        let r = from_bytes(&[b, b'O', b'K', b'\r', b'\n']);
        assert!(is_invalid(&r), "tag {} gave {:?}", b, r);
    }
}

#[test]
fn empty_source_ends_stream() {
    assert!(is_end_of_stream(&from_bytes(&[])));
    assert!(is_end_of_stream(&from_string("")));
    assert!(is_end_of_stream(&from_stream(ByteReader::new(&[]))));
    assert!(is_end_of_stream(&setup_int("")));
    assert!(is_end_of_stream(&setup_string("")));
    assert!(is_end_of_stream(&setup_bulk("")));
}

#[test]
fn trailing_bytes_stay_unread() {
    let data = b":1\r\n+two\r\n";
    let mut d = Deserialer::new(ByteReader::new(data));
    assert_eq!(d.parse().unwrap(), Value::Integer(1));
    assert_eq!(d.parse().unwrap(), Value::String("two".to_string()));
    assert!(is_end_of_stream(&d.parse()));
}

#[test]
fn unknown_tag_names_the_byte() {
    let cases: [(u8, &str); 4] = [
        (b'?', "Invalid character 63"),
        (0u8, "Invalid character 0"),
        (b'\n', "Invalid character 10"),
        (0xffu8, "Invalid character 255"),
    ];
    for (b, expected) in cases {
        match from_bytes(&[b, b'\r', b'\n']) {
            Err(Error::InvalidValue(msg)) => assert_eq!(msg, expected),
            other => panic!("tag {} gave {:?}", b, other),
        }
    }
}

#[test]
fn cloned_value_is_equal() {
    let v = from_string("*2\r\n*1\r\n+a\r\n$2\r\n\r\n\r\n").unwrap();
    let w = v.clone();
    assert_eq!(v, w);
    assert_eq!(
        w,
        Value::Array(vec![
            Value::Array(vec![Value::String("a".to_string())]),
            Value::BulkString(vec![b'\r', b'\n']),
        ])
    );
}

fn left_after<T>(
    data: &[u8],
    step: fn(&mut Deserialer<ByteReader<'_>>) -> Result<T, Error>,
) -> (Result<T, Error>, Vec<u8>) {
    let mut d = Deserialer::new(ByteReader::new(data));
    let r = step(&mut d);
    let rest = d.into_inner().remaining().to_vec();
    (r, rest)
}

#[test]
fn borrowed_source_keeps_trailing_bytes() {
    let mut reader = ByteReader::new(b":1\r\nXYZ");
    assert_eq!(from_stream(&mut reader).unwrap(), Value::Integer(1));
    assert_eq!(reader.remaining(), b"XYZ");
    let mut reader = ByteReader::new(b"+a\nrest");
    assert!(is_invalid(&from_stream(&mut reader)));
    assert_eq!(reader.remaining(), b"rest");
}

#[test]
fn failure_leaves_source_where_it_stopped() {
    let (r, rest) = left_after(b"12\rXrest", |d| d.parse_integer());
    assert!(is_invalid(&r));
    assert_eq!(rest, b"rest");
    let (r, rest) = left_after(b"r\r\nrest", |d| d.parse_integer());
    assert!(is_invalid(&r));
    assert_eq!(rest, b"rest");
    let (r, rest) = left_after(b"8122\r", |d| d.parse_integer());
    assert!(is_end_of_stream(&r));
    assert_eq!(rest, b"");
    let (r, rest) = left_after(b"x\r\nabc\r\n", |d| d.parse_bulk());
    assert!(is_invalid(&r));
    assert_eq!(rest, b"abc\r\n");
    let (r, rest) = left_after(b"2\r\nabX\r\n", |d| d.parse_bulk());
    assert!(is_invalid(&r));
    assert_eq!(rest, b"\r\n");
    let (r, rest) = left_after(b"?rest", |d| d.parse());
    assert!(is_invalid(&r));
    assert_eq!(rest, b"rest");
    let (r, rest) = left_after(b"OK\rXrest", |d| d.parse_string());
    assert!(is_invalid(&r));
    assert_eq!(rest, b"rest");
    let (r, rest) = left_after(&[0xff, b'\r', b'\n', b'z'], |d| d.parse_error());
    assert!(is_invalid(&r));
    assert_eq!(rest, b"z");
    let (r, rest) = left_after(b"*2\r\n:1\r\n", |d| d.parse());
    assert!(is_end_of_stream(&r));
    assert_eq!(rest, b"");
}

#[test]
fn value_leaves_what_follows() {
    let (r, rest) = left_after(b"$3\r\na\nb\r\n+next\r\n", |d| d.parse());
    assert_eq!(r.unwrap(), Value::BulkString(vec![b'a', b'\n', b'b']));
    assert_eq!(rest, b"+next\r\n");
}
