use btget::{decode, decode_bytes, DecodeError, Value};

#[test]
fn decode_bytes_should_return_an_error_for_unexpected_byte() {
    let byte = b'x';
    let result = decode_bytes(&[byte]).unwrap_err();

    assert_eq!(result, DecodeError::UnexpectedByte((byte, 0)));
}

#[test]
fn decode_bytes_should_return_an_error_for_unexpected_eof() {
    let result = decode_bytes(&[]).unwrap_err();

    assert_eq!(result, DecodeError::UnexpectedEndOfFile);
}

#[test]
fn decode_bytes_should_return_an_error_for_integer_unexpected_byte() {
    let result = decode_bytes("i4x2e".as_bytes()).unwrap_err();

    assert_eq!(result, DecodeError::UnexpectedByte((b'x', 1)));
}

#[test]
fn decode_bytes_should_return_an_error_for_integer_unexpected_eof() {
    let result = decode_bytes("i42".as_bytes()).unwrap_err();

    assert_eq!(result, DecodeError::UnexpectedEndOfFile);
}

#[test]
fn decode_bytes_should_return_an_error_for_unexpected_minus_sign() {
    let result = decode_bytes("i42-".as_bytes()).unwrap_err();

    assert_eq!(result, DecodeError::UnexpectedByte((b'-', 2)));
}

#[test]
fn decode_bytes_should_return_the_integer_value() {
    let (result, _) = decode_bytes("i42e".as_bytes()).unwrap();

    assert_eq!(result, Value::Integer(42));
}

#[test]
fn decode_bytes_should_return_the_0_value() {
    let (result, _) = decode_bytes("i0e".as_bytes()).unwrap();

    assert_eq!(result, Value::Integer(0));
}

#[test]
fn decode_bytes_should_return_a_negative_integer_value() {
    let (result, _) = decode_bytes("i-42e".as_bytes()).unwrap();

    assert_eq!(result, Value::Integer(-42));
}

#[test]
fn decode_bytes_should_return_an_error_for_byte_string_unexpected_byte() {
    let result = decode_bytes("4x:spam".as_bytes()).unwrap_err();

    assert_eq!(result, DecodeError::UnexpectedByte((b'x', 1)));
}

#[test]
fn decode_bytes_should_return_an_error_for_byte_string_unexpected_eof() {
    let result = decode_bytes("4".as_bytes()).unwrap_err();

    assert_eq!(result, DecodeError::UnexpectedEndOfFile);
}

#[test]
fn decode_bytes_should_return_an_error_for_invalid_length() {
    let result = decode_bytes("42:spam".as_bytes()).unwrap_err();

    assert_eq!(result, DecodeError::InvalidByteStringLength((42, 2)));
}

#[test]
fn decode_bytes_should_return_a_0_length_byte_string() {
    let (result, _) = decode_bytes("0:".as_bytes()).unwrap();

    assert_eq!(result, Value::ByteString(Vec::new()));
}

#[test]
fn decode_bytes_should_return_the_byte_string() {
    let (result, _) = decode_bytes("4:spam".as_bytes()).unwrap();

    assert_eq!(result, Value::ByteString("spam".as_bytes().to_vec()));
}

#[test]
fn decode_bytes_should_return_an_error_for_list_unexpected_eof() {
    let result = decode_bytes("l".as_bytes()).unwrap_err();

    assert_eq!(result, DecodeError::UnexpectedEndOfFile);
}

#[test]
fn decode_bytes_should_return_the_list() {
    let (result, _) = decode_bytes("l4:spami42ee".as_bytes()).unwrap();

    assert_eq!(
        result,
        Value::List(Vec::from([
            Value::ByteString("spam".as_bytes().to_vec()),
            Value::Integer(42)
        ]))
    );
}

#[test]
fn encode_should_return_an_encoded_integer() {
    let result = Value::Integer(42).encode();
    assert_eq!(result, "i42e".as_bytes());
}

#[test]
fn encode_should_return_an_encoded_byte_string() {
    let result = Value::ByteString("spam".as_bytes().to_vec()).encode();
    assert_eq!(result, "4:spam".as_bytes());
}

#[test]
fn encode_should_return_an_encoded_list() {
    let result = Value::List(Vec::from([
        Value::ByteString("spam".as_bytes().to_vec()),
        Value::Integer(42),
    ]))
    .encode();
    assert_eq!(result, "l4:spami42ee".as_bytes());
}

#[test]
fn encode_should_return_an_encoded_dictionary() {
    let result = Value::Dictionary(Vec::from([
        (
            "bar".as_bytes().to_vec(),
            Value::ByteString("spam".as_bytes().to_vec()),
        ),
        ("foo".as_bytes().to_vec(), Value::Integer(42)),
    ]))
    .encode();
    assert_eq!(result, "d3:bar4:spam3:fooi42ee".as_bytes());
}

#[test]
fn decode_should_return_the_dictionary_with_sorted_keys() {
    let expected = Value::Dictionary(Vec::from([
        (
            "bar".as_bytes().to_vec(),
            Value::ByteString("spam".as_bytes().to_vec()),
        ),
        ("foo".as_bytes().to_vec(), Value::Integer(42)),
    ]));

    let sorted = decode("d3:bar4:spam3:fooi42ee".as_bytes()).unwrap();
    assert_eq!(sorted, expected);

    // The same entries supplied in the opposite key order decode to the
    // same value, and re-encoding either reproduces the canonical bytes.
    let unsorted = decode("d3:fooi42e3:bar4:spame".as_bytes()).unwrap();
    assert_eq!(unsorted, expected);
    assert_eq!(sorted.encode(), "d3:bar4:spam3:fooi42ee".as_bytes());
    assert_eq!(unsorted.encode(), "d3:bar4:spam3:fooi42ee".as_bytes());
}

#[test]
fn decode_should_replace_the_value_of_a_repeated_key() {
    let result = decode("d1:ai1e1:ai2ee".as_bytes()).unwrap();

    assert_eq!(
        result,
        Value::Dictionary(Vec::from([("a".as_bytes().to_vec(), Value::Integer(2))]))
    );
}

#[test]
fn decode_should_return_an_empty_list_and_an_empty_dictionary() {
    assert_eq!(decode("le".as_bytes()).unwrap(), Value::List(Vec::new()));
    assert_eq!(
        decode("de".as_bytes()).unwrap(),
        Value::Dictionary(Vec::new())
    );
}

#[test]
fn decode_should_return_an_error_for_dictionary_unexpected_eof() {
    let result = decode("d".as_bytes()).unwrap_err();

    assert_eq!(result, DecodeError::UnexpectedEndOfFile);
}

#[test]
fn decode_should_return_an_error_for_a_non_string_dictionary_key() {
    // A key must be a byte string; `i` is not a digit, so the length scan
    // of the key reports it at offset 0 of the key's own span.
    let result = decode("di1e4:spame".as_bytes()).unwrap_err();

    assert_eq!(result, DecodeError::UnexpectedByte((b'i', 0)));
}

#[test]
fn decode_should_accept_lax_integer_forms() {
    // Leading zeros and negative zero are not rejected.
    assert_eq!(decode("i042e".as_bytes()).unwrap(), Value::Integer(42));
    assert_eq!(decode("i-0e".as_bytes()).unwrap(), Value::Integer(0));
}

#[test]
fn decode_should_return_an_error_for_an_empty_integer() {
    assert_eq!(decode("ie".as_bytes()).unwrap_err(), DecodeError::ParseInt);
    assert_eq!(decode("i-e".as_bytes()).unwrap_err(), DecodeError::ParseInt);
}

#[test]
fn decode_should_return_extreme_integer_values() {
    assert_eq!(
        decode("i9223372036854775807e".as_bytes()).unwrap(),
        Value::Integer(isize::MAX)
    );
    assert_eq!(
        decode("i-9223372036854775808e".as_bytes()).unwrap(),
        Value::Integer(isize::MIN)
    );
}

#[test]
fn decode_should_return_an_error_for_an_integer_out_of_range() {
    assert_eq!(
        decode("i9223372036854775808e".as_bytes()).unwrap_err(),
        DecodeError::ParseInt
    );
    assert_eq!(
        decode("i-9223372036854775809e".as_bytes()).unwrap_err(),
        DecodeError::ParseInt
    );
    assert_eq!(
        decode("i99999999999999999999999999999999999999999999e".as_bytes()).unwrap_err(),
        DecodeError::ParseInt
    );
}

#[test]
fn decode_should_return_an_error_for_a_byte_string_length_out_of_range() {
    let result = decode("99999999999999999999999999999999999999999999:x".as_bytes()).unwrap_err();

    assert_eq!(result, DecodeError::ParseInt);
}

#[test]
fn decode_should_return_an_error_inside_a_nested_value() {
    // The offending byte is reported at its offset within the integer's
    // own digit span, as at the top level.
    let result = decode("lli4x2eee".as_bytes()).unwrap_err();

    assert_eq!(result, DecodeError::UnexpectedByte((b'x', 1)));
}

#[test]
fn decode_bytes_should_report_the_consumed_length_and_ignore_trailing_bytes() {
    let (value, consumed) = decode_bytes("4:spamXYZ".as_bytes()).unwrap();

    assert_eq!(value, Value::ByteString("spam".as_bytes().to_vec()));
    assert_eq!(consumed, 6);
    assert_eq!(
        decode("4:spamXYZ".as_bytes()).unwrap(),
        Value::ByteString("spam".as_bytes().to_vec())
    );
}

#[test]
fn encode_then_decode_should_round_trip_a_nested_value() {
    let value = Value::Dictionary(Vec::from([
        (
            "a".as_bytes().to_vec(),
            Value::List(Vec::from([
                Value::Integer(-7),
                Value::ByteString(Vec::from([0u8, 255u8, 10u8])),
            ])),
        ),
        (
            "b".as_bytes().to_vec(),
            Value::Dictionary(Vec::from([(
                "x".as_bytes().to_vec(),
                Value::Integer(0),
            )])),
        ),
    ]));

    let encoded = value.encode();
    let decoded = decode(&encoded).unwrap();
    assert_eq!(decoded, value);
    assert_eq!(decoded.encode(), encoded);
}

#[test]
fn encode_should_return_an_encoded_negative_integer_and_empty_containers() {
    assert_eq!(Value::Integer(-42).encode(), "i-42e".as_bytes());
    assert_eq!(Value::List(Vec::new()).encode(), "le".as_bytes());
    assert_eq!(Value::Dictionary(Vec::new()).encode(), "de".as_bytes());
    assert_eq!(Value::ByteString(Vec::new()).encode(), "0:".as_bytes());
}
