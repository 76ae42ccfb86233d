use bittorrent::bencode::{BencodeByteString, BencodeDictionary, BencodeValue};
use bittorrent::grammar::DecodeError;

#[test]
fn parse_integer() {
    {
        // Positive integer
        let input = "i42e";
        let (rest, value) = BencodeValue::from_str(input).unwrap();
        assert!(rest.is_empty());
        assert_eq!(value, BencodeValue::Integer(42));
    }

    {
        // Zero
        let input = "i0e";
        let (rest, value) = BencodeValue::from_str(input).unwrap();
        assert!(rest.is_empty());
        assert_eq!(value, BencodeValue::Integer(0));
    }

    {
        // Negative integer
        let input = "i-123e";
        let (rest, value) = BencodeValue::from_str(input).unwrap();
        assert!(rest.is_empty());
        assert_eq!(value, BencodeValue::Integer(-123));
    }

    {
        // Missing end delimiter
        let input = "i42";
        let result = BencodeValue::from_str(input);
        assert!(result.is_err());
    }
}

#[test]
fn parse_byte_string() {
    {
        // Normal string
        let input = "5:hello";
        let (rest, value) = BencodeValue::from_str(input).unwrap();
        assert!(rest.is_empty());
        assert_eq!(value, BencodeValue::ByteString(BencodeByteString(b"hello")));
    }

    {
        // Non utf-8 string
        let input = b"1:\xEF";
        let (rest, value) = BencodeValue::from_bytes(input).unwrap();
        assert!(rest.is_empty());
        assert_eq!(value, BencodeValue::ByteString(BencodeByteString(b"\xEF")));
    }

    {
        let input = "5:foo";
        let result = BencodeValue::from_str(input);
        assert!(result.is_err());
    }

    {
        let input = "5";
        let result = BencodeValue::from_str(input);
        assert!(result.is_err());
    }
}

#[test]
fn parse_list() {
    {
        // Normal list
        let input = "l4:spami42ee";
        let (rest, value) = BencodeValue::from_str(input).unwrap();
        assert!(rest.is_empty());
        assert_eq!(
            value,
            BencodeValue::List(vec![
                BencodeValue::ByteString(BencodeByteString(b"spam")),
                BencodeValue::Integer(42),
            ])
        );
    }

    {
        // Nested list
        let input = "l4:spaml3:fooi0eei42ee";
        let (rest, value) = BencodeValue::from_str(input).unwrap();
        assert!(rest.is_empty());
        assert_eq!(
            value,
            BencodeValue::List(vec![
                BencodeValue::ByteString(BencodeByteString(b"spam")),
                BencodeValue::List(vec![
                    BencodeValue::ByteString(BencodeByteString(b"foo")),
                    BencodeValue::Integer(0),
                ]),
                BencodeValue::Integer(42),
            ])
        );
    }

    {
        // Missing end delimiter
        let input = "l4:spami42e";
        let result = BencodeValue::from_str(input);
        assert!(result.is_err());
    }
}

#[test]
fn parse_dictionary() {
    {
        // Normal dictionary
        let input = "d3:bar4:spam3:fooi42ee";
        let (rest, value) = BencodeValue::from_str(input).unwrap();
        assert!(rest.is_empty());
        let mut expected = BencodeDictionary::new();
        expected.insert(
            BencodeByteString(b"bar"),
            BencodeValue::ByteString(BencodeByteString(b"spam")),
        );
        expected.insert(BencodeByteString(b"foo"), BencodeValue::Integer(42));
        assert_eq!(value, BencodeValue::Dictionary(expected));
    }

    {
        // Non-byte string key
        let input = "di42e3:fooe";
        let result = BencodeValue::from_str(input);
        assert!(result.is_err());
    }

    {
        // Missing end delimiter
        let input = "d4:spami42";
        let result = BencodeValue::from_str(input);
        assert!(result.is_err());
    }
}

#[test]
fn decode_errors_are_told_apart() {
    assert_eq!(BencodeValue::from_bytes(b"").unwrap_err(), DecodeError::EmptyInput);
    assert_eq!(BencodeValue::from_bytes(b"x").unwrap_err(), DecodeError::InvalidLeadingByte);
    assert_eq!(BencodeValue::from_bytes(b"i42").unwrap_err(), DecodeError::MissingTerminator);
    assert_eq!(BencodeValue::from_bytes(b"5").unwrap_err(), DecodeError::MissingTerminator);
    assert_eq!(BencodeValue::from_bytes(b"l").unwrap_err(), DecodeError::MissingTerminator);
    assert_eq!(BencodeValue::from_bytes(b"d").unwrap_err(), DecodeError::MissingTerminator);
    assert_eq!(BencodeValue::from_bytes(b"5:foo").unwrap_err(), DecodeError::LengthExceedsInput);
    assert_eq!(
        BencodeValue::from_bytes(b"99999999999999999999999999:a").unwrap_err(),
        DecodeError::LengthExceedsInput
    );
    assert_eq!(BencodeValue::from_bytes(b"5x:hello").unwrap_err(), DecodeError::InvalidNumber);
    assert_eq!(BencodeValue::from_bytes(b"ie").unwrap_err(), DecodeError::InvalidNumber);
    assert_eq!(BencodeValue::from_bytes(b"i-e").unwrap_err(), DecodeError::InvalidNumber);
    assert_eq!(BencodeValue::from_bytes(b"i+5e").unwrap_err(), DecodeError::InvalidNumber);
    assert_eq!(BencodeValue::from_bytes(b"i1-2e").unwrap_err(), DecodeError::InvalidNumber);
    assert_eq!(
        BencodeValue::from_bytes(b"i9223372036854775808e").unwrap_err(),
        DecodeError::InvalidNumber
    );
    assert_eq!(BencodeValue::from_bytes(b"di42e3:fooe").unwrap_err(), DecodeError::NonStringKey);
    assert_eq!(BencodeValue::from_str("1:\u{e9}").unwrap_err(), DecodeError::RestNotText);
}

#[test]
fn integers_at_the_limits() {
    let (_, value) = BencodeValue::from_bytes(b"i9223372036854775807e").unwrap();
    assert_eq!(value, BencodeValue::Integer(i64::MAX));
    let (_, value) = BencodeValue::from_bytes(b"i-9223372036854775808e").unwrap();
    assert_eq!(value, BencodeValue::Integer(i64::MIN));
    assert_eq!(value.to_bytes(), b"i-9223372036854775808e".to_vec());
    let (_, value) = BencodeValue::from_bytes(b"i-1e").unwrap();
    assert_eq!(value, BencodeValue::Integer(-1));
    // leading zeros and a negative zero are read
    let (_, value) = BencodeValue::from_bytes(b"i007e").unwrap();
    assert_eq!(value, BencodeValue::Integer(7));
    let (_, value) = BencodeValue::from_bytes(b"i-0e").unwrap();
    assert_eq!(value, BencodeValue::Integer(0));
    assert_eq!(value.to_bytes(), b"i0e".to_vec());
}

#[test]
fn rest_is_returned() {
    let (rest, value) = BencodeValue::from_bytes(b"4:spamXYZ").unwrap();
    assert_eq!(rest, b"XYZ");
    assert_eq!(value, BencodeValue::ByteString(BencodeByteString(b"spam")));
    let (rest, value) = BencodeValue::from_str("i42etail").unwrap();
    assert_eq!(rest, "tail");
    assert_eq!(value, BencodeValue::Integer(42));
    let (rest, value) = BencodeValue::from_bytes(b"0:").unwrap();
    assert!(rest.is_empty());
    assert_eq!(value, BencodeValue::ByteString(BencodeByteString(b"")));
}

#[test]
fn dictionary_is_sorted_and_later_keys_win() {
    let (rest, value) = BencodeValue::from_bytes(b"d3:fooi1e3:bari2e3:fooi3ee").unwrap();
    assert!(rest.is_empty());
    let d = value.as_dictionary().unwrap();
    assert_eq!(d.len(), 2);
    assert_eq!(d.key_at(0).0, b"bar");
    assert_eq!(d.value_at(0), &BencodeValue::Integer(2));
    assert_eq!(d.key_at(1).0, b"foo");
    assert_eq!(d.value_at(1), &BencodeValue::Integer(3));
    assert_eq!(d.get(b"foo"), Some(&BencodeValue::Integer(3)));
    assert_eq!(d.get(b"fo"), None);
    assert_eq!(value.to_bytes(), b"d3:bari2e3:fooi3ee".to_vec());
}

#[test]
fn prefix_key_sorts_first() {
    let (_, value) = BencodeValue::from_bytes(b"d2:abi1e1:ai2e1:bi3e0:i4ee").unwrap();
    assert_eq!(value.to_bytes(), b"d0:i4e1:ai2e2:abi1e1:bi3ee".to_vec());
}

#[test]
fn encode_then_decode_gives_the_value_back() {
    let inputs: Vec<&[u8]> = vec![
        b"i0e",
        b"i-1e",
        b"i42e",
        b"5:hello",
        b"1:\xEF",
        b"l4:spami42ee",
        b"l4:spaml3:fooi0eei42ee",
        b"d3:bar4:spam3:fooi42ee",
        b"d1:ad1:bl1:ci-7eee1:zlee",
        b"le",
        b"de",
    ];
    for input in inputs {
        let (rest, value) = BencodeValue::from_bytes(input).unwrap();
        assert!(rest.is_empty());
        let bytes = value.to_bytes();
        assert_eq!(bytes, input.to_vec());
        let (rest, again) = BencodeValue::from_bytes(&bytes).unwrap();
        assert!(rest.is_empty());
        assert_eq!(again, value);
    }
}

#[test]
fn accessors_tell_the_kinds_apart() {
    let (_, value) = BencodeValue::from_bytes(b"l4:spami42edee").unwrap();
    let items = value.as_list().unwrap();
    assert_eq!(items.len(), 3);
    assert_eq!(items[0].as_byte_string().unwrap().0, b"spam");
    assert_eq!(items[1].as_integer(), Some(&42));
    assert_eq!(items[2].as_dictionary().unwrap().len(), 0);
    assert!(items[0].as_integer().is_none());
    assert!(items[1].as_byte_string().is_none());
    assert!(items[1].as_list().is_none());
    assert!(value.as_dictionary().is_none());
}

#[test]
fn values_for_a_reader() {
    let (_, value) = BencodeValue::from_bytes(b"d3:bar4:spam3:fooi42ee").unwrap();
    assert_eq!(value.to_text(), "{\"bar\":\"spam\",\"foo\":42}");
    let (_, value) = BencodeValue::from_bytes(b"l4:spaml3:fooi0eei-42ee").unwrap();
    assert_eq!(value.to_text(), "[\"spam\",[\"foo\",0],-42]");
    let (_, value) = BencodeValue::from_bytes(b"le").unwrap();
    assert_eq!(value.to_text(), "[]");
    let (_, value) = BencodeValue::from_bytes(b"de").unwrap();
    assert_eq!(value.to_text(), "{}");
    let (_, value) = BencodeValue::from_bytes(b"3:\xEF\x00\xff").unwrap();
    assert_eq!(value.to_text(), "[239, 0, 255]");
    let (_, value) = BencodeValue::from_bytes(b"1:\xEF").unwrap();
    assert_eq!(value.to_text(), "[239]");
    let (_, value) = BencodeValue::from_bytes(b"5:a\"b\\c").unwrap();
    assert_eq!(value.to_text(), "\"a\\\"b\\\\c\"");
    assert_eq!(BencodeByteString(b"hello").to_text(), "\"hello\"");
    assert_eq!(BencodeByteString(b"").to_text(), "\"\"");
    let (_, value) = BencodeValue::from_bytes(b"i-9223372036854775808e").unwrap();
    assert_eq!(value.to_text(), "-9223372036854775808");
}
