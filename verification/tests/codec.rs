use bittorrent::decode::Parser;
use bittorrent::encode::Encoder;
use bittorrent::error::BencodeError;
use bittorrent::value::BencodeValue;

fn decode_all(input: &[u8]) -> Result<BencodeValue, BencodeError> {
    let mut parser = Parser::new(input);
    parser.parse()
}

#[test]
fn string_exactness() {
    let v = decode_all(b"4:spam").unwrap();
    assert_eq!(v, BencodeValue::BString(vec![b's', b'p', b'a', b'm']));
    let empty = decode_all(b"0:").unwrap();
    assert_eq!(empty, BencodeValue::BString(Vec::new()));
}

#[test]
fn string_with_raw_bytes() {
    let v = decode_all(&[b'3', b':', 0x00, 0xff, 0x7f]).unwrap();
    assert_eq!(v, BencodeValue::BString(vec![0x00, 0xff, 0x7f]));
}

#[test]
fn integer_boundaries() {
    assert_eq!(decode_all(b"i0e").unwrap(), BencodeValue::BInteger(0));
    assert_eq!(decode_all(b"i-3e").unwrap(), BencodeValue::BInteger(-3));
    assert_eq!(
        decode_all(b"i3.5e"),
        Err(BencodeError::MalformedEncoding(1))
    );
}

#[test]
fn integer_limits() {
    assert_eq!(
        decode_all(b"i9223372036854775807e").unwrap(),
        BencodeValue::BInteger(i64::MAX)
    );
    assert_eq!(
        decode_all(b"i-9223372036854775808e").unwrap(),
        BencodeValue::BInteger(i64::MIN)
    );
    assert_eq!(
        decode_all(b"i9223372036854775808e"),
        Err(BencodeError::MalformedEncoding(1))
    );
    assert_eq!(
        decode_all(b"i-9223372036854775809e"),
        Err(BencodeError::MalformedEncoding(1))
    );
}

#[test]
fn integer_lenient_forms() {
    // leading zeros and a signed zero are accepted
    assert_eq!(decode_all(b"i007e").unwrap(), BencodeValue::BInteger(7));
    assert_eq!(decode_all(b"i-0e").unwrap(), BencodeValue::BInteger(0));
    // an empty token or a bare minus is not
    assert_eq!(decode_all(b"ie"), Err(BencodeError::MalformedEncoding(1)));
    assert_eq!(decode_all(b"i-e"), Err(BencodeError::MalformedEncoding(1)));
}

#[test]
fn list_of_strings() {
    let v = decode_all(b"l4:spam4:eggse").unwrap();
    assert_eq!(
        v,
        BencodeValue::BList(vec![
            BencodeValue::BString(b"spam".to_vec()),
            BencodeValue::BString(b"eggs".to_vec()),
        ])
    );
}

#[test]
fn nested_dictionary_keeps_order() {
    let v = decode_all(b"d3:cow3:moo4:spam4:eggse").unwrap();
    assert_eq!(
        v,
        BencodeValue::BDictionary(vec![
            (b"cow".to_vec(), BencodeValue::BString(b"moo".to_vec())),
            (b"spam".to_vec(), BencodeValue::BString(b"eggs".to_vec())),
        ])
    );
}

#[test]
fn decode_determinism() {
    let input: &[u8] = b"d3:cow3:moo4:listl4:spami-7eee";
    let first = decode_all(input).unwrap();
    let second = decode_all(input).unwrap();
    assert_eq!(first, second);
}

#[test]
fn decode_then_encode_reproduces_bytes() {
    let input: &[u8] = b"d3:cow3:moo4:spaml4:eggsi42eee";
    let v = decode_all(input).unwrap();
    let mut encoder = Encoder::new();
    encoder.encode(&v).unwrap();
    assert_eq!(encoder.buf, input.to_vec());
}

#[test]
fn decode_consumes_exactly_one_value() {
    let mut parser = Parser::new(b"i1e4:spam");
    assert_eq!(parser.parse().unwrap(), BencodeValue::BInteger(1));
    assert_eq!(
        parser.parse().unwrap(),
        BencodeValue::BString(b"spam".to_vec())
    );
}

#[test]
fn truncated_inputs_report_eof() {
    assert_eq!(decode_all(b""), Err(BencodeError::UnexpectedEof));
    assert_eq!(decode_all(b"4:sp"), Err(BencodeError::UnexpectedEof));
    assert_eq!(decode_all(b"i42"), Err(BencodeError::UnexpectedEof));
    assert_eq!(decode_all(b"l4:spam"), Err(BencodeError::UnexpectedEof));
    assert_eq!(decode_all(b"d3:cow"), Err(BencodeError::UnexpectedEof));
}

#[test]
fn malformed_leading_byte() {
    assert_eq!(decode_all(b"x"), Err(BencodeError::MalformedEncoding(0)));
    assert_eq!(decode_all(b"e"), Err(BencodeError::MalformedEncoding(0)));
}

#[test]
fn malformed_length_token() {
    assert_eq!(
        decode_all(b"2x:ab"),
        Err(BencodeError::MalformedEncoding(0))
    );
}

#[test]
fn dictionary_key_must_be_string() {
    assert_eq!(
        decode_all(b"di1e4:spame"),
        Err(BencodeError::InvalidKeyType(1))
    );
}

#[test]
fn nesting_depth_is_bounded() {
    let mut deep_ok = Vec::new();
    for _ in 0..512 {
        deep_ok.push(b'l');
    }
    deep_ok.extend_from_slice(b"i1e");
    for _ in 0..512 {
        deep_ok.push(b'e');
    }
    assert!(decode_all(&deep_ok).is_ok());

    let mut too_deep = Vec::new();
    for _ in 0..513 {
        too_deep.push(b'l');
    }
    too_deep.extend_from_slice(b"i1e");
    for _ in 0..513 {
        too_deep.push(b'e');
    }
    assert_eq!(
        decode_all(&too_deep),
        Err(BencodeError::MalformedEncoding(512))
    );
}

#[test]
fn parse_number_reads_digits_to_terminator() {
    let mut parser = Parser::new(b"42e");
    assert_eq!(parser.parse_number().unwrap(), 42);
}

#[test]
fn parse_string_len_reads_digits_to_colon() {
    let mut parser = Parser::new(b"17:");
    assert_eq!(parser.parse_string_len(b'1').unwrap(), 17);
}

#[test]
fn parse_bytes_copies_verbatim() {
    let mut parser = Parser::new(b"hello");
    assert_eq!(parser.parse_bytes(4).unwrap(), b"hell".to_vec());
    assert_eq!(parser.parse_bytes(2), Err(BencodeError::UnexpectedEof));
}

#[test]
fn parse_list_entry_point() {
    let mut parser = Parser::new(b"4:spam4:eggse");
    let v = parser.parse_list().unwrap();
    assert_eq!(
        v,
        BencodeValue::BList(vec![
            BencodeValue::BString(b"spam".to_vec()),
            BencodeValue::BString(b"eggs".to_vec()),
        ])
    );
}

#[test]
fn parse_dictionary_entry_point() {
    let mut parser = Parser::new(b"3:cow3:mooe");
    let v = parser.parse_dictionary().unwrap();
    assert_eq!(
        v,
        BencodeValue::BDictionary(vec![(
            b"cow".to_vec(),
            BencodeValue::BString(b"moo".to_vec())
        )])
    );
}

#[test]
fn encode_integer_forms() {
    let mut encoder = Encoder::new();
    encoder.encode_integer(-42).unwrap();
    encoder.encode_integer(0).unwrap();
    encoder.encode_integer(i64::MIN).unwrap();
    assert_eq!(encoder.buf, b"i-42ei0ei-9223372036854775808e".to_vec());
}

#[test]
fn encode_string_form() {
    let mut encoder = Encoder::new();
    encoder.encode_string(&b"spam".to_vec()).unwrap();
    encoder.encode_string(&Vec::new()).unwrap();
    assert_eq!(encoder.buf, b"4:spam0:".to_vec());
}

#[test]
fn encode_empty_containers() {
    let mut encoder = Encoder::new();
    encoder.encode_list(&Vec::new()).unwrap();
    encoder.encode_dictionary(&Vec::new()).unwrap();
    assert_eq!(encoder.buf, b"lede".to_vec());
}

#[test]
fn encode_nested_value() {
    let v = BencodeValue::BDictionary(vec![(
        b"k".to_vec(),
        BencodeValue::BList(vec![
            BencodeValue::BInteger(1),
            BencodeValue::BString(b"a".to_vec()),
        ]),
    )]);
    let mut encoder = Encoder::new();
    encoder.encode(&v).unwrap();
    assert_eq!(encoder.buf, b"d1:kli1e1:aee".to_vec());
}

#[test]
fn encode_sha1_of_empty_input() {
    let encoder = Encoder::new();
    let mut digest = [0u8; 20];
    let hex = encoder.encode_sha1(&mut digest);
    assert_eq!(hex, "da39a3ee5e6b4b0d3255bfef95601890afd80709");
    assert_eq!(
        digest.to_vec(),
        vec![
            0xda, 0x39, 0xa3, 0xee, 0x5e, 0x6b, 0x4b, 0x0d, 0x32, 0x55, 0xbf, 0xef, 0x95, 0x60,
            0x18, 0x90, 0xaf, 0xd8, 0x07, 0x09
        ]
    );
}

#[test]
fn encode_sha1_of_known_bytes() {
    let mut encoder = Encoder::new();
    encoder.buf = b"abc".to_vec();
    let mut digest = [0u8; 20];
    let hex = encoder.encode_sha1(&mut digest);
    assert_eq!(hex, "a9993e364706816aba3e25717850c26c9cd0d89d");
    assert_eq!(digest[0], 0xa9);
    assert_eq!(digest[19], 0x9d);
}
