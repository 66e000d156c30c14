use graphdb::codec::{
    decode_term, encode_term, encode_term_pair, encode_term_quad, encode_term_triple, read_term,
    DurationValue, EncodedTerm, Timestamp,
};
use graphdb::error::DecodeError;
use graphdb::model::{SmallString, StrHash};

fn small(s: &str) -> SmallString {
    SmallString::from_str(s).unwrap()
}

fn hash(v: u128) -> StrHash {
    StrHash { hash: v }
}

fn all_variants() -> Vec<(EncodedTerm, u8, usize)> {
    let ts = Timestamp { value: -1234567890123456789, timezone: 60 };
    vec![
        (EncodedTerm::NamedNode { iri_id: hash(0x0102_0304_0506_0708_090a_0b0c_0d0e_0f10) }, 1, 17),
        (EncodedTerm::NumericalBlankNode { id: 7 }, 8, 17),
        (EncodedTerm::SmallBlankNode(small("b0")), 9, 17),
        (EncodedTerm::BigBlankNode { id_id: hash(99) }, 10, 17),
        (EncodedTerm::SmallStringLiteral(small("hello")), 16, 17),
        (EncodedTerm::BigStringLiteral { value_id: hash(u128::MAX) }, 17, 17),
        (
            EncodedTerm::SmallSmallLangStringLiteral { value: small("x"), language: small("en") },
            20,
            33,
        ),
        (EncodedTerm::SmallBigLangStringLiteral { value: small("x"), language_id: hash(5) }, 21, 33),
        (EncodedTerm::BigSmallLangStringLiteral { value_id: hash(6), language: small("fr") }, 22, 33),
        (EncodedTerm::BigBigLangStringLiteral { value_id: hash(6), language_id: hash(5) }, 23, 33),
        (EncodedTerm::SmallTypedLiteral { value: small("v"), datatype_id: hash(3) }, 24, 33),
        (EncodedTerm::BigTypedLiteral { value_id: hash(4), datatype_id: hash(3) }, 25, 33),
        (EncodedTerm::BooleanLiteral(true), 28, 1),
        (EncodedTerm::BooleanLiteral(false), 29, 1),
        (EncodedTerm::FloatLiteral { bits: 1.5f32.to_bits() }, 30, 5),
        (EncodedTerm::DoubleLiteral { bits: (-2.25f64).to_bits() }, 31, 9),
        (EncodedTerm::IntegerLiteral(-42), 32, 9),
        (EncodedTerm::DecimalLiteral { value: i128::MIN }, 33, 17),
        (EncodedTerm::DateTimeLiteral(ts), 34, 19),
        (EncodedTerm::TimeLiteral(ts), 35, 19),
        (EncodedTerm::DateLiteral(ts), 36, 19),
        (EncodedTerm::GYearMonthLiteral(ts), 37, 19),
        (EncodedTerm::GYearLiteral(ts), 38, 19),
        (EncodedTerm::GMonthDayLiteral(ts), 39, 19),
        (EncodedTerm::GDayLiteral(ts), 40, 19),
        (EncodedTerm::GMonthLiteral(ts), 41, 19),
        (EncodedTerm::DurationLiteral(DurationValue { months: -14, seconds: 3_600_000 }), 42, 25),
        (EncodedTerm::YearMonthDurationLiteral { months: i64::MAX }, 43, 9),
        (EncodedTerm::DayTimeDurationLiteral { seconds: -1 }, 44, 17),
    ]
}

#[test]
fn every_variant_round_trips() {
    for (term, _, _) in all_variants() {
        let bytes = encode_term(term);
        assert_eq!(decode_term(&bytes), Ok(term));
        assert_eq!(EncodedTerm::from_bytes(&bytes), term);
        assert_eq!(term.to_bytes(), bytes);
    }
}

#[test]
fn tag_bytes_and_widths_follow_the_table() {
    for (term, tag, len) in all_variants() {
        let bytes = encode_term(term);
        assert_eq!(bytes[0], tag, "tag of {:?}", term);
        assert_eq!(bytes.len(), len, "length of {:?}", term);
    }
}

#[test]
fn default_graph_encodes_to_nothing() {
    assert!(encode_term(EncodedTerm::DefaultGraph).is_empty());
}

#[test]
fn payloads_are_big_endian() {
    let bytes = encode_term(EncodedTerm::IntegerLiteral(42));
    assert_eq!(bytes, vec![32, 0, 0, 0, 0, 0, 0, 0, 42]);
    let bytes = encode_term(EncodedTerm::IntegerLiteral(-1));
    assert_eq!(bytes, vec![32, 255, 255, 255, 255, 255, 255, 255, 255]);
    let bytes = encode_term(EncodedTerm::NamedNode { iri_id: hash(0x0102) });
    let mut expected = vec![1u8];
    expected.extend_from_slice(&[0; 14]);
    expected.extend_from_slice(&[1, 2]);
    assert_eq!(bytes, expected);
}

#[test]
fn language_and_datatype_precede_the_value() {
    let bytes = encode_term(EncodedTerm::SmallSmallLangStringLiteral {
        value: small("x"),
        language: small("en"),
    });
    assert_eq!(&bytes[1..4], &[2, b'e', b'n']);
    assert_eq!(&bytes[17..19], &[1, b'x']);
    let bytes = encode_term(EncodedTerm::SmallTypedLiteral { value: small("v"), datatype_id: hash(3) });
    assert_eq!(bytes[16], 3);
    assert_eq!(&bytes[17..19], &[1, b'v']);
}

#[test]
fn small_string_layout_is_length_then_content() {
    let s = small("abc");
    let mut expected = [0u8; 16];
    expected[0] = 3;
    expected[1..4].copy_from_slice(b"abc");
    assert_eq!(s.to_be_bytes(), expected);
    assert_eq!(s.to_string(), "abc");
}

#[test]
fn small_string_rejects_sixteen_bytes() {
    assert!(SmallString::from_str("abcdefghijklmno").is_some());
    assert!(SmallString::from_str("abcdefghijklmnop").is_none());
}

#[test]
fn unknown_tag_is_corrupt() {
    assert_eq!(decode_term(&[2, 0, 0]), Err(DecodeError::CorruptData));
    assert_eq!(decode_term(&[0]), Err(DecodeError::CorruptData));
    assert_eq!(decode_term(&[45]), Err(DecodeError::CorruptData));
}

#[test]
fn empty_and_truncated_buffers_are_corrupt() {
    assert_eq!(decode_term(&[]), Err(DecodeError::CorruptData));
    let bytes = encode_term(EncodedTerm::IntegerLiteral(7));
    assert_eq!(decode_term(&bytes[..8]), Err(DecodeError::CorruptData));
    let bytes = encode_term(EncodedTerm::NamedNode { iri_id: hash(1) });
    assert_eq!(decode_term(&bytes[..16]), Err(DecodeError::CorruptData));
}

#[test]
fn malformed_small_strings_are_corrupt() {
    let mut bytes = vec![16u8; 17];
    bytes[1] = 16;
    assert_eq!(decode_term(&bytes), Err(DecodeError::CorruptData));
    let mut bytes = vec![0u8; 17];
    bytes[0] = 16;
    bytes[1] = 2;
    bytes[2] = 0xff;
    bytes[3] = 0xfe;
    assert_eq!(decode_term(&bytes), Err(DecodeError::CorruptData));
}

#[test]
fn small_string_padding_is_ignored_on_read() {
    let mut bytes = vec![0u8; 17];
    bytes[0] = 16;
    bytes[1] = 1;
    bytes[2] = b'a';
    bytes[10] = 9;
    assert_eq!(decode_term(&bytes), Ok(EncodedTerm::SmallStringLiteral(small("a"))));
}

#[test]
fn read_term_reports_the_next_position() {
    let a = EncodedTerm::BooleanLiteral(true);
    let b = EncodedTerm::IntegerLiteral(5);
    let bytes = encode_term_pair(a, b);
    assert_eq!(read_term(&bytes, 0), Ok((a, 1)));
    assert_eq!(read_term(&bytes, 1), Ok((b, 10)));
    assert_eq!(read_term(&bytes, 10), Err(DecodeError::CorruptData));
}

#[test]
fn concatenated_encodings() {
    let a = EncodedTerm::NamedNode { iri_id: hash(1) };
    let b = EncodedTerm::NamedNode { iri_id: hash(2) };
    let c = EncodedTerm::SmallStringLiteral(small("c"));
    let d = EncodedTerm::NamedNode { iri_id: hash(4) };
    let mut expected = encode_term(a);
    expected.extend(encode_term(b));
    assert_eq!(encode_term_pair(a, b), expected);
    expected.extend(encode_term(c));
    assert_eq!(encode_term_triple(a, b, c), expected);
    expected.extend(encode_term(d));
    assert_eq!(encode_term_quad(a, b, c, d), expected);
}

#[test]
fn str_hash_bytes_round_trip() {
    let h = hash(0x00ff_1234_5678_9abc_def0_1122_3344_5566);
    let bytes = h.to_be_bytes();
    assert_eq!(bytes[0], 0x00);
    assert_eq!(bytes[1], 0xff);
    assert_eq!(bytes[15], 0x66);
    assert_eq!(StrHash::from_be_bytes(bytes), h);
}

#[test]
fn str_hash_depends_on_content() {
    assert_eq!(StrHash::new("http://example.org/a"), StrHash::new("http://example.org/a"));
    assert_ne!(StrHash::new("http://example.org/a"), StrHash::new("http://example.org/b"));
    assert_ne!(StrHash::new("").hash, 0);
}
