use std::time::{Duration, SystemTime};

use klv::{
    from_bytes, to_bytes, Deserializer, FieldDecl, KLVGlobal, KLVRawReader, Kind, ParseError, Presence,
    RecordDecl, Value,
};

fn field(tag: u8, kind: Kind, presence: Presence) -> FieldDecl {
    FieldDecl { tag, kind, presence }
}

fn required(tag: u8, kind: Kind) -> FieldDecl {
    field(tag, kind, Presence::Required)
}

fn record(name: &[u8], fields: Vec<FieldDecl>) -> RecordDecl {
    RecordDecl { name: name.to_vec(), fields }
}

fn find_subsequence(haystack: &[u8], needle: &[u8]) -> Option<usize> {
    haystack
        .windows(needle.len())
        .position(|window| window == needle)
}

#[test]
fn test_serialize_symmetry_numbers() {
    let decl = record(
        b"TESTDATA00000000",
        vec![
            required(128, Kind::Bool),
            required(10, Kind::U8),
            required(11, Kind::U16),
            required(12, Kind::U32),
            required(13, Kind::U64),
            required(15, Kind::I8),
            required(16, Kind::I16),
            required(17, Kind::I32),
            required(18, Kind::I64),
            required(20, Kind::F32),
            required(21, Kind::F64),
        ],
    );
    let t = vec![
        Some(Value::Bool(true)),
        Some(Value::U8(8)),
        Some(Value::U16(16)),
        Some(Value::U32(32)),
        Some(Value::U64(64)),
        Some(Value::I8(-8)),
        Some(Value::I16(-16)),
        Some(Value::I32(-32)),
        Some(Value::I64(-64)),
        Some(Value::F32(0.1_f32.to_bits())),
        Some(Value::F64((-123.45_f64).to_bits())),
    ];
    let s = to_bytes(&decl, &t).unwrap();
    let x = from_bytes(&decl, &s).unwrap();
    assert_eq!(t, x);
    match &x[9] {
        Some(Value::F32(bits)) => assert_eq!(f32::from_bits(*bits), 0.1),
        other => panic!("unexpected {:?}", other),
    }
    match &x[10] {
        Some(Value::F64(bits)) => assert_eq!(f64::from_bits(*bits), -123.45),
        other => panic!("unexpected {:?}", other),
    }
}

#[test]
fn test_serialize_error_by_key() {
    // Two fields declaring the same tag.
    let same = record(
        b"TESTDATA00000000",
        vec![required(10, Kind::Bool), required(10, Kind::U8)],
    );
    let res = to_bytes(&same, &[Some(Value::Bool(true)), Some(Value::U8(128))]);
    assert_eq!(res, Err(ParseError::DuplicateTag(10)));

    // A name that is not 16 bytes long.
    let no_key = record(b"TestNoUniversalKey", vec![required(10, Kind::Bool)]);
    let res = to_bytes(&no_key, &[Some(Value::Bool(true))]);
    assert_eq!(res, Err(ParseError::InvalidKey));

    // The same fields under another universal key.
    let reference = record(b"TESTDATA00000000", vec![required(10, Kind::Bool)]);
    let other = record(b"TESTDATA00000001", vec![required(10, Kind::Bool)]);
    let bytes = to_bytes(&reference, &[Some(Value::Bool(true))]).unwrap();
    let res = from_bytes(&other, &bytes);
    assert_eq!(res, Err(ParseError::InvalidKey));
}

#[test]
fn test_serialize_str() {
    let decl = record(b"TESTDATA00000000", vec![required(30, Kind::String)]);
    let t = vec![Some(Value::String("this is str\09joi4t@".to_string()))];
    let s = to_bytes(&decl, &t).unwrap();
    let x = from_bytes(&decl, &s).unwrap();
    assert_eq!(t, x);
}

#[test]
fn test_serialize_char() {
    let decl = record(
        b"TESTDATA00000000",
        vec![
            required(30, Kind::Char),
            required(31, Kind::Char),
            required(32, Kind::Char),
        ],
    );
    let t = vec![
        Some(Value::Char('\n')),
        Some(Value::Char(std::char::from_u32(257).unwrap())),
        Some(Value::Char(std::char::from_u32(u16::MAX as u32 + 1).unwrap())),
    ];
    let s = to_bytes(&decl, &t).unwrap();
    let x = from_bytes(&decl, &s).unwrap();
    assert_eq!(t, x);
}

fn string_record() -> RecordDecl {
    record(
        b"TESTDATA00000000",
        vec![
            required(30, Kind::String),
            field(31, Kind::String, Presence::Optional),
            field(32, Kind::String, Presence::Optional),
            field(120, Kind::String, Presence::SkipIfNone),
            field(121, Kind::String, Presence::SkipIfNone),
        ],
    )
}

#[test]
fn test_serialize_optional_string() {
    let decl = string_record();
    let t = vec![
        Some(Value::String("this is String".to_string())),
        Some(Value::String("this is Some".to_string())),
        None,
        None,
        Some(Value::String("none skip".to_string())),
    ];
    let s = to_bytes(&decl, &t).unwrap();
    // an absent value that is not skipped is written with a zero length
    assert!(find_subsequence(&s, &[32, 0]).is_some());
    // an absent value that is skipped leaves no tag at all
    assert!(find_subsequence(&s, &[120, 0]).is_none());
    // a present value is written even where absence would be skipped
    assert!(find_subsequence(&s, &[121, 9]).is_some());
    let x = from_bytes(&decl, &s).unwrap();
    assert_eq!(t, x);
}

#[test]
fn test_serialize_timestamp_micro() {
    let decl = record(
        b"TESTDATA00000000",
        vec![required(30, Kind::String), required(31, Kind::Timestamp)],
    );
    let micros = SystemTime::now()
        .duration_since(SystemTime::UNIX_EPOCH)
        .unwrap()
        .as_micros() as u64;
    let t = vec![
        Some(Value::String("TestTimestamp struct".to_string())),
        Some(Value::Timestamp(micros)),
    ];
    let s = to_bytes(&decl, &t).unwrap();
    let x = from_bytes(&decl, &s).unwrap();
    assert_eq!(t[0], x[0]);
    assert_eq!(x[1], Some(Value::Timestamp(micros)));
}

#[test]
fn test_serialize_non_ascii_universal_key() {
    let decl = record(
        b"\x06\x0e\x2b\x34\x02\x0b\x01\x01\x0e\x01\x0e\x01\x01\x01\x00\x00",
        vec![required(30, Kind::String)],
    );
    let t = vec![Some(Value::String("TestTimestamp struct".to_string()))];
    let s = to_bytes(&decl, &t).unwrap();
    let x = from_bytes(&decl, &s).unwrap();
    assert_eq!(t, x);
}

#[test]
fn test_serialize_bytes_any() {
    let decl = record(
        b"TESTDATA00000000",
        vec![
            required(60, Kind::Bytes),
            required(70, Kind::Bytes),
            required(71, Kind::Unit),
        ],
    );
    let t = vec![
        Some(Value::Bytes(vec![255, 128, 64, 32])),
        Some(Value::Bytes(vec![0, 1, 2, 4, 8, 16, 32, 64])),
        Some(Value::Unit),
    ];
    let s = to_bytes(&decl, &t).unwrap();
    let x = from_bytes(&decl, &s).unwrap();
    assert_eq!(t, x);
}

fn large_u16_record() -> RecordDecl {
    record(
        b"TESTDATA00000000",
        vec![
            required(30, Kind::U16),
            field(31, Kind::U16, Presence::Optional),
            field(32, Kind::U16, Presence::Optional),
            field(120, Kind::U16, Presence::SkipIfNone),
            field(121, Kind::U16, Presence::SkipIfNone),
        ],
    )
}

#[test]
fn test_serialize_asymmetry() {
    let large = large_u16_record();
    let short = record(b"TESTDATA00000000", vec![required(30, Kind::U16)]);
    let t = vec![
        Some(Value::U16(123)),
        Some(Value::U16(345)),
        None,
        None,
        Some(Value::U16(678)),
    ];
    let s = to_bytes(&large, &t).unwrap();
    let x = from_bytes(&short, &s).unwrap();
    assert_eq!(t[0], x[0]);
}

#[test]
fn test_serialize_dump() {
    let decl = record(
        b"TESTDATA00000000",
        vec![
            required(10, Kind::U8),
            required(11, Kind::U64),
            field(31, Kind::U16, Presence::Optional),
            field(32, Kind::U16, Presence::Optional),
            field(120, Kind::U16, Presence::SkipIfNone),
            field(121, Kind::U16, Presence::SkipIfNone),
            required(60, Kind::String),
            required(61, Kind::Bytes),
            required(62, Kind::Timestamp),
        ],
    );
    let ts = SystemTime::UNIX_EPOCH
        .checked_add(Duration::from_micros(1_000_233_000))
        .unwrap()
        .duration_since(SystemTime::UNIX_EPOCH)
        .unwrap()
        .as_micros() as u64;
    let t = vec![
        Some(Value::U8(127)),
        Some(Value::U64(u32::MAX as u64 + 1)),
        Some(Value::U16(1016)),
        None,
        Some(Value::U16(2016)),
        None,
        Some(Value::String("this is string".to_string())),
        Some(Value::Bytes(b"this is byte".to_vec())),
        Some(Value::Timestamp(ts)),
    ];
    let s = to_bytes(&decl, &t).unwrap();
    let x = KLVGlobal::try_from_bytes(&s).ok().unwrap();

    assert_eq!(x.key(), "TESTDATA00000000".as_bytes());
    assert!(!x.content().is_empty());

    let mut r = KLVRawReader::from_bytes(x.content());
    let mut tags = vec![];
    while let Some(v) = r.next() {
        println!("{:?}", v);
        tags.push(v.key());
    }
    assert_eq!(tags, vec![10, 11, 31, 32, 120, 60, 61, 62]);
}

#[test]
fn reflective_exact_bytes() {
    let decl = record(
        b"TESTDATA00000000",
        vec![required(5, Kind::U16), field(6, Kind::U8, Presence::Optional)],
    );
    let s = to_bytes(&decl, &[Some(Value::U16(0x0102)), None]).unwrap();
    let mut expect = b"TESTDATA00000000".to_vec();
    expect.extend_from_slice(&[6, 5, 2, 1, 2, 6, 0]);
    assert_eq!(s, expect);
}

#[test]
fn reflective_decode_errors() {
    let decl = record(
        b"TESTDATA00000000",
        vec![required(5, Kind::U16), required(6, Kind::U8)],
    );
    let mut frame = b"TESTDATA00000000".to_vec();
    frame.extend_from_slice(&[4, 5, 2, 1, 2]);
    assert_eq!(from_bytes(&decl, &frame), Err(ParseError::MissingField(6)));

    let mut frame = b"TESTDATA00000000".to_vec();
    frame.extend_from_slice(&[4, 5, 1, 1, 2]);
    assert_eq!(from_bytes(&decl, &frame), Err(ParseError::UnexpectedLength(1)));

    let mut frame = b"TESTDATA00000000".to_vec();
    frame.extend_from_slice(&[7, 5, 2, 1, 2, 6, 1, 9, 0xAB]);
    assert_eq!(from_bytes(&decl, &frame), Err(ParseError::TrailingBytes));

    let mut frame = b"TESTDATA00000000".to_vec();
    frame.extend_from_slice(&[9, 5, 2, 1, 2]);
    assert_eq!(from_bytes(&decl, &frame), Err(ParseError::BufferTooShort));

    let mut frame = b"TESTDATA00000000".to_vec();
    frame.extend_from_slice(&[0x80, 5, 2, 1, 2]);
    assert_eq!(from_bytes(&decl, &frame), Err(ParseError::UnsupportedLength));

    let text = record(b"TESTDATA00000000", vec![required(1, Kind::String)]);
    let mut frame = b"TESTDATA00000000".to_vec();
    frame.extend_from_slice(&[3, 1, 1, 0xFF]);
    assert_eq!(from_bytes(&text, &frame), Err(ParseError::Encoding));

    assert_eq!(from_bytes(&text, b"TESTDATA"), Err(ParseError::BufferTooShort));
}

#[test]
fn reflective_unknown_tags_are_skipped() {
    let decl = record(b"TESTDATA00000000", vec![required(6, Kind::U8)]);
    let mut frame = b"TESTDATA00000000".to_vec();
    frame.extend_from_slice(&[8, 99, 0x81, 2, 7, 7, 6, 1, 42]);
    assert_eq!(from_bytes(&decl, &frame), Ok(vec![Some(Value::U8(42))]));
}

#[test]
fn reflective_narrowing_keeps_chosen_fields() {
    let large = large_u16_record();
    let t = vec![
        Some(Value::U16(123)),
        Some(Value::U16(345)),
        None,
        None,
        Some(Value::U16(678)),
    ];
    let s = to_bytes(&large, &t).unwrap();
    let narrow = record(
        b"TESTDATA00000000",
        vec![
            field(121, Kind::U16, Presence::SkipIfNone),
            field(120, Kind::U16, Presence::SkipIfNone),
            required(30, Kind::U16),
        ],
    );
    let y = from_bytes(&narrow, &s).unwrap();
    assert_eq!(y, vec![Some(Value::U16(678)), None, Some(Value::U16(123))]);
    let again = to_bytes(&narrow, &y).unwrap();
    let mut expect = b"TESTDATA00000000".to_vec();
    expect.extend_from_slice(&[8, 121, 2, 0x02, 0xA6, 30, 2, 0, 123]);
    assert_eq!(again, expect);
}

#[test]
fn deserializer_reads_consecutive_frames() {
    let first = record(b"TESTDATA00000000", vec![required(1, Kind::U8)]);
    let second = record(b"TESTDATA00000001", vec![required(2, Kind::U16)]);
    let mut input = to_bytes(&first, &[Some(Value::U8(7))]).unwrap();
    input.extend(to_bytes(&second, &[Some(Value::U16(300))]).unwrap());
    let mut de = Deserializer::from_bytes(&input);
    assert_eq!(de.deserialize_struct(&first), Ok(vec![Some(Value::U8(7))]));
    assert_eq!(de.deserialize_struct(&first), Err(ParseError::InvalidKey));
    assert_eq!(de.deserialize_struct(&second), Ok(vec![Some(Value::U16(300))]));
    assert_eq!(de.deserialize_struct(&second), Err(ParseError::BufferTooShort));
}
