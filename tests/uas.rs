use std::time::SystemTime;

use klv::{
    decode_uasdls, encode, encode_len, encode_uasdls, write_global, KLVGlobal, KLVReader, Kind, ParseError, UASDataset, Value, KLV,
    LS_UNIVERSAL_KEY0601_8_10,
};

/// Microseconds since the Unix epoch of a UTC date and time.
fn utc_micros(y: i64, m: i64, d: i64, hh: i64, mm: i64, ss: i64, us: i64) -> u64 {
    let y = if m <= 2 { y - 1 } else { y };
    let era = y.div_euclid(400);
    let yoe = y - era * 400;
    let mp = (m + 9) % 12;
    let doy = (153 * mp + 2) / 5 + d - 1;
    let doe = yoe * 365 + yoe / 4 - yoe / 100 + doy;
    let days = era * 146097 + doe - 719468;
    (((days * 24 + hh) * 60 + mm) * 60 + ss) as u64 * 1_000_000 + us as u64
}

fn now_micros() -> u64 {
    SystemTime::now()
        .duration_since(SystemTime::UNIX_EPOCH)
        .unwrap()
        .as_micros() as u64
}

fn sample_frame_content() -> Vec<u8> {
    vec![
        2, 8, 0, 0x4, 0x6c, 0x8e, 0x20, 0x03, 0x83, 0x85,
        65, 1, 1,
        5, 2, 0x3d, 0x3b,
        6, 2, 0x15, 0x80,
        7, 2, 0x01, 0x52,
        11, 3, 0x45, 0x4f, 0x4e,
        12, 14, 0x47, 0x65, 0x6f, 0x64, 0x65, 0x74, 0x69, 0x63, 0x20, 0x57, 0x47, 0x53, 0x38, 0x34,
        13, 4, 0x4d, 0xc4, 0xdc, 0xbb,
        14, 4, 0xb1, 0xa8, 0x6c, 0xfe,
        15, 2, 0x1f, 0x4a,
        16, 2, 0x00, 0x85,
        17, 2, 0x00, 0x4b,
        18, 4, 0x20, 0xc8, 0xd2, 0x7d,
        19, 4, 0xfc, 0xdd, 0x02, 0xd8,
        20, 4, 0xfe, 0xb8, 0xcb, 0x61,
        21, 4, 0x00, 0x8f, 0x3e, 0x61,
        22, 4, 0x00, 0x00, 0x01, 0xc9,
        23, 4, 0x4d, 0xdd, 0x8c, 0x2a,
        24, 4, 0xb1, 0xbe, 0x9e, 0xf4,
        25, 2, 0x0b, 0x85,
        40, 4, 0x4d, 0xdd, 0x8c, 0x2a,
        41, 4, 0xb1, 0xbe, 0x9e, 0xf4,
        42, 2, 0x0b, 0x85,
        56, 1, 0x2e,
        57, 4, 0x00, 0x8d, 0xd4, 0x29,
        1, 2, 0x1c, 0x5f
    ]
}

fn check_sample_frame(buf: &[u8]) -> usize {
    let mut klv = KLVReader::<UASDataset>::from_bytes(buf);
    let mut checked = 0;
    while let Some(x) = klv.next() {
        let key = x.key();
        if key.is_err() {
            println!("Error {:?}", key);
            continue;
        }
        let key = key.unwrap();
        println!("key {:?} {:?}", key, x.content());
        println!("value {:?}", x.parse());
        match (key, x.parse()) {
            (UASDataset::Timestamp, Ok(Value::Timestamp(ts))) => {
                // 2009-06-17T16:53:05.099653+00:00
                assert_eq!(utc_micros(2009, 6, 17, 16, 53, 5, 99653), ts);
                checked += 1;
            }
            (UASDataset::LSVersionNumber, Ok(Value::U8(version))) => {
                assert_eq!(version, 1);
                checked += 1;
            }
            (UASDataset::PlatformHeadingAngle, Ok(Value::U16(angle))) => {
                assert_eq!(angle, 15675);
                checked += 1;
            }
            (UASDataset::SensorLatitude, Ok(Value::I32(degrees))) => {
                assert_eq!(degrees, 1304747195);
                checked += 1;
            }
            (UASDataset::ImageSourceSensor, Ok(Value::String(name))) => {
                assert_eq!(&name, "EON");
                checked += 1;
            }
            (UASDataset::ImageCoordinateSensor, Ok(Value::String(name))) => {
                assert_eq!(&name, "Geodetic WGS84");
                checked += 1;
            }
            (k, v) => {
                println!("without assert test case {:?} {:?}", k, v);
                assert!(v.is_ok());
            }
        }
    }
    checked
}

#[test]
fn uasdls_test_uas_datalink_ls() {
    let buf = sample_frame_content();
    assert_eq!(check_sample_frame(&buf), 6);
}

#[test]
fn uasdms_test_uas_datalink_ls() {
    let buf = sample_frame_content();
    assert_eq!(check_sample_frame(&buf), 6);
    let mut r = KLVReader::<UASDataset>::from_bytes(&buf);
    let mut last = None;
    while let Some(x) = r.next() {
        last = Some((x.key(), x.parse()));
    }
    assert_eq!(last, Some((Ok(UASDataset::Checksum), Ok(Value::U16(0x1c5f)))));
}

#[test]
fn uasdls_test_encode() {
    let now = now_micros();
    let records = [
        (UASDataset::Timestamp, Value::Timestamp(now)),
        (
            UASDataset::ImageSourceSensor,
            Value::String("asdasdasd".to_string()),
        ),
        (UASDataset::TargetLocationLatitude, Value::I32(1234)),
    ];
    let encode_size = encode_len(&records);
    let mut buf = vec![0_u8; encode_size];
    let write_size = encode(&mut buf, &records).unwrap();
    assert_eq!(encode_size, write_size);

    let klvg = KLVGlobal::try_from_bytes(&buf).ok().unwrap();
    assert!(klvg.key_is(&LS_UNIVERSAL_KEY0601_8_10));
    let mut r = KLVReader::<UASDataset>::from_bytes(klvg.content());
    let mut n = 0;
    while let Some(x) = r.next() {
        let key = x.key().unwrap();
        assert!(
            key == UASDataset::Timestamp
                || key == UASDataset::ImageSourceSensor
                || key == UASDataset::TargetLocationLatitude
        );
        match x.parse().unwrap() {
            Value::Timestamp(t) => assert_eq!(t, now),
            Value::String(s) => assert_eq!(s, "asdasdasd"),
            Value::I32(v) => assert_eq!(v, 1234),
            other => panic!("unexpected {:?}", other),
        }
        n += 1;
    }
    assert_eq!(n, 3);
}

#[test]
fn uasdms_test_encode() {
    let records = [
        (UASDataset::Timestamp, Value::Timestamp(now_micros())),
        (
            UASDataset::ImageSourceSensor,
            Value::String("TESTS".to_string()),
        ),
        (UASDataset::TargetLocationLatitude, Value::I32(1234)),
    ];
    let mut buf = vec![0; 100];
    let write_size = encode(&mut buf, &records).unwrap();
    let encode_size = encode_len(&records);
    assert_eq!(encode_size, write_size);

    if let Ok(klvg) = KLVGlobal::try_from_bytes(&buf) {
        if klvg.key_is(&LS_UNIVERSAL_KEY0601_8_10) {
            let mut r = KLVReader::<UASDataset>::from_bytes(klvg.content());
            while let Some(x) = r.next() {
                let key = x.key().unwrap();
                assert!(
                    key == UASDataset::Timestamp
                        || key == UASDataset::ImageSourceSensor
                        || key == UASDataset::TargetLocationLatitude
                );
            }
        } else {
            panic!("unknown key {:?}", &buf[..16]);
        }
    } else {
        panic!("unknown data {:?}", &buf);
    }
}

#[test]
fn uas_fixed_width_length_mismatch() {
    let rec = KLV::<UASDataset>::from_bytes(&[5, 3, 1, 2, 3]);
    assert_eq!(rec.parse(), Err(ParseError::UnexpectedLength(3)));
    let rec = KLV::<UASDataset>::from_bytes(&[1, 3, 1, 2, 3]);
    assert_eq!(rec.parse(), Err(ParseError::UnexpectedLength(3)));
    let rec = KLV::<UASDataset>::from_bytes(&[1, 1, 7]);
    assert_eq!(rec.parse(), Ok(Value::U8(7)));
    let rec = KLV::<UASDataset>::from_bytes(&[3, 1, 7]);
    assert_eq!(rec.parse(), Err(ParseError::UnknownTag(3)));
    let rec = KLV::<UASDataset>::from_bytes(&[11, 2, 0xC3, 0x28]);
    assert_eq!(rec.parse(), Err(ParseError::Encoding));
}

#[test]
fn uas_fixed_width_round_trip() {
    let cases = [
        (UASDataset::Timestamp, Value::Timestamp(utc_micros(2009, 6, 17, 16, 53, 5, 99653))),
        (UASDataset::PlatformHeadingAngle, Value::U16(65535)),
        (UASDataset::PlatformPitchAngle, Value::I16(-32768)),
        (UASDataset::PlatformRollAngle, Value::I16(338)),
        (UASDataset::SensorLatitude, Value::I32(-1)),
        (UASDataset::SensorLongtude, Value::I32(i32::MIN)),
        (UASDataset::SensorTrueAltitude, Value::U16(8010)),
        (UASDataset::SensorRelativeAzimuthAngle, Value::U32(u32::MAX)),
        (UASDataset::SlantRange, Value::U32(9387617)),
        (UASDataset::FrameCenterElevation, Value::U16(2949)),
        (UASDataset::PlatformGroundSpeed, Value::U8(46)),
        (UASDataset::LSVersionNumber, Value::U8(1)),
        (UASDataset::Checksum, Value::U16(0x1c5f)),
        (UASDataset::Checksum, Value::U8(0x5f)),
    ];
    for (tag, value) in cases {
        let records = [(tag, value)];
        let mut buf = vec![0_u8; encode_len(&records)];
        encode(&mut buf, &records).unwrap();
        let g = KLVGlobal::try_from_bytes(&buf).ok().unwrap();
        let mut r = KLVReader::<UASDataset>::from_bytes(g.content());
        let x = r.next().unwrap();
        assert_eq!(x.key(), Ok(records[0].0));
        assert_eq!(x.parse().as_ref(), Ok(&records[0].1));
        assert!(r.next().is_none());
    }
}

#[test]
fn uas_kind_of_tags() {
    assert_eq!(UASDataset::Checksum.kind(1), Kind::U8);
    assert_eq!(UASDataset::Checksum.kind(2), Kind::U16);
    assert_eq!(UASDataset::ImageCoordinateSensor.kind(14), Kind::String);
    assert_eq!(UASDataset::GroundRange.kind(4), Kind::U32);
}

#[test]
fn uasdms_test_value_encode_decode() {
    let td = [
        Value::U8(0),
        Value::U8(255),
        Value::U16(256),
        Value::U32(192),
        Value::I16(-127),
        Value::I32(-192),
        Value::String("EON_$JK)~DFKSDF".to_owned()),
        Value::Timestamp(now_micros()),
    ];
    for x in td {
        let mut buf = vec![];
        let size = x.to_bytes(&mut buf);
        assert_eq!(buf.len(), size, "value {:?} {:?} ", x, buf);
        assert_eq!(x.len(), size);

        match x {
            Value::Timestamp(x) => {
                if let Value::Timestamp(y) = Value::as_timestamp(&buf).unwrap() {
                    assert_eq!(x, y);
                } else {
                    panic!("not a timestamp");
                }
            }
            Value::U8(x) => {
                assert_eq!(Value::U8(x), Value::from(buf[0]));
            }
            Value::U16(x) => {
                assert_eq!(Value::U16(x), Value::as_u16(&buf));
            }
            Value::U32(x) => {
                assert_eq!(Value::U32(x), Value::as_u32(&buf));
            }
            Value::I16(x) => {
                assert_eq!(Value::I16(x), Value::as_i16(&buf));
            }
            Value::I32(x) => {
                assert_eq!(Value::I32(x), Value::as_i32(&buf));
            }
            Value::String(x) => {
                assert_eq!(Value::String(x), Value::as_string(&buf).unwrap());
            }
            other => panic!("unexpected {:?}", other),
        }
    }
}

#[test]
fn value_test_value_encode_decode() {
    let td = [
        Value::U8(0),
        Value::U8(255),
        Value::U16(256),
        Value::U32(192),
        Value::U64(u64::MAX),
        Value::I8(-127),
        Value::I16(-127),
        Value::I32(-192),
        Value::I64(i64::MIN),
        Value::String("EON_$JK)~DFKSDF".to_owned()),
        Value::Timestamp(now_micros()),
        Value::Duration { secs: 1234, nanos: 5678 },
    ];
    for x in td {
        let mut buf = vec![];
        let size = x.to_bytes(&mut buf);
        assert_eq!(buf.len(), size, "value {:?} {:?} ", x, buf);

        match x {
            Value::U8(x) => {
                assert_eq!(Value::U8(x), Value::from(buf[0]));
                assert_eq!(Value::U8(x), Value::as_u8(&buf));
            }
            Value::U16(x) => {
                assert_eq!(Value::U16(x), Value::as_u16(&buf));
            }
            Value::U32(x) => {
                assert_eq!(Value::U32(x), Value::as_u32(&buf));
            }
            Value::U64(x) => {
                assert_eq!(Value::U64(x), Value::as_u64(&buf));
            }
            Value::I8(x) => {
                assert_eq!(Value::I8(x), Value::as_i8(&buf));
            }
            Value::I16(x) => {
                assert_eq!(Value::I16(x), Value::as_i16(&buf));
            }
            Value::I32(x) => {
                assert_eq!(Value::I32(x), Value::as_i32(&buf));
            }
            Value::I64(x) => {
                assert_eq!(Value::I64(x), Value::as_i64(&buf));
            }
            Value::String(x) => {
                assert_eq!(Value::String(x), Value::as_string(&buf).unwrap());
            }
            Value::Timestamp(x) => {
                assert_eq!(Value::Timestamp(x), Value::as_timestamp(&buf).unwrap());
            }
            Value::Duration { secs, nanos } => {
                assert_eq!(
                    Value::Duration { secs, nanos },
                    Value::as_duration(&buf).unwrap()
                );
            }
            other => panic!("unexpected {:?}", other),
        }
    }
}

#[test]
fn value_bodies_exact() {
    let mut buf = vec![];
    Value::I16(-2).to_bytes(&mut buf);
    Value::U32(0x01020304).to_bytes(&mut buf);
    Value::Duration { secs: 1, nanos: 2 }.to_bytes(&mut buf);
    Value::Bool(true).to_bytes(&mut buf);
    Value::Char('A').to_bytes(&mut buf);
    assert_eq!(
        buf,
        vec![
            0xFF, 0xFE, 1, 2, 3, 4, 0, 0, 0, 0, 0, 0, 0, 1, 0, 0, 0, 2, 1, 0, 0, 0, 0x41
        ]
    );
    let bad = [0, 0, 0, 0, 0, 0, 0, 1, 0x3B, 0x9A, 0xCA, 0x00];
    assert_eq!(Value::as_duration(&bad), Err(ParseError::Encoding));
    assert_eq!(Value::decode(Kind::Char, &[0, 0, 0xD8, 0]), Err(ParseError::Encoding));
    assert_eq!(Value::decode(Kind::U32, &[0, 0]), Err(ParseError::UnexpectedLength(2)));
    assert_eq!(Value::decode(Kind::Bytes, &[9, 8]), Ok(Value::Bytes(vec![9, 8])));
}

#[test]
fn uas_whole_frame_decodes() {
    let content = sample_frame_content();
    let mut frame = vec![];
    write_global(&mut frame, &LS_UNIVERSAL_KEY0601_8_10, &content).unwrap();
    let pairs = decode_uasdls(&frame).unwrap();
    assert_eq!(pairs.len(), 26);
    assert_eq!(
        pairs[0],
        (UASDataset::Timestamp, Value::Timestamp(utc_micros(2009, 6, 17, 16, 53, 5, 99653)))
    );
    assert_eq!(pairs[1], (UASDataset::LSVersionNumber, Value::U8(1)));
    assert_eq!(pairs[2], (UASDataset::PlatformHeadingAngle, Value::U16(15675)));
    assert_eq!(pairs[5], (UASDataset::ImageSourceSensor, Value::String("EON".to_string())));
    assert_eq!(
        pairs[6],
        (UASDataset::ImageCoordinateSensor, Value::String("Geodetic WGS84".to_string()))
    );
    assert_eq!(pairs[7], (UASDataset::SensorLatitude, Value::I32(1304747195)));
    assert_eq!(pairs[25], (UASDataset::Checksum, Value::U16(0x1c5f)));
}

#[test]
fn uas_whole_frame_errors() {
    let content = sample_frame_content();
    let mut frame = vec![];
    write_global(&mut frame, b"0123456789abcdef", &content).unwrap();
    assert_eq!(decode_uasdls(&frame), Err(ParseError::InvalidKey));
    assert_eq!(decode_uasdls(&frame[..17]), Err(ParseError::BufferTooShort));
    let mut frame = vec![];
    write_global(&mut frame, &LS_UNIVERSAL_KEY0601_8_10, &content).unwrap();
    frame.pop();
    assert_eq!(decode_uasdls(&frame), Err(ParseError::BufferTooShort));
    let mut frame = vec![];
    write_global(&mut frame, &LS_UNIVERSAL_KEY0601_8_10, &[3, 1, 0]).unwrap();
    assert_eq!(decode_uasdls(&frame), Err(ParseError::UnknownTag(3)));
}

#[test]
fn uas_encode_decode_round_trip() {
    let now = now_micros();
    let records = [
        (UASDataset::Timestamp, Value::Timestamp(now)),
        (UASDataset::ImageSourceSensor, Value::String("asdasdasd".to_string())),
        (UASDataset::TargetLocationLatitude, Value::I32(1234)),
    ];
    let frame = encode_uasdls(&records).unwrap();
    assert_eq!(frame.len(), encode_len(&records));
    let pairs = decode_uasdls(&frame).unwrap();
    assert_eq!(pairs.len(), 3);
    for (got, want) in pairs.iter().zip(records.iter()) {
        assert_eq!(got, want);
    }
    let too_long = [(UASDataset::ImageSourceSensor, Value::String("y".repeat(300)))];
    assert_eq!(encode_uasdls(&too_long), Err(ParseError::Encoding));
}
