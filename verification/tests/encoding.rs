use windlass::encoding::{
    encode_vlq_int, next_byte, parse_vlq_int, read_chunk, Borrowable, FieldType, FieldValue,
    MessageDecodeError, Readable, ToFieldType, Writable,
};

fn encoded(v: u32) -> Vec<u8> {
    let mut buf = Vec::new();
    encode_vlq_int(&mut buf, v);
    buf
}

#[test]
fn vlq_has_the_expected_bytes() {
    assert_eq!(encoded(0), vec![0x00]);
    assert_eq!(encoded(95), vec![0x5F]);
    assert_eq!(encoded(96), vec![0x80, 0x60]);
    assert_eq!(encoded(12287), vec![0xDF, 0x7F]);
    assert_eq!(encoded(12288), vec![0x80, 0xE0, 0x00]);
    assert_eq!(encoded(1_000_000), vec![0xBD, 0x84, 0x40]);
    assert_eq!(encoded(0x7FFF_FFFF), vec![0x87, 0xFF, 0xFF, 0xFF, 0x7F]);
    assert_eq!(encoded(0x8000_0000), vec![0xF8, 0x80, 0x80, 0x80, 0x00]);
}

#[test]
fn negative_numbers_are_short_too() {
    assert_eq!(encoded(-1i32 as u32), vec![0x7F]);
    assert_eq!(encoded(-32i32 as u32), vec![0x60]);
    assert_eq!(encoded(-33i32 as u32), vec![0xFF, 0x5F]);
    assert_eq!(encoded(-4096i32 as u32), vec![0xE0, 0x00]);
    assert_eq!(encoded(-4097i32 as u32), vec![0xFF, 0xDF, 0x7F]);
    assert_eq!(encoded(-1_000_000i32 as u32), vec![0xFF, 0xC2, 0xFB, 0x40]);
}

#[test]
fn vlq_comes_back() {
    for v in [
        0u32,
        1,
        31,
        95,
        96,
        127,
        128,
        12287,
        12288,
        0x17_FFFF,
        0x18_0000,
        0xBFF_FFFF,
        0xC00_0000,
        0x7FFF_FFFF,
        0x8000_0000,
        0xFFFF_FFDF,
        0xFFFF_FFE0,
        0xFFFF_FFFF,
    ] {
        let mut bytes = encoded(v);
        bytes.push(0xAB);
        let mut data = bytes.as_slice();
        assert_eq!(parse_vlq_int(&mut data), Ok(v));
        assert_eq!(data, &[0xAB]);
    }
}

#[test]
fn a_cut_off_vlq_is_an_error() {
    let mut data: &[u8] = &[0x80, 0xE0];
    assert_eq!(parse_vlq_int(&mut data), Err(MessageDecodeError::InsufficientData));
    assert!(data.is_empty());
    let mut empty: &[u8] = &[];
    assert_eq!(parse_vlq_int(&mut empty), Err(MessageDecodeError::InsufficientData));
    assert_eq!(next_byte(&mut empty), Err(MessageDecodeError::InsufficientData));
}

#[test]
fn next_byte_takes_one_byte() {
    let mut data: &[u8] = &[7, 8];
    assert_eq!(next_byte(&mut data), Ok(7));
    assert_eq!(data, &[8]);
}

#[test]
fn chunks_have_a_length_in_front() {
    let mut data: &[u8] = &[3, 1, 2, 3, 9];
    assert_eq!(read_chunk(&mut data), Ok(&[1u8, 2, 3][..]));
    assert_eq!(data, &[9]);
    let mut short: &[u8] = &[3, 1, 2];
    assert_eq!(read_chunk(&mut short), Err(MessageDecodeError::InsufficientData));
}

#[test]
fn fields_are_read_by_their_types() {
    let mut data: &[u8] = &[0x7F, 0x7F, 0x7F, 0x7F, 0x7F, 2, 0xC3, 0xA9, 2, 0xC3, 0xA9, 1];
    assert!(matches!(FieldType::U32.read(&mut data), Ok(FieldValue::U32(0xFFFF_FFFF))));
    assert!(matches!(FieldType::I32.read(&mut data), Ok(FieldValue::I32(-1))));
    assert!(matches!(FieldType::U16.read(&mut data), Ok(FieldValue::U16(0xFFFF))));
    assert!(matches!(FieldType::I16.read(&mut data), Ok(FieldValue::I16(-1))));
    assert!(matches!(FieldType::U8.read(&mut data), Ok(FieldValue::U8(0xFF))));
    match FieldType::String.read(&mut data) {
        Ok(FieldValue::String(s)) => assert_eq!(s, "\u{e9}"),
        other => panic!("{other:?}"),
    }
    match FieldType::ByteArray.read(&mut data) {
        Ok(FieldValue::ByteArray(b)) => assert_eq!(b, vec![0xC3, 0xA9]),
        other => panic!("{other:?}"),
    }
    assert_eq!(data, &[1]);
}

#[test]
fn strings_must_be_utf8() {
    let bytes: &[u8] = &[2, 0xC3, 0x28, 5];
    let mut data = bytes;
    assert!(matches!(FieldType::String.read(&mut data), Err(MessageDecodeError::InvalidUtf8)));
    let mut data = bytes;
    assert_eq!(FieldType::String.skip(&mut data), Err(MessageDecodeError::InvalidUtf8));
    assert_eq!(data, &[5]);
    let mut data = bytes;
    assert_eq!(<&str as Readable>::read(&mut data), Err(MessageDecodeError::InvalidUtf8));
    let mut data = bytes;
    assert_eq!(FieldType::ByteArray.skip(&mut data), Ok(()));
    assert_eq!(data, &[5]);
}

#[test]
fn directives_name_types() {
    for ty in [
        FieldType::U32,
        FieldType::I32,
        FieldType::U16,
        FieldType::I16,
        FieldType::U8,
        FieldType::String,
        FieldType::ByteArray,
    ] {
        assert_eq!(FieldType::from_msg(ty.to_format()), Some(ty));
    }
    assert_eq!(FieldType::from_msg("%.*s"), Some(FieldType::ByteArray));
    assert_eq!(FieldType::from_msg("%x"), None);
    assert_eq!(FieldType::from_msg("%ux"), None);
    assert_eq!(FieldType::from_msg(""), None);
    let format: Vec<char> = "a%hub".chars().collect();
    assert_eq!(FieldType::from_format(&format, 1), Some((FieldType::U16, 3)));
    assert_eq!(FieldType::from_format(&format, 0), None);
}

#[test]
fn values_are_shown() {
    let shown = |v: FieldValue| {
        let mut s = String::from("<");
        v.push_text(&mut s);
        s
    };
    assert_eq!(shown(FieldValue::U32(u32::MAX)), "<4294967295");
    assert_eq!(shown(FieldValue::I32(i32::MIN)), "<-2147483648");
    assert_eq!(shown(FieldValue::U16(10)), "<10");
    assert_eq!(shown(FieldValue::I16(-7)), "<-7");
    assert_eq!(shown(FieldValue::U8(0)), "<0");
    assert_eq!(shown(FieldValue::String("hi".to_string())), "<hi");
    assert_eq!(shown(FieldValue::ByteArray(vec![1, 20, 255])), "<[1, 20, 255]");
    assert_eq!(shown(FieldValue::ByteArray(vec![])), "<[]");
}

#[test]
fn arguments_come_back_through_the_traits() {
    let mut buf = Vec::new();
    70_000u32.write(&mut buf);
    (-5i32).write(&mut buf);
    65_535u16.write(&mut buf);
    (-30_000i16).write(&mut buf);
    200u8.write(&mut buf);
    "sensor".write(&mut buf);
    (&[1u8, 2][..]).write(&mut buf);
    let mut data = buf.as_slice();
    assert_eq!(<u32 as Readable>::read(&mut data), Ok(70_000));
    assert_eq!(<i32 as Readable>::read(&mut data), Ok(-5));
    assert_eq!(<u16 as Readable>::read(&mut data), Ok(65_535));
    assert_eq!(<i16 as Readable>::read(&mut data), Ok(-30_000));
    assert_eq!(<u8 as Readable>::read(&mut data), Ok(200));
    assert_eq!(<&str as Readable>::read(&mut data), Ok("sensor"));
    assert_eq!(<&[u8] as Readable>::read(&mut data), Ok(&[1u8, 2][..]));
    assert!(data.is_empty());
}

#[test]
fn rust_types_have_argument_types() {
    assert_eq!(<u32 as ToFieldType>::as_field_type(), FieldType::U32);
    assert_eq!(<i32 as ToFieldType>::as_field_type(), FieldType::I32);
    assert_eq!(<u16 as ToFieldType>::as_field_type(), FieldType::U16);
    assert_eq!(<i16 as ToFieldType>::as_field_type(), FieldType::I16);
    assert_eq!(<u8 as ToFieldType>::as_field_type(), FieldType::U8);
    assert_eq!(<String as ToFieldType>::as_field_type(), FieldType::String);
    assert_eq!(<Vec<u8> as ToFieldType>::as_field_type(), FieldType::ByteArray);
    assert_eq!(<Vec<u8> as Borrowable>::from_borrowed(&[4, 5]), vec![4, 5]);
    assert_eq!(<String as Borrowable>::from_borrowed("x"), "x".to_string());
    assert_eq!(<i16 as Borrowable>::from_borrowed(-1), -1);
}
