use windlass::encoding::{encode_vlq_int, FieldType, FieldValue, MessageDecodeError};
use windlass::messages::{
    format_command_args, FormatBlock, FrontTrimmableBuffer, MessageParser, MessageSkipperError,
    OutputFormat,
};

fn parts(texts: &[&str]) -> Vec<String> {
    texts.iter().map(|t| t.to_string()).collect()
}

fn vlq(values: &[i64]) -> Vec<u8> {
    let mut buf = Vec::new();
    for v in values {
        encode_vlq_int(&mut buf, *v as u32);
    }
    buf
}

#[test]
fn arguments_are_declared_as_text() {
    let fields = vec![("oid", FieldType::U8), ("pin", FieldType::U8), ("pull_up", FieldType::U8)];
    assert_eq!(format_command_args(&fields), "oid=%c pin=%c pull_up=%c");
    assert_eq!(format_command_args(&vec![]), "");
    let all = vec![
        ("a", FieldType::U32),
        ("b", FieldType::I32),
        ("c", FieldType::U16),
        ("d", FieldType::I16),
        ("e", FieldType::String),
        ("f", FieldType::ByteArray),
    ];
    assert_eq!(format_command_args(&all), "a=%u b=%i c=%hu d=%hi e=%s f=%*s");
}

#[test]
fn a_declaration_reads_back() {
    let fields = vec![("oid", FieldType::U8), ("clock", FieldType::U32)];
    let text = format_command_args(&fields);
    let texts: Vec<&str> = text.split(' ').collect();
    let parser = MessageParser::new("event", &parts(&texts)).unwrap();
    assert_eq!(parser.name, "event");
    assert_eq!(
        parser.fields,
        vec![("oid".to_string(), FieldType::U8), ("clock".to_string(), FieldType::U32)]
    );
    assert!(parser.output.is_none());
}

#[test]
fn an_argument_needs_a_name_and_a_known_type() {
    match MessageParser::new("m", &parts(&["a=%u", "b", "c=%x"])) {
        Err(MessageSkipperError::InvalidArgumentFormat(part)) => assert_eq!(part, "b"),
        other => panic!("{other:?}"),
    }
    match MessageParser::new("m", &parts(&["a=%u", "c=%x=%u", "b"])) {
        Err(MessageSkipperError::UnknownType(arg, ty)) => {
            assert_eq!((arg.as_str(), ty.as_str()), ("c", "%x=%u"))
        }
        other => panic!("{other:?}"),
    }
    match MessageParser::new("m", &parts(&[""])) {
        Err(MessageSkipperError::InvalidArgumentFormat(part)) => assert_eq!(part, ""),
        other => panic!("{other:?}"),
    }
}

#[test]
fn a_message_is_skipped_and_parsed_alike() {
    let parser =
        MessageParser::new("status", &parts(&["oid=%c", "value=%i", "data=%*s"])).unwrap();
    let mut bytes = vlq(&[7, -3]);
    bytes.extend([2, 0xAA, 0xBB, 0x55]);
    let mut data = bytes.as_slice();
    assert_eq!(parser.skip(&mut data), Ok(()));
    assert_eq!(data, &[0x55]);
    let mut data = bytes.as_slice();
    assert_eq!(parser.skip_with_oid(&mut data), Ok(Some(7)));
    assert_eq!(data, &[0x55]);
    let mut data = bytes.as_slice();
    let values = parser.parse(&mut data).unwrap();
    assert_eq!(data, &[0x55]);
    assert!(matches!(values.get("oid"), Some(FieldValue::U8(7))));
    assert!(matches!(values.get("value"), Some(FieldValue::I32(-3))));
    match values.get("data") {
        Some(FieldValue::ByteArray(b)) => assert_eq!(b, &vec![0xAA, 0xBB]),
        other => panic!("{other:?}"),
    }
    let mut data = bytes.as_slice();
    assert!(parser.parse_and_output(&mut data).is_none());
    assert_eq!(data, bytes.as_slice());
}

#[test]
fn only_a_byte_is_an_object_id() {
    let parser = MessageParser::new("m", &parts(&["oid=%u"])).unwrap();
    let bytes = vlq(&[9]);
    assert_eq!(parser.skip_with_oid(&mut bytes.as_slice()), Ok(None));
    let parser = MessageParser::new("m", &parts(&["oid=%c", "x=%u", "oid=%c"])).unwrap();
    let bytes = vlq(&[1, 2, 3]);
    assert_eq!(parser.skip_with_oid(&mut bytes.as_slice()), Ok(Some(3)));
}

#[test]
fn a_cut_off_message_is_an_error() {
    let parser = MessageParser::new("m", &parts(&["a=%u", "oid=%c", "s=%s"])).unwrap();
    for n in 0..2 {
        let bytes = vlq(&[1, 2]);
        let mut data = &bytes[..n];
        assert_eq!(parser.skip_with_oid(&mut data), Err(MessageDecodeError::InsufficientData));
        let mut data = &bytes[..n];
        assert!(matches!(
            parser.parse(&mut data),
            Err(MessageDecodeError::InsufficientData)
        ));
    }
    let mut data: &[u8] = &[1, 2, 1, 0xFF];
    assert_eq!(parser.skip(&mut data), Err(MessageDecodeError::InvalidUtf8));
}

#[test]
fn output_is_formatted() {
    let parser = MessageParser::new_output("count=%u sum %i, text: %s.").unwrap();
    assert_eq!(parser.name, "count=%u sum %i, text: %s.");
    assert_eq!(
        parser.fields,
        vec![
            ("field_0".to_string(), FieldType::U32),
            ("field_1".to_string(), FieldType::I32),
            ("field_2".to_string(), FieldType::String),
        ]
    );
    let mut bytes = vlq(&[12, -7, 2]);
    bytes.extend(b"ok");
    match parser.parse_and_output(&mut bytes.as_slice()) {
        Some(Ok(text)) => assert_eq!(text, "count=12 sum -7, text: ok."),
        other => panic!("{other:?}"),
    }
    match parser.parse_and_output(&mut &bytes[..1]) {
        Some(Err(e)) => assert_eq!(e, MessageDecodeError::InsufficientData),
        other => panic!("{other:?}"),
    }
}

#[test]
fn plain_output_is_output_as_it_is() {
    for format in ["Shutdown: timer too close", ""] {
        let parser = MessageParser::new_output(format).unwrap();
        assert!(parser.fields.is_empty());
        match parser.parse_and_output(&mut &[][..]) {
            Some(Ok(text)) => assert_eq!(text, format),
            other => panic!("{other:?}"),
        }
    }
}

#[test]
fn a_double_percent_sign_ends_the_directives() {
    let parser = MessageParser::new_output("at %c%% of %u").unwrap();
    assert_eq!(parser.fields.len(), 1);
    match parser.parse_and_output(&mut &[50u8][..]) {
        Some(Ok(text)) => assert_eq!(text, "at 50% of %u"),
        other => panic!("{other:?}"),
    }
}

#[test]
fn an_unknown_directive_is_an_error() {
    match MessageParser::new_output("a %u b %x c") {
        Err(MessageSkipperError::InvalidFormatFieldType(rest)) => assert_eq!(rest, "x c"),
        other => panic!("{other:?}"),
    }
    match MessageParser::new_output("100%") {
        Err(MessageSkipperError::InvalidFormatFieldType(rest)) => assert_eq!(rest, ""),
        other => panic!("{other:?}"),
    }
}

#[test]
fn ten_values_keep_their_order_and_eleven_do_not() {
    let ten = MessageParser::new_output(&vec!["%u"; 10].join(" ")).unwrap();
    let bytes = vlq(&[0, 1, 2, 3, 4, 5, 6, 7, 8, 9]);
    match ten.parse_and_output(&mut bytes.as_slice()) {
        Some(Ok(text)) => assert_eq!(text, "0 1 2 3 4 5 6 7 8 9"),
        other => panic!("{other:?}"),
    }
    let eleven = MessageParser::new_output(&vec!["%u"; 11].join(" ")).unwrap();
    let bytes = vlq(&[0, 1, 2, 3, 4, 5, 6, 7, 8, 9, 10]);
    match eleven.parse_and_output(&mut bytes.as_slice()) {
        Some(Ok(text)) => assert_eq!(text, "0 1 10 2 3 4 5 6 7 8 9"),
        other => panic!("{other:?}"),
    }
}

#[test]
fn missing_values_are_left_out() {
    let format = OutputFormat {
        parts: vec![
            FormatBlock::Field,
            FormatBlock::Static("-".to_string()),
            FormatBlock::Field,
        ],
    };
    assert_eq!(format.format(&vec![&FieldValue::U8(4)]), "4-");
    assert_eq!(
        format.format(&vec![&FieldValue::U8(4), &FieldValue::U8(5), &FieldValue::U8(6)]),
        "4-5"
    );
}

#[test]
fn a_buffer_is_trimmed_at_the_front() {
    let buffer = FrontTrimmableBuffer { content: vec![1, 2, 3], offset: 1 };
    assert_eq!(buffer.as_slice(), &[2, 3]);
    let all_gone = FrontTrimmableBuffer { content: vec![1], offset: 1 };
    assert!(all_gone.as_slice().is_empty());
}
