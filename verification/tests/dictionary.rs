use std::collections::BTreeMap;
use windlass::dictionary::{ConfigVar, Dictionary, DictionaryError, Enumeration, RawDictionary};
use windlass::encoding::FieldType;
use windlass::messages::MessageSkipperError;
use windlass::string_map::StringMap;

fn entries(list: &[(&str, i16)]) -> StringMap<i16> {
    let mut map = StringMap::new();
    for (text, tag) in list {
        map.insert(text.to_string(), *tag);
    }
    map
}

fn raw(
    commands: &[(&str, i16)],
    responses: &[(&str, i16)],
    output: &[(&str, i16)],
) -> RawDictionary {
    RawDictionary {
        config: BTreeMap::new(),
        enumerations: BTreeMap::new(),
        commands: entries(commands),
        responses: entries(responses),
        output: entries(output),
        build_versions: None,
        version: None,
        extra: BTreeMap::new(),
    }
}

#[test]
fn messages_are_found_by_name_and_id() {
    let dict = Dictionary::from_raw_dictionary(raw(
        &[("get_clock", 5), ("config_endstop oid=%c pin=%c pull_up=%c", 200)],
        &[("clock clock=%u", -1)],
        &[("Warning %u", 90)],
    ))
    .unwrap();
    assert_eq!(dict.message_ids.get("get_clock"), Some(&5));
    assert_eq!(dict.message_ids.get("config_endstop"), Some(&200));
    assert_eq!(dict.message_ids.get("clock"), Some(&127));
    assert_eq!(dict.message_ids.get("Warning"), None);
    assert_eq!(dict.message_ids.get("Warning %u"), None);
    let parser = &dict.message_parsers[&200];
    assert_eq!(parser.name, "config_endstop");
    assert_eq!(
        parser.fields,
        vec![
            ("oid".to_string(), FieldType::U8),
            ("pin".to_string(), FieldType::U8),
            ("pull_up".to_string(), FieldType::U8),
        ]
    );
    assert!(dict.message_parsers[&5].fields.is_empty());
    assert!(dict.message_parsers[&90].output.is_some());
    assert_eq!(dict.message_parsers.len(), 4);
}

#[test]
fn each_id_of_a_name_has_a_parser() {
    let dict = Dictionary::from_raw_dictionary(raw(
        &[("a", 1), ("b", 1), ("c x=%u", 2)],
        &[("c y=%s", 3)],
        &[("out", 2)],
    ))
    .unwrap();
    for (_, id) in &dict.message_ids.entries {
        assert!(dict.message_parsers.contains_key(id));
    }
    assert_eq!(dict.message_ids.get("a"), Some(&1));
    assert_eq!(dict.message_parsers[&1].name, "b");
    assert_eq!(dict.message_ids.get("c"), Some(&3));
    assert_eq!(dict.message_parsers[&2].name, "out");
}

#[test]
fn a_bad_declaration_is_an_error() {
    match Dictionary::from_raw_dictionary(raw(&[("ok", 1), ("stepper oid", 2)], &[], &[])) {
        Err(DictionaryError::InvalidCommandFormat(
            name,
            MessageSkipperError::InvalidArgumentFormat(part),
        )) => assert_eq!((name.as_str(), part.as_str()), ("stepper", "oid")),
        other => panic!("{other:?}"),
    }
    match Dictionary::from_raw_dictionary(raw(&[], &[("r v=%q", 2)], &[("%z", 1)])) {
        Err(DictionaryError::InvalidCommandFormat(
            name,
            MessageSkipperError::UnknownType(arg, ty),
        )) => assert_eq!((name.as_str(), arg.as_str(), ty.as_str()), ("r", "v", "%q")),
        other => panic!("{other:?}"),
    }
    match Dictionary::from_raw_dictionary(raw(&[], &[], &[("bad %z", 1)])) {
        Err(DictionaryError::InvalidOutputFormat(
            name,
            MessageSkipperError::InvalidFormatFieldType(rest),
        )) => assert_eq!((name.as_str(), rest.as_str()), ("bad %z", "z")),
        other => panic!("{other:?}"),
    }
}

#[test]
fn an_empty_declaration_is_an_error() {
    assert!(matches!(
        Dictionary::from_raw_dictionary(raw(&[("", 1), ("a b", 2)], &[], &[])),
        Err(DictionaryError::EmptyCommand)
    ));
    assert!(matches!(
        Dictionary::from_raw_dictionary(raw(&[("a", 2)], &[("", 1)], &[])),
        Err(DictionaryError::EmptyCommand)
    ));
    let dict = Dictionary::from_raw_dictionary(raw(&[], &[], &[("", 3)])).unwrap();
    assert_eq!(dict.message_parsers[&3].name, "");
}

#[test]
fn the_first_bad_declaration_in_order_counts() {
    match Dictionary::from_raw_dictionary(raw(&[("z a", 1), ("b c", 2)], &[], &[])) {
        Err(DictionaryError::InvalidCommandFormat(name, _)) => assert_eq!(name, "b"),
        other => panic!("{other:?}"),
    }
}

#[test]
fn tags_become_ids() {
    for (tag, id) in [
        (0i16, 0u16),
        (95, 95),
        (96, 96),
        (127, 127),
        (12287, 12287),
        (-1, 127),
        (-32, 96),
        (-33, 0x4000 - 33),
        (-4096, 0x4000 - 4096),
    ] {
        assert_eq!(Dictionary::map_tag(tag).unwrap(), id, "{tag}");
    }
}

#[test]
fn tags_that_need_more_than_two_bytes_are_refused() {
    for tag in [12288i16, 32767, -4097, i16::MIN] {
        match Dictionary::map_tag(tag) {
            Err(DictionaryError::InvalidCommandTag(bits)) => assert_eq!(bits, tag as u16),
            other => panic!("{other:?}"),
        }
    }
}

#[test]
fn ids_have_fourteen_bits_and_differ() {
    let mut seen = BTreeMap::new();
    for tag in -4096i16..12288 {
        let id = Dictionary::map_tag(tag).unwrap();
        assert!(id < 0x4000);
        if tag >= 0 {
            assert_eq!(id, tag as u16);
        }
        if !(-32..0).contains(&tag) {
            assert_eq!(seen.insert(id, tag), None);
        }
    }
}

#[test]
fn a_bad_tag_is_an_error_behind_a_bad_format() {
    for bad in [
        raw(&[("a", 1), ("b x=%u", 12288)], &[], &[]),
        raw(&[], &[("b", 12288)], &[]),
        raw(&[("a", 1)], &[], &[("out %u", 12288)]),
    ] {
        assert!(matches!(
            Dictionary::from_raw_dictionary(bad),
            Err(DictionaryError::InvalidCommandTag(12288))
        ));
    }
    assert!(matches!(
        Dictionary::from_raw_dictionary(raw(&[("b x", 12288)], &[], &[])),
        Err(DictionaryError::InvalidCommandFormat(_, _))
    ));
    assert!(matches!(
        Dictionary::from_raw_dictionary(raw(&[], &[], &[("%z", 12288)])),
        Err(DictionaryError::InvalidOutputFormat(_, _))
    ));
}

#[test]
fn everything_else_is_kept() {
    let mut raw = raw(&[], &[], &[]);
    raw.config.insert("MCU".to_string(), ConfigVar::String("stm32".to_string()));
    raw.config.insert("CLOCK_FREQ".to_string(), ConfigVar::Number(72.0e6f64.to_bits()));
    let mut pins = BTreeMap::new();
    pins.insert("PA0".to_string(), Enumeration::Range(0, 16));
    pins.insert("none".to_string(), Enumeration::Single(-1));
    raw.enumerations.insert("pin".to_string(), pins);
    raw.version = Some("v0.11".to_string());
    raw.build_versions = Some("gcc".to_string());
    raw.extra.insert("app".to_string(), serde_json::Value::from("Klipper"));
    let dict = Dictionary::from_raw_dictionary(raw).unwrap();
    match &dict.config["CLOCK_FREQ"] {
        ConfigVar::Number(bits) => assert_eq!(f64::from_bits(*bits), 72.0e6),
        other => panic!("{other:?}"),
    }
    assert!(matches!(&dict.config["MCU"], ConfigVar::String(s) if s == "stm32"));
    assert!(matches!(dict.enumerations["pin"]["PA0"], Enumeration::Range(0, 16)));
    assert!(matches!(dict.enumerations["pin"]["none"], Enumeration::Single(-1)));
    assert_eq!(dict.version.as_deref(), Some("v0.11"));
    assert_eq!(dict.build_versions.as_deref(), Some("gcc"));
    assert_eq!(dict.extra["app"], serde_json::Value::from("Klipper"));
}
