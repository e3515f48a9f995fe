use windlass::string_map::StringMap;
use windlass::text::{
    chars_of, find_char, push_decimal, push_signed_decimal, same_text, split, string_of,
    text_standing, utf8_text, Standing,
};

#[test]
fn text_is_split_at_each_space() {
    assert_eq!(split("a b=%u  c", ' '), vec!["a", "b=%u", "", "c"]);
    assert_eq!(split("", ' '), vec![""]);
    assert_eq!(split(" ", ' '), vec!["", ""]);
}

#[test]
fn characters_are_found() {
    let chars = chars_of("a=b=c");
    assert_eq!(find_char(&chars, 0, '='), 1);
    assert_eq!(find_char(&chars, 2, '='), 3);
    assert_eq!(find_char(&chars, 4, '='), 5);
    assert_eq!(string_of(&chars, 2, 5), "b=c");
}

#[test]
fn numbers_are_written_in_decimal() {
    let mut s = String::new();
    push_decimal(&mut s, u64::MAX);
    s.push(' ');
    push_decimal(&mut s, 0);
    s.push(' ');
    push_signed_decimal(&mut s, i64::MIN);
    s.push(' ');
    push_signed_decimal(&mut s, 42);
    assert_eq!(s, "18446744073709551615 0 -9223372036854775808 42");
}

#[test]
fn texts_are_ordered_by_their_characters() {
    assert_eq!(text_standing("field_10", "field_2"), Standing::Before);
    assert_eq!(text_standing("b", "a"), Standing::After);
    assert_eq!(text_standing("a", "ab"), Standing::Before);
    assert_eq!(text_standing("ab", "a"), Standing::After);
    assert_eq!(text_standing("ab", "ab"), Standing::Same);
    assert_eq!(text_standing("\u{e9}", "z"), Standing::After);
    assert!(same_text("oid", "oid"));
    assert!(!same_text("oid", "oi"));
}

#[test]
fn utf8_is_checked() {
    assert_eq!(utf8_text(&[0x68, 0xC3, 0xA9]), Some("h\u{e9}".to_string()));
    assert_eq!(utf8_text(&[0x68, 0xC3]), None);
}

#[test]
fn a_map_keeps_its_keys_in_order() {
    let mut map = StringMap::new();
    for (i, key) in ["m", "c", "x", "a", "c"].iter().enumerate() {
        map.insert(key.to_string(), i);
    }
    let entries: Vec<(&str, usize)> = map.entries.iter().map(|(k, v)| (k.as_str(), *v)).collect();
    assert_eq!(entries, vec![("a", 3), ("c", 4), ("m", 0), ("x", 2)]);
    assert_eq!(map.values(), vec![&3, &4, &0, &2]);
    assert_eq!(map.get("c"), Some(&4));
    assert_eq!(map.get("d"), None);
    assert_eq!(map.get(""), None);
    assert_eq!(map.get("z"), None);
}
