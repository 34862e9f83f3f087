//! Text helpers and JSON values.
use ds_core::json::{parse, Json};
use ds_core::text::{
    chars_of, contains, equals, is_white_space, lines, push_i64, push_usize, same, string_of,
    strip_prefix, trim,
};

#[test]
fn white_space_is_the_unicode_property() {
    for n in 0u32..0x110000u32 {
        if let Some(c) = char::from_u32(n) {
            assert_eq!(is_white_space(c), c.is_whitespace(), "U+{:04X}", n);
        }
    }
}

#[test]
fn characters_come_and_go() {
    let chars = chars_of("aé中\u{1F600}");
    assert_eq!(chars, vec!['a', 'é', '中', '\u{1F600}']);
    assert_eq!(string_of(chars.as_slice()), "aé中\u{1F600}");
    assert_eq!(string_of(&[]), "");
}

#[test]
fn strings_are_compared_by_content() {
    assert!(same("响应", "响应"));
    assert!(!same("响应", "响"));
    assert!(!same("响", "应"));
    assert!(same("", ""));
    assert!(equals(&['a', 'b'], "ab"));
    assert!(!equals(&['a', 'b'], "a"));
    assert!(!equals(&['a'], "ab"));
}

#[test]
fn trimming_agrees_with_std() {
    for s in ["", " ", "a", "  a b \t", "\u{3000}中 文\u{a0}\r\n", "\n\n"] {
        let chars = chars_of(s);
        assert_eq!(string_of(trim(chars.as_slice())), s.trim());
    }
}

#[test]
fn prefixes_and_parts() {
    let chars = chars_of("data: 中文");
    assert_eq!(string_of(strip_prefix(chars.as_slice(), "data:").unwrap()), " 中文");
    assert!(strip_prefix(chars.as_slice(), "event:").is_none());
    assert!(strip_prefix(chars.as_slice(), "data: 中文!").is_none());
    assert!(contains(chars.as_slice(), "a: 中"));
    assert!(contains(chars.as_slice(), ""));
    assert!(contains(&[], ""));
    assert!(!contains(chars.as_slice(), "文中"));
}

#[test]
fn lines_agree_with_std() {
    for s in ["", "a", "a\n", "a\nb", "a\r\nb\r\n", "\n\na\n", "a\rb\n\r", "x\r"] {
        let chars = chars_of(s);
        let got: Vec<String> = lines(chars.as_slice()).iter().map(|l| string_of(l)).collect();
        let want: Vec<&str> = s.lines().collect();
        assert_eq!(got, want, "{:?}", s);
    }
}

#[test]
fn numbers_are_written_in_decimal() {
    for n in [0i64, 7, 10, -1, -40301, i64::MAX, i64::MIN] {
        let mut out = String::from("n=");
        push_i64(&mut out, n);
        assert_eq!(out, format!("n={}", n));
    }
    let mut out = String::new();
    push_usize(&mut out, usize::MAX);
    assert_eq!(out, format!("{}", usize::MAX));
}

#[test]
fn a_document_is_parsed() {
    let doc = parse(r#"{"a":"x","b":[1,-2,null,true],"c":{"d":"中"},"a2":18446744073709551615}"#)
        .unwrap();
    assert_eq!(doc.str_at("a"), Some("x"));
    assert_eq!(doc.u64_at("a2"), Some(u64::MAX));
    assert_eq!(doc.i64_at("a2"), None);
    let items = doc.array_at("b").unwrap();
    assert_eq!(items.len(), 4);
    assert_eq!(items[0].as_u64(), Some(1));
    assert_eq!(items[1].as_i64(), Some(-2));
    assert_eq!(items[1].as_u64(), None);
    assert!(matches!(items[2], Json::Null));
    assert!(matches!(items[3], Json::Bool(true)));
    assert_eq!(doc.get("c").unwrap().str_at("d"), Some("中"));
    assert!(doc.get("missing").is_none());
}

#[test]
fn numbers_that_are_no_integers_are_none() {
    for text in ["1.0", "1e3", "18446744073709551616", "-9223372036854775809", "-0.5"] {
        let n = parse(text).unwrap();
        assert!(matches!(n, Json::Number(None)), "{}", text);
        assert_eq!(n.as_u64(), None);
        assert_eq!(n.as_i64(), None);
    }
    assert_eq!(parse("-9223372036854775808").unwrap().as_i64(), Some(i64::MIN));
}

#[test]
fn members_agree_with_serde_json() {
    let text = r#"{"n":5,"f":2.5,"s":"t","k":{"n":1},"n":6,"list":[{"n":-7}]}"#;
    let ours = parse(text).unwrap();
    let theirs: serde_json::Value = serde_json::from_str(text).unwrap();
    for key in ["n", "f", "s", "k", "list", "z"] {
        assert_eq!(ours.get(key).is_some(), theirs.get(key).is_some());
        assert_eq!(ours.i64_at(key), theirs.get(key).and_then(|v| v.as_i64()));
        assert_eq!(ours.u64_at(key), theirs.get(key).and_then(|v| v.as_u64()));
        assert_eq!(ours.str_at(key), theirs.get(key).and_then(|v| v.as_str()));
    }
    assert_eq!(ours.i64_at("n"), Some(6));
}

#[test]
fn only_objects_have_members() {
    assert!(parse("[1]").unwrap().get("a").is_none());
    assert!(parse("\"a\"").unwrap().get("a").is_none());
    assert!(parse("null").unwrap().get("a").is_none());
}

#[test]
fn what_is_no_document_is_none() {
    assert!(parse("").is_none());
    assert!(parse("{").is_none());
    assert!(parse("{} x").is_none());
    assert!(parse("[DONE]").is_none());
}
