use zk_llm_gateway::crypto::{decode_b64_32, KeyTextError, Uuid};
use zk_llm_gateway::json::{
    canonicalize_json, find_field, put_field, unsigned, Json,
};
use zk_llm_gateway::text::{
    contains_text, decimal_text, is_blank, replace_text, skip_chars, split_char, starts_with,
    take_chars, text_before, to_hex, trim, trim_end_char, trim_start_char,
};

fn parse(text: &str) -> Json {
    match Json::parse(text.as_bytes()) {
        Ok(json) => json,
        Err(_) => panic!("not JSON: {}", text),
    }
}

#[test]
fn texts_of_values_are_compact_and_sorted() {
    let text = r#"{"b":[1,2.5,null,true,"x\n"],"a":{"d":1,"c":-3}}"#;
    assert_eq!(parse(text).text(), r#"{"a":{"c":-3,"d":1},"b":[1,2.5,null,true,"x\n"]}"#);
    assert!(Json::parse(b"{").is_err());
    assert!(Json::parse(b"").is_err());
    assert!(Json::parse(&[0xff]).is_err());
}

#[test]
fn canonical_form_does_not_depend_on_order() {
    let first = Json::Fields(vec![
        ("b".to_string(), Json::Fields(vec![("y".to_string(), unsigned(1)), ("x".to_string(), unsigned(2))])),
        ("a".to_string(), Json::Null),
    ]);
    let second = Json::Fields(vec![
        ("a".to_string(), Json::Null),
        ("b".to_string(), Json::Fields(vec![("x".to_string(), unsigned(2)), ("y".to_string(), unsigned(1))])),
    ]);
    assert_eq!(canonicalize_json(&first).text(), r#"{"a":null,"b":{"x":2,"y":1}}"#);
    assert_eq!(canonicalize_json(&first).text(), canonicalize_json(&second).text());
}

#[test]
fn the_last_of_equal_keys_counts() {
    let twice = Json::Fields(vec![
        ("a".to_string(), unsigned(1)),
        ("a".to_string(), unsigned(2)),
    ]);
    assert_eq!(twice.text(), r#"{"a":2}"#);
    assert_eq!(twice.get("a").unwrap().as_u64(), Some(2));
    let mut fields = vec![("a".to_string(), unsigned(1))];
    put_field(&mut fields, "a".to_string(), Json::Bool(true));
    put_field(&mut fields, "b".to_string(), Json::Null);
    assert_eq!(fields.len(), 2);
    assert_eq!(find_field(&fields, "a").unwrap().as_bool(), Some(true));
    assert!(find_field(&fields, "c").is_none());
}

#[test]
fn values_are_read_by_kind() {
    assert_eq!(parse("7").as_u64(), Some(7));
    assert_eq!(parse("-7").as_u64(), None);
    assert_eq!(parse("7.0").as_u64(), None);
    assert_eq!(parse("\"7\"").as_u64(), None);
    assert_eq!(parse("true").as_bool(), Some(true));
    assert_eq!(parse("1").as_bool(), None);
    assert!(parse("[]").get("a").is_none());
}

#[test]
fn white_space_is_trimmed_as_unicode_has_it() {
    assert_eq!(trim(" \u{3000}a b\t\n"), "a b");
    assert!(is_blank(" \u{2003}\n"));
    assert!(!is_blank(" x "));
    assert_eq!(trim_end_char("a//", '/'), "a");
    assert_eq!(trim_start_char("//a/", '/'), "a/");
}

#[test]
fn characters_are_counted_not_bytes() {
    assert_eq!(take_chars("éàü", 2), "éà");
    assert_eq!(skip_chars("éàü", 2), "ü");
    assert_eq!(skip_chars("é", 2), "");
}

#[test]
fn replacing_is_leftmost_and_does_not_overlap() {
    assert_eq!(replace_text("aaaa", "aa", "b"), "bb");
    assert_eq!(replace_text("abc", "x", "y"), "abc");
    assert_eq!(replace_text("ab", "", "-"), "ab".replace("", "-"));
    assert!(contains_text("hello", "ell"));
    assert!(contains_text("hello", ""));
    assert!(!contains_text("hello", "elo"));
    assert!(starts_with("hello", "he") && !starts_with("he", "hello"));
}

#[test]
fn numbers_hex_and_order() {
    assert_eq!(decimal_text(0), "0");
    assert_eq!(decimal_text(u64::MAX), u64::MAX.to_string());
    assert_eq!(to_hex(&[0, 15, 255]), "000fff");
    assert!(text_before("a", "b") && text_before("Z", "a") && text_before("a", "aa"));
    assert!(!text_before("a", "a") && text_before("z", "é"));
    assert_eq!(
        split_char(",a,,b", ','),
        vec!["".to_string(), "a".to_string(), "".to_string(), "b".to_string()]
    );
}

#[test]
fn keys_and_identifiers() {
    assert_eq!(
        decode_b64_32("AAAAAAAAAAAAAAAAAAAAAAAAAAAAAAAAAAAAAAAAAAA="),
        Ok([0u8; 32])
    );
    assert_eq!(decode_b64_32("AAAA"), Err(KeyTextError::WrongLength));
    assert_eq!(decode_b64_32("A"), Err(KeyTextError::NotBase64));
    let id = Uuid { bytes: [0xab; 16] };
    assert_eq!(id.text(), "abababab-abab-abab-abab-abababababab");
    assert!(id.same(&Uuid { bytes: [0xab; 16] }));
    assert!(!id.same(&Uuid { bytes: [0; 16] }));
}
