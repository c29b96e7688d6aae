use inf::{parse_section_entry, Entry, Inf, ParseError, Value};

fn raw(s: &str) -> Value {
    Value::Raw(s.to_owned())
}

fn item(k: &str, v: Value) -> Entry {
    Entry::Item(k.to_owned(), v)
}

#[test]
fn multiline_value_with_inline_comment() {
    let buffer = br#"
; This is a comment

[Section]
key = value1,"value2;not-a-comment"\ ; This is an inline comment.
,value3,,value5
"#;

    let inf = Inf::parse(buffer).expect("failed to parse hardcoded INF file");

    assert_eq!(
        inf.section("Section").map(|s| s.entries()),
        Some(
            &vec![item(
                "key",
                Value::List(vec![
                    "value1".to_owned(),
                    "value2;not-a-comment".to_owned(),
                    "value3".to_owned(),
                    "".to_owned(),
                    "value5".to_owned(),
                ])
            )][..]
        )
    );
}

#[test]
fn multiple_keys_and_values() {
    let buffer = b"
[Section]
key1 = value1
key2 = value2
key3 = value3
";

    let inf = Inf::parse(buffer).expect("failed to parse hardcoded INF file");

    assert_eq!(
        inf.section("Section").map(|s| s.entries()),
        Some(
            &vec![
                item("key1", raw("value1")),
                item("key2", raw("value2")),
                item("key3", raw("value3")),
            ][..]
        )
    );
}

#[test]
fn multiple_sections() {
    let buffer = br#"
[Version] ; This section is typically required.
Signature = "$CHICAGO$"

[Section]
key = value
"#;

    let inf = Inf::parse(buffer).expect("failed to parse hardcoded INF file");

    assert_eq!(
        inf.section("Version").map(|s| s.entries()),
        Some(&vec![item("Signature", raw("$CHICAGO$"))][..])
    );
    assert_eq!(
        inf.section("Section").map(|s| s.entries()),
        Some(&vec![item("key", raw("value"))][..])
    );
}

#[test]
fn quoted_value_with_equal() {
    let buffer = b"
[Section]
\"1+1=2\"
";

    let inf = Inf::parse(buffer).expect("failed to parse hardcoded INF file");

    assert_eq!(
        inf.section("Section").map(|s| s.entries()),
        Some(&vec![Entry::ValueOnly(raw("1+1=2"))][..])
    );
}

#[test]
fn various_entry_kinds() {
    parse_section_entry("\"1+1=2\",foo,,bar").expect("expected hardcoded value to pass");
    parse_section_entry("key = value").expect("expected hardcoded value to pass");
    parse_section_entry("key2=value2").expect("expected hardcoded value to pass");
    parse_section_entry("key3 = \"value3\"").expect("expected hardcoded value to pass");
}

#[test]
fn entry_kinds_have_exact_values() {
    assert_eq!(
        parse_section_entry("\"1+1=2\",foo,,bar"),
        Ok(Entry::ValueOnly(Value::List(vec![
            "1+1=2".to_owned(),
            "foo".to_owned(),
            "".to_owned(),
            "bar".to_owned(),
        ])))
    );
    assert_eq!(parse_section_entry("key = value"), Ok(item("key", raw("value"))));
    assert_eq!(parse_section_entry("key2=value2"), Ok(item("key2", raw("value2"))));
    assert_eq!(parse_section_entry("key3 = \"value3\""), Ok(item("key3", raw("value3"))));
}

#[test]
fn entry_unescapes_quotes_and_backslashes() {
    assert_eq!(
        parse_section_entry(r#"k = "say ""hi"" to C:\\dir""#),
        Ok(item("k", raw(r#"say "hi" to C:\dir"#)))
    );
    assert_eq!(parse_section_entry("k = 50%%"), Ok(item("k", raw("50%%"))));
}

#[test]
fn entry_equals_after_first_field_is_content() {
    assert_eq!(
        parse_section_entry("a,b=c"),
        Ok(Entry::ValueOnly(Value::List(vec!["a".to_owned(), "b=c".to_owned()])))
    );
    assert_eq!(parse_section_entry("a = b = c"), Ok(item("a", raw("b = c"))));
}

#[test]
fn entry_with_one_sided_quote_is_unterminated() {
    assert_eq!(parse_section_entry("k = \"abc"), Err(ParseError::UnterminatedString));
    assert_eq!(parse_section_entry("k = abc\""), Err(ParseError::UnterminatedString));
    assert_eq!(parse_section_entry("\""), Err(ParseError::UnterminatedString));
}

#[test]
fn duplicate_sections_are_merged() {
    let inf = Inf::parse(b"[A]\nx=1\n[B]\n[A]\ny=2").expect("parses");
    let sections = inf.sections();
    assert_eq!(sections.len(), 2);
    assert_eq!(sections[0].name(), "A");
    assert_eq!(sections[0].entries(), &[item("x", raw("1")), item("y", raw("2"))][..]);
    assert_eq!(sections[1].name(), "B");
    assert!(sections[1].entries().is_empty());
}

#[test]
fn continuation_joins_quoted_fields() {
    let inf = Inf::parse(b"[S]\nkey = value1,\"value2;not-a-comment\"\\ ; comment\n,value3,,value5")
        .expect("parses");
    assert_eq!(
        inf.section("S").map(|s| s.entries()),
        Some(
            &vec![item(
                "key",
                Value::List(vec![
                    "value1".to_owned(),
                    "value2;not-a-comment".to_owned(),
                    "value3".to_owned(),
                    "".to_owned(),
                    "value5".to_owned(),
                ])
            )][..]
        )
    );
}

#[test]
fn escaped_backslash_does_not_continue() {
    let inf = Inf::parse(b"[S]\na = x\\\\\nb = y\n").expect("parses");
    assert_eq!(
        inf.section("S").map(|s| s.entries()),
        Some(&vec![item("a", raw("x\\")), item("b", raw("y"))][..])
    );
}

#[test]
fn comments_and_crlf_are_stripped() {
    let inf = Inf::parse(b"[Version] ; required\r\nsignature = \"$CHICAGO$\"\r").expect("parses");
    let sections = inf.sections();
    assert_eq!(sections.len(), 1);
    assert_eq!(sections[0].name(), "Version");
    assert_eq!(sections[0].entries(), &[item("signature", raw("$CHICAGO$"))][..]);
}

#[test]
fn quoted_equals_is_not_a_key() {
    let inf = Inf::parse(b"[Section]\n\"1+1=2\"").expect("parses");
    assert_eq!(
        inf.section("Section").map(|s| s.entries()),
        Some(&vec![Entry::ValueOnly(raw("1+1=2"))][..])
    );
}

#[test]
fn quoted_value_may_span_lines() {
    let inf = Inf::parse(b"[S]\nk = \"a\nb\"\nz = 1\n").expect("parses");
    assert_eq!(
        inf.section("S").map(|s| s.entries()),
        Some(&vec![item("k", raw("a\nb")), item("z", raw("1"))][..])
    );
}

#[test]
fn single_field_is_raw() {
    let inf = Inf::parse(b"[S]\nk = only\nbare\n").expect("parses");
    for entry in inf.sections()[0].entries() {
        let value = match entry {
            Entry::Item(_, v) => v,
            Entry::ValueOnly(v) => v,
        };
        assert!(matches!(value, Value::Raw(_)));
    }
}

#[test]
fn header_name_length_limits() {
    let name_255 = "n".repeat(255);
    let ok = Inf::parse(format!("[{name_255}]\n").as_bytes()).expect("255 characters parse");
    assert_eq!(ok.sections()[0].name(), name_255.as_str());

    let name_256 = "n".repeat(256);
    assert_eq!(
        Inf::parse(format!("[{name_256}]\n").as_bytes()).err(),
        Some(ParseError::SectionNameTooLong)
    );
    assert_eq!(Inf::parse(b"[]\n").err(), Some(ParseError::SectionNameEmpty));
}

#[test]
fn header_length_counts_characters() {
    let name = "é".repeat(255);
    let ok = Inf::parse(format!("[{name}]").as_bytes()).expect("255 characters parse");
    assert_eq!(ok.sections()[0].name(), name.as_str());
}

#[test]
fn unexpected_characters() {
    assert_eq!(
        Inf::parse(b"[S] x\n").err(),
        Some(ParseError::UnexpectedCharacter { c: 'x' })
    );
    assert_eq!(
        Inf::parse(b"junk\n[S]\n").err(),
        Some(ParseError::UnexpectedCharacter { c: 'j' })
    );
    assert_eq!(
        Inf::parse(b"[S\nk=v\n").err(),
        Some(ParseError::UnexpectedCharacter { c: '\n' })
    );
    assert_eq!(Inf::parse(b"[S").err(), Some(ParseError::UnexpectedCharacter { c: '[' }));
}

#[test]
fn unterminated_quote_at_end_of_input() {
    assert_eq!(Inf::parse(b"[S]\nk = \"abc\n").err(), Some(ParseError::UnterminatedString));
}

#[test]
fn empty_input_has_no_sections() {
    let inf = Inf::parse(b"").expect("parses");
    assert!(inf.sections().is_empty());
    let inf = Inf::parse(b"; only a comment\n\n").expect("parses");
    assert!(inf.sections().is_empty());
}

#[test]
fn parsing_twice_gives_equal_documents() {
    let buffer = b"[A]\nx = 1, 2\n[B]\n\"y\"\n[A]\nz = 3\n";
    let first = Inf::parse(buffer).expect("parses");
    let second = Inf::parse(buffer).expect("parses");
    assert_eq!(first.sections(), second.sections());
}

#[test]
fn utf16_matches_utf8() {
    let text = "[Strings]\r\nname = \"Ströme 🦀\"\r\n";
    let mut utf16 = vec![0xFF, 0xFE];
    for unit in text.encode_utf16() {
        utf16.extend_from_slice(&unit.to_le_bytes());
    }
    let a = Inf::parse(&utf16).expect("parses");
    let b = Inf::parse(text.as_bytes()).expect("parses");
    assert_eq!(a.sections(), b.sections());
    assert_eq!(
        a.section("Strings").map(|s| s.entries()),
        Some(&vec![item("name", raw("Ströme 🦀"))][..])
    );
}

#[test]
fn invalid_bytes_decode_to_replacement() {
    let inf = Inf::parse(b"[S]\nk = a\xFFb\n").expect("parses");
    assert_eq!(
        inf.section("S").map(|s| s.entries()),
        Some(&vec![item("k", raw("a\u{FFFD}b"))][..])
    );
    let inf = Inf::parse(&[0xFF, 0xFE, b'[', 0, b'S', 0, b']', 0, b'\n', 0, 0x00, 0xD8]).expect("parses");
    assert_eq!(inf.sections()[0].name(), "S");
    assert_eq!(inf.sections()[0].entries(), &[Entry::ValueOnly(raw("\u{FFFD}"))][..]);
}

#[test]
fn error_messages() {
    assert_eq!(ParseError::SectionNameEmpty.message(), "section name cannot be empty");
    assert_eq!(
        ParseError::UnexpectedCharacter { c: 'x' }.message(),
        "unexpected character: 'x'"
    );
}

#[test]
fn value_from_conversions() {
    assert_eq!(Value::from("a".to_owned()), raw("a"));
    assert_eq!(
        Value::from(vec!["a".to_owned(), "b".to_owned()]),
        Value::List(vec!["a".to_owned(), "b".to_owned()])
    );
}
