use inf::util::find_replacement;
use inf::{expand_vars, Entry, ExpandVarsError, Section, Value};

fn strings(entries: Vec<Entry>) -> Section {
    Section::new("Strings".to_owned(), entries)
}

fn item(k: &str, v: &str) -> Entry {
    Entry::Item(k.to_owned(), Value::Raw(v.to_owned()))
}

#[test]
fn expand() {
    let strings = strings(vec![item("name", "Stinky")]);

    let expanded =
        expand_vars("Hello, %name%!", &strings).expect("expected hardcoded string to be valid");

    assert_eq!(expanded, "Hello, Stinky!".to_owned());
}

#[test]
fn expand_and_escape() {
    let strings = strings(vec![item("percentage", "50")]);

    let expanded = expand_vars("There is a %percentage%%% chance of rain today", &strings)
        .expect("expected hardcoded string to be valid");

    assert_eq!(expanded, "There is a 50% chance of rain today".to_owned());
}

#[test]
fn multiple_expands() {
    let strings = strings(vec![item("color", "Blue")]);

    let expanded = expand_vars("%color% %color% %color%", &strings)
        .expect("expected hardcoded string to be valid");

    assert_eq!(expanded, "Blue Blue Blue".to_owned());
}

#[test]
fn unterminated_strkey() {
    let strings = strings(vec![]);
    let result = expand_vars("%unterminated", &strings);

    assert!(matches!(result, Err(ExpandVarsError::Unterminated)));
}

#[test]
fn missing_key_is_not_found() {
    let strings = strings(vec![item("name", "Stinky")]);
    assert_eq!(expand_vars("Hello, %nobody%!", &strings), Err(ExpandVarsError::NotFound));
}

#[test]
fn keys_match_without_case() {
    let strings = strings(vec![item("NaMe", "Stinky")]);
    assert_eq!(expand_vars("%nAmE%", &strings), Ok("Stinky".to_owned()));
}

#[test]
fn list_values_are_skipped() {
    let strings = strings(vec![
        Entry::Item("k".to_owned(), Value::List(vec!["a".to_owned(), "b".to_owned()])),
        Entry::ValueOnly(Value::Raw("k".to_owned())),
        item("K", "second"),
    ]);
    assert_eq!(expand_vars("%k%", &strings), Ok("second".to_owned()));
    let only_list = Section::new(
        "Strings".to_owned(),
        vec![Entry::Item("k".to_owned(), Value::List(vec!["a".to_owned(), "b".to_owned()]))],
    );
    assert_eq!(expand_vars("%k%", &only_list), Err(ExpandVarsError::NotFound));
}

#[test]
fn escapes_and_plain_text() {
    let strings = strings(vec![item("a", "%b%")]);
    assert_eq!(expand_vars("", &strings), Ok("".to_owned()));
    assert_eq!(expand_vars("100%%", &strings), Ok("100%".to_owned()));
    assert_eq!(expand_vars("%a%", &strings), Ok("%b%".to_owned()));
    assert_eq!(expand_vars("%%%", &strings), Err(ExpandVarsError::Unterminated));
}

#[test]
fn first_matching_key_wins() {
    let strings = strings(vec![item("x", "one"), item("X", "two")]);
    assert_eq!(expand_vars("%X%", &strings), Ok("one".to_owned()));
}

#[test]
fn find_replacement_takes_first_exact_key() {
    let table = vec![
        ("a".to_owned(), "1".to_owned()),
        ("b".to_owned(), "2".to_owned()),
        ("b".to_owned(), "3".to_owned()),
    ];
    assert_eq!(find_replacement(&table, &"b".to_owned()), Some("2".to_owned()));
    assert_eq!(find_replacement(&table, &"B".to_owned()), None);
    assert_eq!(find_replacement(&table, &"c".to_owned()), None);
}

#[test]
fn expand_error_messages() {
    assert_eq!(ExpandVarsError::NotFound.message(), "string key not found");
    assert_eq!(ExpandVarsError::Unterminated.message(), "unterminated %strkey% sequence");
}
