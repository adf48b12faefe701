use prog4::{lines_have_names, parse_input_file, NameTable, Record};

fn value<'a>(table: &'a NameTable, name: &str, key: &str) -> Option<&'a String> {
    table.get(name).and_then(|r| r.get(key))
}

#[test]
fn parses_names_and_attributes() {
    let text = "Doe John age=30 city=Seattle\nSmith Jane phone=555\n";
    let table = parse_input_file(text);
    assert_eq!(table.len(), 2);
    assert_eq!(value(&table, "Doe John", "age").map(|s| s.as_str()), Some("30"));
    assert_eq!(value(&table, "Doe John", "city").map(|s| s.as_str()), Some("Seattle"));
    assert_eq!(value(&table, "Smith Jane", "phone").map(|s| s.as_str()), Some("555"));
    assert_eq!(table.get("Doe John").unwrap().entries().len(), 2);
    let names: Vec<&str> = table.entries().iter().map(|e| e.0.as_str()).collect();
    assert_eq!(names, vec!["Doe John", "Smith Jane"]);
}

#[test]
fn tabs_and_runs_of_blanks_separate_words() {
    let table = parse_input_file("  Doe\t\tJohn   age=30\t city=Rome  ");
    assert_eq!(value(&table, "Doe John", "age").map(|s| s.as_str()), Some("30"));
    assert_eq!(value(&table, "Doe John", "city").map(|s| s.as_str()), Some("Rome"));
}

#[test]
fn later_line_replaces_earlier_record() {
    let table = parse_input_file("Doe John age=30 city=Rome\nDoe John age=31\n");
    assert_eq!(table.len(), 1);
    let r = table.get("Doe John").unwrap();
    assert_eq!(r.get("age").map(|s| s.as_str()), Some("31"));
    assert!(r.get("city").is_none());
}

#[test]
fn later_word_overrides_earlier_key() {
    let table = parse_input_file("Doe John age=30 age=40");
    assert_eq!(value(&table, "Doe John", "age").map(|s| s.as_str()), Some("40"));
}

#[test]
fn value_stops_at_second_equals_sign() {
    let table = parse_input_file("Doe John a=b=c key= =v");
    assert_eq!(value(&table, "Doe John", "a").map(|s| s.as_str()), Some("b"));
    assert_eq!(value(&table, "Doe John", "key").map(|s| s.as_str()), Some(""));
    assert_eq!(value(&table, "Doe John", "").map(|s| s.as_str()), Some("v"));
}

#[test]
fn words_without_equals_are_ignored() {
    let table = parse_input_file("Doe John Jr age=30");
    let r = table.get("Doe John").unwrap();
    assert_eq!(r.entries().len(), 1);
    assert_eq!(r.get("age").map(|s| s.as_str()), Some("30"));
}

#[test]
fn line_whose_name_holds_equals_is_skipped() {
    let table = parse_input_file("Doe x=1 age=3\nRoe Ann\n");
    assert_eq!(table.len(), 1);
    assert!(table.get("Doe x=1").is_none());
    assert_eq!(table.get("Roe Ann").unwrap().entries().len(), 0);
}

#[test]
fn crlf_line_endings_are_stripped() {
    let table = parse_input_file("Doe John age=30\r\nRoe Ann id=7\r\n");
    assert_eq!(value(&table, "Doe John", "age").map(|s| s.as_str()), Some("30"));
    assert_eq!(value(&table, "Roe Ann", "id").map(|s| s.as_str()), Some("7"));
}

#[test]
fn carriage_return_on_unterminated_last_line_is_kept() {
    let table = parse_input_file("Doe John age=30\r");
    assert_eq!(value(&table, "Doe John", "age").map(|s| s.as_str()), Some("30\r"));
}

#[test]
fn empty_text_gives_empty_table() {
    assert!(lines_have_names(""));
    let table = parse_input_file("");
    assert_eq!(table.len(), 0);
}

#[test]
fn lines_without_two_words_are_detected() {
    assert!(lines_have_names("Doe John\nRoe Ann\n"));
    assert!(!lines_have_names("Doe John\n\nRoe Ann\n"));
    assert!(!lines_have_names("Doe\n"));
    assert!(!lines_have_names("Doe John\n  \t "));
}

#[test]
fn unicode_names_are_kept_whole() {
    let table = parse_input_file("Müller Jürgen stadt=Köln");
    assert_eq!(value(&table, "Müller Jürgen", "stadt").map(|s| s.as_str()), Some("Köln"));
}

#[test]
fn record_insert_replaces_value() {
    let mut r = Record::new();
    r.insert("a".to_string(), "1".to_string());
    r.insert("b".to_string(), "2".to_string());
    r.insert("a".to_string(), "3".to_string());
    assert_eq!(r.entries().len(), 2);
    assert_eq!(r.get("a").map(|s| s.as_str()), Some("3"));
    assert_eq!(r.get("b").map(|s| s.as_str()), Some("2"));
    assert!(r.get("c").is_none());
}

#[test]
fn reshaped_blanks_give_the_same_table() {
    let a = parse_input_file("  Doe\t\tJohn   a=1\n");
    let b = parse_input_file("Doe John a=1\n");
    let flat = |t: &NameTable| -> Vec<(String, Vec<(String, String)>)> {
        t.entries().iter().map(|(n, r)| (n.clone(), r.entries().clone())).collect()
    };
    assert_eq!(flat(&a), flat(&b));
}
