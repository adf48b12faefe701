use prog4::{build_item, combine_record, combine_tables, merge_query_results, parse_input_file, upload_items, NameTable, Record};

fn rec(pairs: &[(&str, &str)]) -> Record {
    let mut r = Record::new();
    for (k, v) in pairs {
        r.insert(k.to_string(), v.to_string());
    }
    r
}

fn sorted(r: &Record) -> Vec<(String, String)> {
    let mut v: Vec<(String, String)> = r.entries().clone();
    v.sort();
    v
}

fn pairs(p: &[(&str, &str)]) -> Vec<(String, String)> {
    let mut v: Vec<(String, String)> = p.iter().map(|(k, v)| (k.to_string(), v.to_string())).collect();
    v.sort();
    v
}

#[test]
fn combine_without_stored_item_is_fresh_record() {
    let fresh = rec(&[("age", "30")]);
    let out = combine_record(None, &fresh);
    assert_eq!(sorted(&out), pairs(&[("age", "30")]));
}

#[test]
fn combine_drops_full_name_attributes_and_fresh_wins() {
    let stored = rec(&[
        ("FullName", "Doe John"),
        ("Last-Name", "Doe"),
        ("First-Name", "John"),
        ("age", "29"),
        ("city", "Rome"),
        ("OldFullNameCopy", "x"),
    ]);
    let fresh = rec(&[("age", "30"), ("phone", "555")]);
    let out = combine_record(Some(stored), &fresh);
    assert_eq!(
        sorted(&out),
        pairs(&[("Last-Name", "Doe"), ("First-Name", "John"), ("age", "30"), ("city", "Rome"), ("phone", "555")])
    );
}

#[test]
fn fresh_full_name_attribute_is_kept() {
    let stored = rec(&[("FullName", "Doe John")]);
    let fresh = rec(&[("FullName", "other")]);
    let out = combine_record(Some(stored), &fresh);
    assert_eq!(sorted(&out), pairs(&[("FullName", "other")]));
}

#[test]
fn item_holds_key_and_name_parts() {
    let item = build_item("Doe John", &rec(&[("age", "30")]));
    assert_eq!(
        sorted(&item),
        pairs(&[("FullName", "Doe John"), ("Last-Name", "Doe"), ("First-Name", "John"), ("age", "30")])
    );
}

#[test]
fn record_attributes_override_item_names() {
    let item = build_item("Doe John", &rec(&[("First-Name", "Johnny")]));
    assert_eq!(item.get("First-Name").map(|s| s.as_str()), Some("Johnny"));
    assert_eq!(item.get("Last-Name").map(|s| s.as_str()), Some("Doe"));
}

#[test]
fn name_with_more_spaces_uses_first_two_pieces() {
    let item = build_item("a b c", &Record::new());
    assert_eq!(item.get("Last-Name").map(|s| s.as_str()), Some("a"));
    assert_eq!(item.get("First-Name").map(|s| s.as_str()), Some("b"));
}

#[test]
fn reloading_stores_the_same_item() {
    let fresh = rec(&[("age", "30")]);
    let stored = rec(&[("FullName", "Doe John"), ("city", "Rome"), ("age", "1")]);
    let first = build_item("Doe John", &combine_record(Some(stored), &fresh));
    let first_copy = rec(&first.entries().iter().map(|(k, v)| (k.as_str(), v.as_str())).collect::<Vec<_>>());
    let again = build_item("Doe John", &combine_record(Some(first_copy), &fresh));
    assert_eq!(sorted(&again), sorted(&first));
}

#[test]
fn combine_tables_keeps_names_and_order() {
    let table = parse_input_file("Doe John age=30\nRoe Ann id=7\n");
    let existing = vec![Some(rec(&[("FullName", "Doe John"), ("city", "Rome")])), None];
    let out = combine_tables(&table, existing);
    let names: Vec<&str> = out.entries().iter().map(|e| e.0.as_str()).collect();
    assert_eq!(names, vec!["Doe John", "Roe Ann"]);
    assert_eq!(sorted(out.get("Doe John").unwrap()), pairs(&[("age", "30"), ("city", "Rome")]));
    assert_eq!(sorted(out.get("Roe Ann").unwrap()), pairs(&[("id", "7")]));
}

#[test]
fn upload_items_follow_table_order() {
    let table = parse_input_file("Doe John age=30\nRoe Ann\n");
    let items = upload_items(&table);
    assert_eq!(items.len(), 2);
    assert_eq!(
        sorted(&items[0]),
        pairs(&[("FullName", "Doe John"), ("Last-Name", "Doe"), ("First-Name", "John"), ("age", "30")])
    );
    assert_eq!(
        sorted(&items[1]),
        pairs(&[("FullName", "Roe Ann"), ("Last-Name", "Roe"), ("First-Name", "Ann")])
    );
}

#[test]
fn empty_table_uploads_nothing() {
    let items = upload_items(&NameTable::new());
    assert!(items.is_empty());
}

#[test]
fn person_found_by_both_indexes_is_listed_once() {
    let by_last = vec![rec(&[("FullName", "Doe John")]), rec(&[("FullName", "Doe Ann")])];
    let by_first = vec![rec(&[("FullName", "Roe John")]), rec(&[("FullName", "Doe John"), ("x", "1")])];
    let out = merge_query_results(by_last, by_first);
    let names: Vec<&str> = out.iter().map(|r| r.get("FullName").unwrap().as_str()).collect();
    assert_eq!(names, vec!["Doe John", "Doe Ann", "Roe John"]);
}

#[test]
fn records_without_full_name_are_always_listed() {
    let by_last = vec![rec(&[("a", "1")])];
    let by_first = vec![rec(&[("b", "2")]), rec(&[("c", "3")])];
    let out = merge_query_results(by_last, by_first);
    assert_eq!(out.len(), 3);
    assert_eq!(out[2].get("c").map(|s| s.as_str()), Some("3"));
}

#[test]
fn merge_of_empty_answers_is_empty() {
    assert!(merge_query_results(Vec::new(), Vec::new()).is_empty());
}

#[test]
fn parsed_names_can_be_uploaded() {
    let table = parse_input_file("Doe John age=30\nRoe Ann\n");
    assert!(prog4::names_splittable(&table));
    let mut odd = NameTable::new();
    odd.insert("Nobody".to_string(), Record::new());
    assert!(!prog4::names_splittable(&odd));
}

#[test]
fn full_name_keys_are_recognised() {
    assert!(prog4::mentions_full_name_key("FullName"));
    assert!(prog4::mentions_full_name_key("OldFullNameCopy"));
    assert!(!prog4::mentions_full_name_key("Full-Name"));
    assert!(!prog4::mentions_full_name_key("Last-Name"));
}

#[test]
fn last_name_answer_lookup() {
    let by_last = vec![rec(&[("FullName", "Doe John")]), rec(&[("a", "1")])];
    assert!(prog4::found_by_last_name(&by_last, "Doe John"));
    assert!(!prog4::found_by_last_name(&by_last, "Roe Ann"));
    assert!(!prog4::found_by_last_name(&Vec::new(), "Doe John"));
}
