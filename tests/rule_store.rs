use rsoc::rules::{add_rule, delete_rule, get_rules_map, get_rules_string_by_level, parse_rule_line, rule_hash};

fn pair(k: &str, v: &str) -> (String, String) {
    (k.to_string(), v.to_string())
}

#[test]
fn rule_hash_is_five_hex_digits_of_name_and_payload() {
    // SHA-256 of "abc" begins ba7816bf.
    assert_eq!(rule_hash("ab", "c"), "ba781");
    assert_eq!(rule_hash("", "abc"), "ba781");
    assert_eq!(rule_hash("a", "dmin"), "8c697");
}

#[test]
fn add_rule_writes_one_line() {
    let line = add_rule("host", "ab", "c", &vec![pair("description", "test rule")]);
    assert_eq!(
        line,
        "level[:1:]host[:2:]hash[:1:]ba781[:2:]name[:1:]ab[:2:]payload[:1:]c[:2:]description[:1:]test rule\n"
    );
}

#[test]
fn add_rule_then_load_gives_one_record() {
    let mut content = String::new();
    content.push_str(&add_rule("net", "block", " ", &vec![pair("protocol", "ipv4"), pair("src", "aa:bb:cc:dd:ee:ff")]));
    let index = get_rules_map(&content);
    assert_eq!(index.net.len(), 1);
    assert_eq!(index.host.len(), 0);
    let rec = &index.net[0];
    assert_eq!(rec.hash, rule_hash("block", " "));
    assert_eq!(
        rec.fields,
        vec![pair("name", "block"), pair("payload", " "), pair("protocol", "ipv4"), pair("src", "aa:bb:cc:dd:ee:ff")]
    );
}

#[test]
fn load_keeps_file_order_and_levels_apart() {
    let mut content = String::new();
    content.push_str(&add_rule("host", "one", "a+", &vec![]));
    content.push_str("\n");
    content.push_str(&add_rule("net", "two", " ", &vec![]));
    content.push_str(&add_rule("host", "three", "b+", &vec![]));
    let index = get_rules_map(&content);
    assert_eq!(index.host.len(), 2);
    assert_eq!(index.net.len(), 1);
    assert_eq!(index.host[0].hash, rule_hash("one", "a+"));
    assert_eq!(index.host[1].hash, rule_hash("three", "b+"));
}

#[test]
fn load_of_empty_file_has_both_levels_empty() {
    let index = get_rules_map("");
    assert!(index.net.is_empty());
    assert!(index.host.is_empty());
}

#[test]
fn malformed_lines_are_passed_over() {
    assert!(parse_rule_line("level[:1:]net").is_none());
    assert!(parse_rule_line("level[:1:]net[:2:]name[:1:]x").is_none());
    assert!(parse_rule_line("level[:1:]net[:2:]hash").is_none());
    assert!(parse_rule_line("").is_none());
    let (level, rec) = parse_rule_line("hash[:1:]abcde[:2:]level[:1:]host").unwrap();
    assert_eq!(level, "host");
    assert_eq!(rec.hash, "abcde");
    assert!(rec.fields.is_empty());
}

#[test]
fn delete_rule_removes_its_line() {
    let a = add_rule("host", "one", "a+", &vec![]);
    let b = add_rule("host", "two", "b+", &vec![]);
    let content = format!("{}{}", a, b);
    let h = rule_hash("one", "a+");
    let after = delete_rule(&content, "host", &h).unwrap();
    assert_eq!(after, b);
    let index = get_rules_map(&after);
    assert!(index.host.iter().all(|r| r.hash != h));
    assert_eq!(index.host.len(), 1);
}

#[test]
fn delete_rule_of_other_level_is_not_found() {
    let content = add_rule("host", "one", "a+", &vec![]);
    let h = rule_hash("one", "a+");
    assert_eq!(delete_rule(&content, "net", &h), None);
    assert_eq!(delete_rule(&content, "host", "00000"), None);
    assert_eq!(delete_rule("", "host", "00000"), None);
}

#[test]
fn delete_rule_of_last_line_empties_file() {
    let content = add_rule("net", "x", " ", &vec![]);
    let h = rule_hash("x", " ");
    assert_eq!(delete_rule(&content, "net", &h), Some(String::new()));
}

#[test]
fn delete_rule_treats_hash_as_literal_text() {
    let content = add_rule("net", "x", " ", &vec![]);
    assert_eq!(delete_rule(&content, "net", "....."), None);
    assert_eq!(delete_rule(&content, "n.t", &rule_hash("x", " ")), None);
}

#[test]
fn rules_of_a_level_are_sent_as_lines() {
    let a = add_rule("host", "one", "a+", &vec![]);
    let b = add_rule("net", "two", " ", &vec![]);
    let content = format!("{}{}", a, b);
    assert_eq!(get_rules_string_by_level("host", &content), a);
    assert_eq!(get_rules_string_by_level("net", &content), b);
    assert_eq!(get_rules_string_by_level("net", ""), "");
}
