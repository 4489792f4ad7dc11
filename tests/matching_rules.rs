use rsoc::matching::{event_report, handshake_message, host_rule_matches, net_rule_matches, rule_fired};
use rsoc::rules::{add_rule, get_rules_map, RuleRecord};

fn pair(k: &str, v: &str) -> (String, String) {
    (k.to_string(), v.to_string())
}

#[test]
fn host_rule_fires_on_matching_content() {
    let index = get_rules_map(&add_rule("host", "secret", "pass(word)?=[0-9]+", &vec![]));
    let rule = &index.host[0];
    assert!(host_rule_matches(rule, "user=x\npassword=1234\n"));
    assert!(!host_rule_matches(rule, "password=abc"));
}

#[test]
fn host_rule_with_bad_pattern_never_fires() {
    let rule = RuleRecord { hash: "abcde".to_string(), fields: vec![pair("payload", "(unclosed")] };
    assert!(!host_rule_matches(&rule, "(unclosed"));
    let no_payload = RuleRecord { hash: "abcde".to_string(), fields: vec![pair("name", "x")] };
    assert!(!host_rule_matches(&no_payload, "x"));
}

#[test]
fn net_rule_fires_on_addresses() {
    let both = RuleRecord { hash: "h1".to_string(), fields: vec![pair("src", "aa:aa:aa:aa:aa:aa"), pair("dst", "bb:bb:bb:bb:bb:bb")] };
    assert!(net_rule_matches(&both, "aa:aa:aa:aa:aa:aa", "bb:bb:bb:bb:bb:bb"));
    assert!(!net_rule_matches(&both, "aa:aa:aa:aa:aa:aa", "cc:cc:cc:cc:cc:cc"));
    let src_only = RuleRecord { hash: "h2".to_string(), fields: vec![pair("src", "aa:aa:aa:aa:aa:aa"), pair("dst", " ")] };
    assert!(net_rule_matches(&src_only, "aa:aa:aa:aa:aa:aa", "cc:cc:cc:cc:cc:cc"));
    let dst_only = RuleRecord { hash: "h3".to_string(), fields: vec![pair("src", " "), pair("dst", "bb:bb:bb:bb:bb:bb")] };
    assert!(net_rule_matches(&dst_only, "00:00:00:00:00:00", "bb:bb:bb:bb:bb:bb"));
    assert!(!net_rule_matches(&dst_only, "00:00:00:00:00:00", "aa:aa:aa:aa:aa:aa"));
}

#[test]
fn only_a_match_fires() {
    assert!(rule_fired(Some(true)));
    assert!(!rule_fired(Some(false)));
    assert!(!rule_fired(None));
}

#[test]
fn sensor_messages_use_wire_delimiters() {
    assert_eq!(handshake_message("Zarya-1", "net", "net_admin"), "Zarya-1[:1:]net[:1:]net_admin");
    assert_eq!(event_report("abcde", "1700000000", ""), "event[:3:]abcde[:3:]1700000000");
    assert_eq!(event_report("abcde", "1700000000", "/tmp/x"), "event[:3:]abcde[:3:]1700000000[:3:]/tmp/x");
}
