use rsoc::control::{security_line, SecurityRecord};
use rsoc::logstore::{
    audit_line_at, change_audit_status, get_10_latest_audit_messages, get_10_latest_event_messages,
    records, tail, write_audit_event, write_security_event, AuditEventType, AuditRecord, CivilTime,
};

fn noon() -> CivilTime {
    CivilTime { year: 2024, month: 3, day: 15, hour: 12, minute: 0, second: 30 }
}

fn log_of(n: usize) -> String {
    let mut s = String::new();
    for i in 0..n {
        s.push_str(&format!("record {}\n", i));
    }
    s
}

#[test]
fn tail_of_short_log_gives_all_records_in_order() {
    let log = log_of(3);
    assert_eq!(tail(&log, 10), vec!["record 0", "record 1", "record 2"]);
}

#[test]
fn tail_of_long_log_gives_exactly_last_n() {
    let log = log_of(25);
    let last = tail(&log, 10);
    assert_eq!(last.len(), 10);
    assert_eq!(last[0], "record 15");
    assert_eq!(last[9], "record 24");
    assert_eq!(tail(&log_of(10), 10).len(), 10);
}

#[test]
fn tail_skips_blank_lines() {
    assert_eq!(tail("a\n\n\nb\n\n", 5), vec!["a", "b"]);
    assert!(tail("", 5).is_empty());
    assert!(tail("a\nb\n", 0).is_empty());
}

#[test]
fn latest_audit_messages_are_ten() {
    let got = get_10_latest_audit_messages(&log_of(12));
    assert_eq!(got.len(), 10);
    assert_eq!(got[0], "record 2");
}

#[test]
fn audit_line_joins_fields_with_bars() {
    let line = write_audit_event(&noon(), "Control centre", "admin", AuditEventType::UserLogon, "User authenticated", true);
    assert_eq!(
        line,
        Some("15-03-2024 12:00:30[:|:]Control centre[:|:]admin[:|:]UserLogon[:|:]User authenticated\n".to_string())
    );
}

#[test]
fn audit_line_is_withheld_when_audit_is_off() {
    let line = write_audit_event(&noon(), "h", "u", AuditEventType::SenEnable, "m", false);
    assert_eq!(line, None);
}

#[test]
fn kind_names_are_variant_names() {
    assert_eq!(AuditEventType::NetSenDisconn.to_text(), "NetSenDisconn");
    assert_eq!(AuditEventType::ServOff.to_text(), "ServOff");
    assert_eq!(AuditEventType::AudLogAccess.to_text(), "AudLogAccess");
}

#[test]
fn security_event_line_has_four_fields() {
    assert_eq!(write_security_event(&noon(), "Zarya-1", "abcde", true), "15-03-2024 12:00:30[:2:]Zarya-1[:2:]network[:2:]abcde\n");
    assert_eq!(write_security_event(&noon(), "Zarya-2", "01234", false), "15-03-2024 12:00:30[:2:]Zarya-2[:2:]host[:2:]01234\n");
}

#[test]
fn event_messages_of_one_sensor() {
    let mut log = String::new();
    for i in 0..15 {
        let host = if i % 3 == 0 { "alpha" } else { "beta" };
        log.push_str(&write_security_event(&noon(), host, &format!("h{:04}", i), true));
    }
    let alpha = get_10_latest_event_messages(&log, "alpha");
    assert_eq!(alpha.len(), 5);
    assert!(alpha.iter().all(|l| l.contains("[:2:]alpha[:2:]")));
    assert!(alpha[4].ends_with("h0012"));
    let all = get_10_latest_event_messages(&log, "");
    assert_eq!(all.len(), 10);
    assert!(all[9].ends_with("h0014"));
    assert!(get_10_latest_event_messages(&log, "gamma").is_empty());
}

#[test]
fn audit_status_toggles_with_a_record() {
    let mut status = true;
    let (on, rec) = change_audit_status(&mut status, "Control centre", "admin");
    assert!(!on);
    assert!(!status);
    assert_eq!(rec.kind, AuditEventType::AudDisable);
    assert_eq!(rec.message, "Audit disabled");
    let (on, rec) = change_audit_status(&mut status, "Control centre", "admin");
    assert!(on && status);
    assert_eq!(rec.kind, AuditEventType::AudEnable);
    assert_eq!(rec.host, "Control centre");
}

#[test]
fn two_writers_appending_make_whole_lines() {
    let mut log = String::new();
    let n = 40;
    for i in 0..n {
        let (host, user) = if i % 2 == 0 { ("writer-a", "alice") } else { ("writer-b", "bob") };
        let line = write_audit_event(&noon(), host, user, AuditEventType::RulesUpdate, "Rules updated - net level", true).unwrap();
        log.push_str(&line);
    }
    let recs = records(&log);
    assert_eq!(recs.len(), n);
    assert_eq!(log.split('\n').filter(|l| !l.is_empty()).count(), n);
    assert!(recs.iter().all(|r| r.split("[:|:]").count() == 5));
}

#[test]
fn stamped_audit_line_carries_a_timestamp() {
    let rec = AuditRecord {
        host: "h".to_string(),
        user: "u".to_string(),
        kind: AuditEventType::ServOn,
        message: "Management server turned on. Listener started".to_string(),
    };
    let line = audit_line_at(1_700_000_000, &rec, true).unwrap();
    let fields: Vec<&str> = line.trim_end().split("[:|:]").collect();
    assert_eq!(fields.len(), 5);
    assert_eq!(fields[0].len(), 19);
    assert_eq!(&fields[0][2..3], "-");
    assert!(fields[0][6..10].starts_with("2023"));
    assert_eq!(fields[1], "h");
    assert_eq!(fields[3], "ServOn");
    assert_eq!(audit_line_at(1_700_000_000, &rec, false), None);
}

#[test]
fn stamped_event_line_carries_hash_and_sensor() {
    let rec = SecurityRecord { unix_time: 1_700_000_000, host: "Zarya-1".to_string(), is_net_level: true, hash: "abcde".to_string() };
    let line = security_line(&rec).unwrap();
    assert!(line.ends_with("[:2:]Zarya-1[:2:]network[:2:]abcde\n"));
    assert_eq!(line.find("[:2:]"), Some(19));
}
