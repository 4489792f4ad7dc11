use rsoc::control::{parse_unix_time, process};
use rsoc::logstore::AuditEventType;
use rsoc::protocol::{ConnState, Connection, Notification, Step};
use rsoc::registry::{change_sensor_state, get_sensor_list, Registry};
use rsoc::rules::{add_rule, get_rules_string_by_level};

#[test]
fn insert_then_list_shows_capture_enabled() {
    let mut reg: Registry<u32> = Registry::new();
    reg.insert("127.0.0.1:5000".to_string(), "Zarya-1".to_string(), "net".to_string(), "net_admin".to_string(), 7);
    let list = get_sensor_list(&reg);
    assert_eq!(list.len(), 1);
    assert_eq!(list[0].address, "127.0.0.1:5000");
    assert_eq!(list[0].name, "Zarya-1");
    assert_eq!(list[0].level, "net");
    assert!(list[0].capture_enabled);
    assert_eq!(reg.outbound("127.0.0.1:5000"), Some(&7));
}

#[test]
fn insert_of_same_address_replaces_entry() {
    let mut reg: Registry<u32> = Registry::new();
    reg.insert("a:1".to_string(), "one".to_string(), "net".to_string(), "u".to_string(), 1);
    reg.insert("a:1".to_string(), "two".to_string(), "host".to_string(), "u".to_string(), 2);
    let list = reg.list();
    assert_eq!(list.len(), 1);
    assert_eq!(list[0].name, "two");
    assert_eq!(reg.outbound("a:1"), Some(&2));
}

#[test]
fn toggling_capture_gives_one_audit_record_each_time() {
    let mut reg: Registry<u32> = Registry::new();
    reg.insert("10.0.0.2:4000".to_string(), "Zarya-1".to_string(), "net".to_string(), "net_admin".to_string(), 0);
    let (on, rec) = change_sensor_state("10.0.0.2:4000", &mut reg, "admin").unwrap();
    assert!(!on);
    assert_eq!(rec.kind, AuditEventType::SenDisable);
    assert_eq!(rec.host, "Zarya-1");
    assert_eq!(rec.user, "admin");
    assert_eq!(rec.message, "Event logging disabled");
    assert_eq!(reg.capture_enabled("10.0.0.2:4000"), Some(false));
    let (on, rec) = change_sensor_state("10.0.0.2:4000", &mut reg, "admin").unwrap();
    assert!(on);
    assert_eq!(rec.kind, AuditEventType::SenEnable);
    assert_eq!(reg.capture_enabled("10.0.0.2:4000"), Some(true));
}

#[test]
fn toggling_unknown_sensor_is_not_found() {
    let mut reg: Registry<u32> = Registry::new();
    assert!(change_sensor_state("1.2.3.4:5", &mut reg, "admin").is_none());
    assert!(reg.list().is_empty());
}

#[test]
fn remove_drops_the_session() {
    let mut reg: Registry<u32> = Registry::new();
    reg.insert("a:1".to_string(), "one".to_string(), "net".to_string(), "u".to_string(), 1);
    reg.insert("b:2".to_string(), "two".to_string(), "host".to_string(), "u".to_string(), 2);
    let gone = reg.remove("a:1").unwrap();
    assert_eq!(gone.name, "one");
    assert_eq!(gone.outbound, 1);
    assert!(reg.remove("a:1").is_none());
    assert_eq!(reg.list().len(), 1);
    assert_eq!(reg.capture_enabled("a:1"), None);
}

#[test]
fn unix_time_reads_decimal_digits() {
    assert_eq!(parse_unix_time("1700000000"), Some(1_700_000_000));
    assert_eq!(parse_unix_time("0"), Some(0));
    assert_eq!(parse_unix_time("9223372036854775807"), Some(i64::MAX));
    assert_eq!(parse_unix_time("9223372036854775808"), None);
    assert_eq!(parse_unix_time(""), None);
    assert_eq!(parse_unix_time("17x"), None);
    assert_eq!(parse_unix_time("-5"), None);
}

#[test]
fn malformed_handshake_drops_connection() {
    let mut c = Connection::new("a:1".to_string(), 0u32);
    assert!(matches!(c.on_message("just-a-name"), Step::Drop));
    assert!(matches!(c.state, ConnState::Closed));
    assert!(matches!(c.on_message("update"), Step::Nothing));
}

#[test]
fn close_before_handshake_is_silent() {
    let mut c = Connection::new("a:1".to_string(), 0u32);
    assert!(matches!(c.on_closed(), Step::Nothing));
    assert!(matches!(c.state, ConnState::Closed));
}

#[test]
fn unknown_command_is_ignored() {
    let mut c = Connection::new("a:1".to_string(), 0u32);
    let _ = c.on_message("s[:1:]host[:1:]u");
    assert!(matches!(c.on_message("hello"), Step::Nothing));
    assert!(matches!(c.on_message("event[:3:]abcde"), Step::Nothing));
    assert!(matches!(c.state, ConnState::Active { .. }));
}

#[test]
fn session_end_to_end() {
    let addr = "127.0.0.1:40001";
    let mut reg: Registry<u32> = Registry::new();
    let mut conn = Connection::new(addr.to_string(), 99u32);

    // Handshake registers the session through the control loop.
    let n = match conn.on_message("Zarya-1[:1:]net[:1:]net_admin") {
        Step::Notify(n) => n,
        _ => panic!("handshake gave no notification"),
    };
    let fx = process(&mut reg, n, "Control centre", "admin");
    assert!(!fx.stop && fx.event.is_none());
    let audit = fx.audit.unwrap();
    assert_eq!(audit.kind, AuditEventType::NetSenConn);
    assert_eq!(audit.host, "Zarya-1");
    assert_eq!(audit.user, "net_admin");
    assert_eq!(audit.message, "Sensor connected. Type - net");
    let list = reg.list();
    assert_eq!(list.len(), 1);
    assert_eq!(list[0].address, addr);
    assert_eq!(list[0].level, "net");
    assert_eq!(reg.outbound(addr), Some(&99));

    // With no net rules stored, an update sends an empty payload.
    let rules = add_rule("host", "only-host", "x+", &vec![]);
    match conn.on_message("update") {
        Step::SendRules { level, then } => {
            assert_eq!(level, "net");
            assert_eq!(get_rules_string_by_level(&level, &rules), "");
            assert_eq!(get_rules_string_by_level(&level, ""), "");
            let fx = process(&mut reg, then, "Control centre", "admin");
            let audit = fx.audit.unwrap();
            assert_eq!(audit.kind, AuditEventType::RulesUpdate);
            assert_eq!(audit.message, "Rules updated - net level");
        }
        _ => panic!("update gave no rules"),
    }

    // An event with capture enabled gives one security event.
    let n = match conn.on_message("event[:3:]abcde[:3:]1700000000") {
        Step::Notify(n) => n,
        _ => panic!("event gave no notification"),
    };
    let fx = process(&mut reg, n, "Control centre", "admin");
    assert!(fx.audit.is_none());
    let ev = fx.event.unwrap();
    assert_eq!(ev.hash, "abcde");
    assert_eq!(ev.host, "Zarya-1");
    assert_eq!(ev.unix_time, 1_700_000_000);
    assert!(ev.is_net_level);

    // A zero-byte read removes the session and gives one NetSenDisconn record.
    let n = match conn.on_closed() {
        Step::Notify(n) => n,
        _ => panic!("close gave no notification"),
    };
    assert!(matches!(n, Notification::Disconnect { .. }));
    let fx = process(&mut reg, n, "Control centre", "admin");
    let audit = fx.audit.unwrap();
    assert_eq!(audit.kind, AuditEventType::NetSenDisconn);
    assert_eq!(audit.message, "Sensor disconnected. Type - net");
    assert!(reg.list().is_empty());
}

#[test]
fn events_of_disabled_sensor_are_dropped() {
    let mut reg: Registry<u32> = Registry::new();
    reg.insert("a:1".to_string(), "s".to_string(), "host".to_string(), "u".to_string(), 0);
    let _ = change_sensor_state("a:1", &mut reg, "admin");
    let n: Notification<u32> = Notification::EventReported {
        addr: "a:1".to_string(),
        hash: "abcde".to_string(),
        time: "1700000000".to_string(),
        name: "s".to_string(),
        level: "host".to_string(),
    };
    let fx = process(&mut reg, n, "Control centre", "admin");
    assert!(fx.event.is_none() && fx.audit.is_none());
}

#[test]
fn stop_ends_the_loop_with_serv_off() {
    let mut reg: Registry<u32> = Registry::new();
    let fx = process(&mut reg, Notification::Stop, "Control centre", "admin");
    assert!(fx.stop);
    let audit = fx.audit.unwrap();
    assert_eq!(audit.kind, AuditEventType::ServOff);
    assert_eq!(audit.host, "Control centre");
    assert_eq!(audit.user, "admin");
    assert_eq!(audit.message, "Management server turned off");
}
