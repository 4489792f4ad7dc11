use rsoc::auth::{authenticate, default_user_file, get_user_map, malformed_user_lines};
use rsoc::logstore::AuditEventType;

#[test]
fn bootstrap_admin_logs_in_as_admin() {
    let users = default_user_file();
    let r = authenticate("admin", "admin", &users, "Control centre");
    assert!(r.ok);
    assert_eq!(r.identity, "admin");
    assert!(r.is_admin);
    assert_eq!(r.audit.kind, AuditEventType::UserLogon);
    assert_eq!(r.audit.message, "User authenticated");
    assert_eq!(r.audit.host, "Control centre");
}

#[test]
fn bootstrap_file_holds_one_admin_record() {
    let users = get_user_map(&default_user_file());
    assert_eq!(users.len(), 1);
    assert_eq!(users[0].name, "admin");
    assert_eq!(users[0].pass_hash, "8c6976e5b5410415bde908bd4dee15dfb167a9c873fc4bb8a81f6f2ab448a918");
    assert!(users[0].is_admin);
    assert!(malformed_user_lines(&default_user_file()).is_empty());
    let r = authenticate("user", "user", &default_user_file(), "h");
    assert!(!r.ok);
}

#[test]
fn malformed_user_lines_are_reported() {
    let content = "a[:|:]x[:|:]1\nbroken line\n\nb[:|:]y[:|:]0[:|:]extra\n";
    assert_eq!(
        malformed_user_lines(content),
        vec!["broken line".to_string(), "b[:|:]y[:|:]0[:|:]extra".to_string()]
    );
}

#[test]
fn wrong_password_fails_closed() {
    let r = authenticate("admin", "wrong", &default_user_file(), "h");
    assert!(!r.ok);
    assert_eq!(r.identity, "");
    assert!(!r.is_admin);
    assert_eq!(r.audit.kind, AuditEventType::FailLogon);
    assert_eq!(r.audit.user, "admin");
    assert_eq!(r.audit.message, "Authentication failure");
}

#[test]
fn unknown_user_fails_closed() {
    let r = authenticate("mallory", "admin", &default_user_file(), "h");
    assert!(!r.ok);
    assert_eq!(r.audit.kind, AuditEventType::FailLogon);
}

#[test]
fn user_file_skips_malformed_lines_and_first_record_wins() {
    let content = "a[:|:]x[:|:]1\nbroken line\nb[:|:]y[:|:]0[:|:]extra\na[:|:]z[:|:]0\n";
    let users = get_user_map(content);
    assert_eq!(users.len(), 2);
    assert_eq!(users[0].name, "a");
    assert!(users[0].is_admin);
    assert_eq!(users[1].pass_hash, "z");
    let r = authenticate("a", "anything", content, "h");
    assert!(!r.ok);
}
