use rsoc::codec::{join_with, same_text, split_on};
use rsoc::digest::{hex_lower, sha256_hex};
use rsoc::logstore::{format_timestamp, CivilTime};

#[test]
fn split_on_cuts_at_each_delimiter() {
    let parts = split_on("Zarya-1[:1:]net[:1:]net_admin", "[:1:]");
    assert_eq!(parts, vec!["Zarya-1".to_string(), "net".to_string(), "net_admin".to_string()]);
}

#[test]
fn split_on_keeps_empty_pieces() {
    let parts = split_on("a\n\nb\n", "\n");
    assert_eq!(parts, vec!["a".to_string(), "".to_string(), "b".to_string(), "".to_string()]);
    assert_eq!(split_on("", "\n"), vec!["".to_string()]);
}

#[test]
fn split_on_handles_non_ascii_text() {
    let parts = split_on("ключ[:2:]значение", "[:2:]");
    assert_eq!(parts, vec!["ключ".to_string(), "значение".to_string()]);
}

#[test]
fn join_with_puts_delimiter_between_pieces() {
    let parts = vec!["a".to_string(), "b".to_string(), "c".to_string()];
    assert_eq!(join_with(&parts, "[:2:]"), "a[:2:]b[:2:]c");
    assert_eq!(join_with(&Vec::new(), "[:2:]"), "");
    assert_eq!(join_with(&vec!["x".to_string()], "[:2:]"), "x");
}

#[test]
fn same_text_compares_characters() {
    assert!(same_text("net", "net"));
    assert!(!same_text("net", "host"));
    assert!(!same_text("net", "ne"));
}

#[test]
fn hex_lower_writes_two_digits_per_byte() {
    assert_eq!(hex_lower(&[0x00, 0x0f, 0xa0, 0xff]), "000fa0ff");
    assert_eq!(hex_lower(&[]), "");
}

#[test]
fn sha256_hex_of_known_inputs() {
    assert_eq!(
        sha256_hex("admin"),
        "8c6976e5b5410415bde908bd4dee15dfb167a9c873fc4bb8a81f6f2ab448a918"
    );
    assert_eq!(
        sha256_hex("abc"),
        "ba7816bf8f01cfea414140de5dae2223b00361a396177a9cb410ff61f20015ad"
    );
}

#[test]
fn timestamp_is_day_month_year_time() {
    let t = CivilTime { year: 2023, month: 11, day: 4, hour: 7, minute: 5, second: 9 };
    assert_eq!(format_timestamp(&t), "04-11-2023 07:05:09");
}

#[test]
fn timestamp_pads_and_signs_the_year() {
    let t = CivilTime { year: 42, month: 1, day: 31, hour: 23, minute: 59, second: 59 };
    assert_eq!(format_timestamp(&t), "31-01-0042 23:59:59");
    let t = CivilTime { year: 12345, month: 1, day: 1, hour: 0, minute: 0, second: 0 };
    assert_eq!(format_timestamp(&t), "01-01-+12345 00:00:00");
    let t = CivilTime { year: -1, month: 1, day: 1, hour: 0, minute: 0, second: 0 };
    assert_eq!(format_timestamp(&t), "01-01--0001 00:00:00");
}
