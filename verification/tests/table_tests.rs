use byte_scan::{entries_from_pred, ByteMatchTable, SafeByteMatchTable};

#[test]
fn unconstrained_table_reflects_pattern() {
    let table = ByteMatchTable::new(entries_from_pred(|b| b < 3));
    assert!(table.matches(0));
    assert!(table.matches(1));
    assert!(table.matches(2));
    assert!(!table.matches(3));
    assert!(!table.matches(255));
}

#[test]
fn unconstrained_table_accepts_any_pattern() {
    // A pattern that is unsafe for the boundary-safe flavour: matches one
    // continuation byte, no lead bytes.
    let table = ByteMatchTable::new(entries_from_pred(|b| b == 0x80));
    assert!(table.matches(0x80));
    assert!(!table.matches(0x81));
}

#[test]
fn matches_is_pure() {
    let table = ByteMatchTable::new(entries_from_pred(|b| b % 2 == 0));
    let first = table.matches(100);
    // Unrelated lookups in between must not disturb the answer.
    let _ = table.matches(3);
    let _ = table.matches(255);
    let second = table.matches(100);
    assert_eq!(first, second);
    assert!(first);
}

#[test]
fn safe_matches_is_pure() {
    let table = SafeByteMatchTable::new(entries_from_pred(|b| b == b' '));
    let first = table.matches(b' ');
    let _ = table.matches(b'x');
    let second = table.matches(b' ');
    assert_eq!(first, second);
    assert!(first);
}

#[test]
fn safe_table_accepts_all_leads_matching() {
    // Condition (a): every byte in [192, 248) matches.
    let built = SafeByteMatchTable::try_new(entries_from_pred(|b| b >= 192));
    assert!(built.is_some());
    let table = built.unwrap();
    assert!(table.matches(192));
    assert!(table.matches(247));
    assert!(table.matches(255));
    assert!(!table.matches(191));
}

#[test]
fn safe_table_accepts_non_ascii_pattern() {
    // Condition (a) again: `!b.is_ascii()` marks every lead byte true.
    let built = SafeByteMatchTable::try_new(entries_from_pred(|b| !b.is_ascii()));
    assert!(built.is_some());
}

#[test]
fn safe_table_accepts_continuation_free_pattern() {
    // Condition (b): nothing in [128, 192) matches.
    let built = SafeByteMatchTable::try_new(entries_from_pred(|b| b == b' ' || b == b'\t'));
    assert!(built.is_some());
    let table = built.unwrap();
    assert!(table.matches(b' '));
    assert!(table.matches(b'\t'));
    assert!(!table.matches(b'a'));
}

#[test]
fn safe_table_rejects_unsafe_pattern() {
    // Matches exactly 0x00 and one continuation byte: neither condition
    // holds, so construction must fail.
    let built = SafeByteMatchTable::try_new(entries_from_pred(|b| b == 0x00 || b == 0x80));
    assert!(built.is_none());
}

#[test]
fn safe_table_rejects_partial_lead_cover() {
    // Matches one continuation byte and only some lead bytes.
    let built = SafeByteMatchTable::try_new(entries_from_pred(|b| b == 0xE2 || b == 0x85));
    assert!(built.is_none());
}

#[test]
fn safe_table_new_reflects_pattern() {
    let table = SafeByteMatchTable::new(entries_from_pred(|b| b.is_ascii_digit() || b >= 192));
    assert!(table.matches(b'0'));
    assert!(table.matches(b'9'));
    assert!(table.matches(200));
    assert!(!table.matches(b'a'));
}

#[test]
fn use_table_is_callable() {
    let table = SafeByteMatchTable::new(entries_from_pred(|b| b >= 192));
    table.use_table();
    assert!(table.matches(192));
}
