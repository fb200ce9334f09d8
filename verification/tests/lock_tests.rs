//! The lock ledger: overflow and overlap rejections.

use janus::locks::{LockLedger, LockOutcome, LockRecord};

#[test]
fn lock_past_file_end_overflows() {
    let mut ledger = LockLedger::new();
    let r = ledger.lock(b"file".to_vec(), 1, 20, 10);
    assert_eq!(r, LockOutcome::Overflow);
    assert_eq!(ledger.lock_count(), 0);
}

#[test]
fn overlapping_lock_is_refused() {
    let mut ledger = LockLedger::new();
    assert_eq!(ledger.lock(b"file".to_vec(), 1, 5, 10), LockOutcome::Locked);
    assert_eq!(ledger.lock(b"file".to_vec(), 3, 8, 10), LockOutcome::Overlap);
    assert_eq!(ledger.lock_count(), 1);
}

#[test]
fn disjoint_ranges_and_other_files_are_granted() {
    let mut ledger = LockLedger::new();
    assert_eq!(ledger.lock(b"file".to_vec(), 1, 5, 10), LockOutcome::Locked);
    // [5, 8) touches [1, 5) only at the half-open boundary
    assert_eq!(ledger.lock(b"file".to_vec(), 5, 8, 10), LockOutcome::Locked);
    assert_eq!(ledger.lock(b"other".to_vec(), 1, 5, 10), LockOutcome::Locked);
    assert_eq!(ledger.lock_count(), 3);
}

#[test]
fn overlapping_records_are_rejected_on_load() {
    let records = vec![
        LockRecord { file_name: b"file".to_vec(), begin: 1, end: 5 },
        LockRecord { file_name: b"file".to_vec(), begin: 3, end: 8 },
    ];
    assert!(LockLedger::from_records(records).is_none());
    let disjoint = vec![
        LockRecord { file_name: b"file".to_vec(), begin: 1, end: 5 },
        LockRecord { file_name: b"file".to_vec(), begin: 5, end: 8 },
        LockRecord { file_name: b"other".to_vec(), begin: 1, end: 5 },
    ];
    assert!(LockLedger::from_records(disjoint).is_some());
}

#[test]
fn ledger_round_trips_through_records() {
    let mut ledger = LockLedger::new();
    ledger.lock(b"file".to_vec(), 2, 4, 10);
    let records: Vec<LockRecord> = ledger
        .records()
        .iter()
        .map(|r| LockRecord { file_name: r.file_name.clone(), begin: r.begin, end: r.end })
        .collect();
    let mut reloaded = LockLedger::from_records(records).unwrap();
    assert_eq!(reloaded.lock_count(), 1);
    assert_eq!(reloaded.lock(b"file".to_vec(), 3, 6, 10), LockOutcome::Overlap);
}
