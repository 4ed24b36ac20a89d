use feedutil::entry::Entry;
use feedutil::listing::{count_unread_entries, get_feed_entries, mark_entry_as_read, mark_feed_as_read, remove_feed_entries};
use feedutil::store::{LockAttempt, LockBackoff, LockDecision, Transaction, TxAction, TxFailure, TxPhase};

fn entry(feed: &str, id: &str, updated: &str, read: bool) -> Entry {
    Entry {
        feed: feed.to_string(),
        id: id.to_string(),
        title: format!("title {}", id),
        updated: updated.to_string(),
        link: format!("http://x/{}", id),
        read,
    }
}

#[test]
fn marking_one_entry_read() {
    let entries = vec![entry("F", "1", "u", false), entry("G", "1", "u", false), entry("F", "2", "u", false)];
    let r = mark_entry_as_read(entries, &"F".to_string(), &"1".to_string());
    let flags: Vec<bool> = r.iter().map(|e| e.read).collect();
    assert_eq!(flags, vec![true, false, false]);
}

#[test]
fn marking_a_feed_read() {
    let entries = vec![entry("F", "1", "u", false), entry("G", "1", "u", false), entry("F", "2", "u", true)];
    let r = mark_feed_as_read(entries, &"F".to_string());
    let flags: Vec<bool> = r.iter().map(|e| e.read).collect();
    assert_eq!(flags, vec![true, false, true]);
}

#[test]
fn removing_a_feed() {
    let entries = vec![entry("F", "1", "u", false), entry("G", "1", "u", false), entry("F", "2", "u", true)];
    let r = remove_feed_entries(entries, &"F".to_string());
    assert_eq!(r, vec![entry("G", "1", "u", false)]);
}

#[test]
fn feed_entries_oldest_first_then_by_id() {
    let entries = vec![
        entry("F", "b", "2024-01-02", false),
        entry("G", "a", "2000-01-01", false),
        entry("F", "c", "2024-01-01", true),
        entry("F", "a", "2024-01-02", false),
    ];
    let r = get_feed_entries(entries, &"F".to_string());
    let ids: Vec<&str> = r.iter().map(|e| e.id.as_str()).collect();
    assert_eq!(ids, vec!["c", "a", "b"]);
}

#[test]
fn unread_counts_per_feed() {
    let entries = vec![
        entry("F", "1", "u", false),
        entry("G", "1", "u", true),
        entry("H", "1", "u", false),
        entry("F", "2", "u", false),
        entry("F", "3", "u", true),
    ];
    assert_eq!(count_unread_entries(&entries), vec![("F".to_string(), 2), ("H".to_string(), 1)]);
    assert_eq!(count_unread_entries(&Vec::new()), vec![]);
}

#[test]
fn backoff_doubles_then_times_out() {
    let mut b = LockBackoff::new();
    let mut waits = Vec::new();
    loop {
        match b.next(LockAttempt::AlreadyExists) {
            LockDecision::RetryAfter { millis } => waits.push(millis),
            d => {
                assert_eq!(d, LockDecision::TimedOut);
                break;
            }
        }
    }
    assert_eq!(waits, vec![50, 100, 200, 400, 800, 450]);
    assert_eq!(waits.iter().sum::<u64>(), 2000);
}

#[test]
fn backoff_acquires_or_fails_at_once() {
    let mut b = LockBackoff::new();
    assert_eq!(b.next(LockAttempt::Created), LockDecision::Acquired);
    assert_eq!(b.next(LockAttempt::Failed), LockDecision::Failed);
    assert_eq!(b, LockBackoff::new());
}

#[test]
fn transaction_runs_all_steps() {
    let mut t = Transaction::new();
    assert_eq!(t.on_lock_attempt(LockAttempt::AlreadyExists), TxAction::Wait { millis: 50 });
    assert_eq!(t.on_lock_attempt(LockAttempt::Created), TxAction::ReadStore);
    assert_eq!(t.on_step(true), TxAction::WriteStaged);
    assert_eq!(t.on_step(true), TxAction::SyncStaged);
    assert_eq!(t.on_step(true), TxAction::ReplaceStore);
    assert_eq!(t.on_step(true), TxAction::Finish);
    assert_eq!(t.phase, TxPhase::Committed);
}

#[test]
fn transaction_failures_release_the_lock_once_held() {
    let mut t = Transaction::new();
    assert_eq!(
        t.on_lock_attempt(LockAttempt::Failed),
        TxAction::Abort { failure: TxFailure::LockFailed, remove_lock: false }
    );
    let mut t = Transaction::new();
    t.on_lock_attempt(LockAttempt::Created);
    assert_eq!(t.on_step(false), TxAction::Abort { failure: TxFailure::Read, remove_lock: true });
    let mut t = Transaction::new();
    t.on_lock_attempt(LockAttempt::Created);
    t.on_step(true);
    t.on_step(true);
    assert_eq!(t.on_step(false), TxAction::Abort { failure: TxFailure::Sync, remove_lock: true });
    assert_eq!(t.phase, TxPhase::Aborted);
}

#[test]
fn transaction_times_out_without_touching_the_lock() {
    let mut t = Transaction::new();
    let mut waits = Vec::new();
    let last = loop {
        match t.on_lock_attempt(LockAttempt::AlreadyExists) {
            TxAction::Wait { millis } => waits.push(millis),
            other => break other,
        }
    };
    assert_eq!(waits, vec![50, 100, 200, 400, 800, 450]);
    assert_eq!(last, TxAction::Abort { failure: TxFailure::LockTimedOut, remove_lock: false });
}
