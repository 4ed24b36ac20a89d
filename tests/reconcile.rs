use feedutil::entry::Entry;
use feedutil::merge::merge_feed;

fn entry(feed: &str, id: &str, title: &str, read: bool) -> Entry {
    Entry {
        feed: feed.to_string(),
        id: id.to_string(),
        title: title.to_string(),
        updated: "2024-01-01T00:00:00+00:00".to_string(),
        link: format!("http://example.org/{}", id),
        read,
    }
}

fn has(entries: &[Entry], e: &Entry) -> bool {
    entries.iter().any(|x| x == e)
}

#[test]
fn unread_entry_missing_from_feed_is_kept() {
    let current = vec![entry("F", "X", "Old", false)];
    let result = merge_feed("F".to_string(), vec![entry("F", "Y", "Other", false)], current.clone());
    assert!(has(&result, &current[0]));
}

#[test]
fn read_entry_missing_from_feed_is_dropped() {
    let current = vec![entry("F", "X", "Old", true)];
    let result = merge_feed("F".to_string(), vec![entry("F", "Y", "Other", false)], current.clone());
    assert!(!has(&result, &current[0]));
    assert_eq!(result, vec![entry("F", "Y", "Other", false)]);
}

#[test]
fn listed_entry_is_not_updated() {
    let current = vec![entry("F", "X", "Old", true)];
    let result = merge_feed("F".to_string(), vec![entry("F", "X", "New", false)], current.clone());
    assert_eq!(result, vec![entry("F", "X", "Old", true)]);
}

#[test]
fn new_entry_is_added_unread() {
    let current = vec![entry("F", "X", "Old", false)];
    let result = merge_feed("F".to_string(), vec![entry("F", "X", "Old", false), entry("F", "Z", "Fresh", false)], current);
    assert_eq!(result, vec![entry("F", "X", "Old", false), entry("F", "Z", "Fresh", false)]);
}

#[test]
fn added_entries_belong_to_the_feed_and_are_unread() {
    let result = merge_feed("F".to_string(), vec![entry("G", "Z", "Fresh", true)], Vec::new());
    assert_eq!(result, vec![entry("F", "Z", "Fresh", false)]);
}

#[test]
fn other_feeds_are_untouched() {
    let current = vec![
        entry("A", "1", "a1", true),
        entry("F", "X", "Old", true),
        entry("B", "2", "b2", false),
        entry("A", "X", "same id, other feed", true),
    ];
    let result = merge_feed("F".to_string(), vec![entry("F", "Y", "New", false)], current.clone());
    let others: Vec<Entry> = result.iter().filter(|e| e.feed != "F").cloned().collect();
    let before: Vec<Entry> = current.iter().filter(|e| e.feed != "F").cloned().collect();
    assert_eq!(others, before);
}

#[test]
fn reconciling_twice_changes_nothing() {
    let current = vec![
        entry("F", "1", "one", true),
        entry("F", "2", "two", false),
        entry("F", "3", "three", true),
        entry("G", "1", "g", true),
    ];
    let incoming = vec![entry("F", "3", "three again", false), entry("F", "4", "four", false), entry("F", "5", "five", false)];
    let once = merge_feed("F".to_string(), incoming.clone(), current);
    let twice = merge_feed("F".to_string(), incoming, once.clone());
    assert_eq!(once, twice);
    assert_eq!(
        once,
        vec![
            entry("F", "2", "two", false),
            entry("F", "3", "three", true),
            entry("G", "1", "g", true),
            entry("F", "4", "four", false),
            entry("F", "5", "five", false),
        ]
    );
}

#[test]
fn duplicate_incoming_ids_keep_the_last() {
    let incoming = vec![entry("F", "1", "first", false), entry("F", "2", "two", false), entry("F", "1", "last", false)];
    let result = merge_feed("F".to_string(), incoming, Vec::new());
    assert_eq!(result, vec![entry("F", "1", "last", false), entry("F", "2", "two", false)]);
}

#[test]
fn empty_feed_drops_read_entries_of_that_feed_only() {
    let current = vec![entry("F", "1", "one", true), entry("F", "2", "two", false), entry("G", "3", "three", true)];
    let result = merge_feed("F".to_string(), Vec::new(), current);
    assert_eq!(result, vec![entry("F", "2", "two", false), entry("G", "3", "three", true)]);
}

#[test]
fn reconciled_store_keeps_keys_unique() {
    let current = vec![entry("F", "1", "one", false), entry("G", "1", "g", false), entry("F", "2", "two", true)];
    let incoming = vec![entry("F", "1", "one", false), entry("F", "3", "three", false), entry("F", "3", "three again", false)];
    let result = merge_feed("F".to_string(), incoming, current);
    for (i, a) in result.iter().enumerate() {
        for (j, b) in result.iter().enumerate() {
            if i != j {
                assert!(a.feed != b.feed || a.id != b.id);
            }
        }
    }
    assert_eq!(result.len(), 3);
}
