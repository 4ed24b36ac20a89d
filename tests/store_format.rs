use feedutil::codec::{decode_entries, encode_entries, DecodeError, EntryField};
use feedutil::entry::Entry;
use feedutil::text::sanitize;

fn entry(feed: &str, id: &str, title: &str, updated: &str, link: &str, read: bool) -> Entry {
    Entry {
        feed: feed.to_string(),
        id: id.to_string(),
        title: title.to_string(),
        updated: updated.to_string(),
        link: link.to_string(),
        read,
    }
}

const HEADER: &str = "feed\tid\tupdated\ttitle\tlink\tread\n";

#[test]
fn encode_writes_header_and_one_line_per_entry() {
    let entries = vec![
        entry("news", "a1", "First", "2024-01-01T00:00:00+00:00", "http://x/1", false),
        entry("blog", "b2", "Second", "2024-01-02T00:00:00+00:00", "http://y/2", true),
    ];
    let text = encode_entries(&entries);
    let expected = format!(
        "{}news\ta1\t2024-01-01T00:00:00+00:00\tFirst\thttp://x/1\tunread\nblog\tb2\t2024-01-02T00:00:00+00:00\tSecond\thttp://y/2\tread\n",
        HEADER
    );
    assert_eq!(text, expected);
}

#[test]
fn encode_empty_collection_is_header_only() {
    assert_eq!(encode_entries(&Vec::new()), HEADER);
}

#[test]
fn round_trip_keeps_entries_and_order() {
    let entries = vec![
        entry("news", "a1", "Ünïcödé title", "2024-01-01T00:00:00+00:00", "http://x/1", false),
        entry("news", "a2", "", "", "", true),
        entry("blog", "b2", "Second", "2024-01-02T00:00:00+00:00", "http://y/2", true),
    ];
    let decoded = decode_entries(&encode_entries(&entries)).unwrap();
    assert_eq!(decoded, entries);
}

#[test]
fn decode_empty_text_gives_no_entries() {
    assert_eq!(decode_entries("").unwrap(), Vec::new());
    assert_eq!(decode_entries(HEADER).unwrap(), Vec::new());
}

#[test]
fn decode_skips_first_line_whatever_it_holds() {
    let text = "anything at all\nf\ti\tu\tt\tl\tread\n";
    assert_eq!(decode_entries(text).unwrap(), vec![entry("f", "i", "t", "u", "l", true)]);
}

#[test]
fn decode_reads_only_the_exact_read_token_as_read() {
    let text = format!("{}f\t1\tu\tt\tl\tunread\nf\t2\tu\tt\tl\tREAD\nf\t3\tu\tt\tl\tread\n", HEADER);
    let decoded = decode_entries(&text).unwrap();
    let flags: Vec<bool> = decoded.iter().map(|e| e.read).collect();
    assert_eq!(flags, vec![false, false, true]);
}

#[test]
fn decode_rejects_extra_fields_and_reads_last_line_without_newline() {
    let text = format!("{}f\t1\tu\tt\tl\tread\textra", HEADER);
    assert_eq!(decode_entries(&text), Err(DecodeError::ExtraFields));
    let text = format!("{}f\t1\tu\tt\tl\tread", HEADER);
    assert_eq!(decode_entries(&text).unwrap(), vec![entry("f", "1", "t", "u", "l", true)]);
}

#[test]
fn decode_rejects_extra_fields_after_good_rows() {
    let text = format!("{}f\t1\tu\tt\tl\tread\nf\t2\tu\tt\tl\tunread\t\n", HEADER);
    assert_eq!(decode_entries(&text), Err(DecodeError::ExtraFields));
}

#[test]
fn round_trip_allows_other_control_characters() {
    let entries = vec![entry("f\u{1}", "i\rd", "u\u{7f}", "t\u{85}", "l\u{0}", true)];
    assert_eq!(decode_entries(&encode_entries(&entries)).unwrap(), entries);
}

#[test]
fn decode_drops_carriage_return_before_newline() {
    let text = "feed\tid\tupdated\ttitle\tlink\tread\r\nf\t1\tu\tt\tl\tread\r\n";
    assert_eq!(decode_entries(text).unwrap(), vec![entry("f", "1", "t", "u", "l", true)]);
}

#[test]
fn decode_reports_first_missing_field() {
    let cases = [
        ("f", EntryField::Id),
        ("f\t1", EntryField::Updated),
        ("f\t1\tu", EntryField::Title),
        ("f\t1\tu\tt", EntryField::Link),
        ("f\t1\tu\tt\tl", EntryField::Read),
        ("", EntryField::Id),
    ];
    for (line, field) in cases {
        let text = format!("{}f\t0\tu\tt\tl\tread\n{}\nf\t2\tu\tt\tl\tread\n", HEADER, line);
        assert_eq!(decode_entries(&text), Err(DecodeError::MissingField { field }));
    }
}

#[test]
fn sanitize_strips_control_characters_only() {
    assert_eq!(sanitize("a\tb\nc\r\u{7f}d\u{85}é\u{a0}".to_string()), "abcdé\u{a0}");
    assert_eq!(sanitize(String::new()), "");
    assert_eq!(sanitize("plain".to_string()), "plain");
}

#[test]
fn sanitized_fields_round_trip() {
    let e = entry(
        &sanitize("fe\ted".to_string()),
        &sanitize("i\nd".to_string()),
        &sanitize("ti\r\ntle".to_string()),
        "u",
        "l",
        false,
    );
    let decoded = decode_entries(&encode_entries(&vec![e.clone()])).unwrap();
    assert_eq!(decoded, vec![e]);
}
