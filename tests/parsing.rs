use feedutil::dates::{handle_rss_pub_date, replace_utc};
use feedutil::entry::Entry;
use feedutil::feed::{parse_feed, parse_feed_at, Diagnostic, EntryPart};

const NOW: &str = "2030-05-06T07:08:09+00:00";

fn parse(doc: &str) -> (Vec<Entry>, Vec<Diagnostic>) {
    let r = parse_feed_at(doc.as_bytes(), &"news".to_string(), &NOW.to_string());
    (r.entries, r.diagnostics)
}

fn entry(id: &str, title: &str, updated: &str, link: &str) -> Entry {
    Entry {
        feed: "news".to_string(),
        id: id.to_string(),
        title: title.to_string(),
        updated: updated.to_string(),
        link: link.to_string(),
        read: false,
    }
}

#[test]
fn rss_item_without_pub_date_is_stamped_with_parse_time() {
    let doc = "<rss><channel><item><guid>A</guid><title>T</title><link>http://x/</link></item></channel></rss>";
    let (entries, diags) = parse(doc);
    assert_eq!(entries, vec![entry("A", "T", NOW, "http://x/")]);
    assert!(diags.is_empty());
}

#[test]
fn rss_example_through_the_clock() {
    let doc = "<rss><channel><item><guid>A</guid><title>T</title><link>http://x/</link></item></channel></rss>";
    let r = parse_feed(doc.as_bytes(), &"news".to_string());
    assert_eq!(r.entries.len(), 1);
    let e = &r.entries[0];
    assert_eq!((e.id.as_str(), e.title.as_str(), e.link.as_str(), e.read), ("A", "T", "http://x/", false));
    assert!(chrono::DateTime::parse_from_rfc3339(&e.updated).is_ok());
}

#[test]
fn rss_fallbacks_for_id_and_title() {
    let doc = "<rss><channel><title>Chan</title><item><link>http://x/1</link></item></channel></rss>";
    let (entries, _) = parse(doc);
    assert_eq!(entries, vec![entry("http://x/1", "Untitled", NOW, "http://x/1")]);
}

#[test]
fn rss_item_without_link_is_dropped() {
    let doc = "<rss><channel><item><guid>A</guid><title>T</title></item><item><guid>B</guid><link>http://x/b</link></item></channel></rss>";
    let (entries, diags) = parse(doc);
    assert_eq!(entries, vec![entry("B", "Untitled", NOW, "http://x/b")]);
    assert_eq!(diags, vec![Diagnostic::IncompleteEntry { missing: EntryPart::Link }]);
}

#[test]
fn rss_pub_date_is_converted_and_utc_accepted() {
    let doc = "<rss><channel>\
        <item><guid>1</guid><link>http://x/1</link><pubDate>Wed, 18 Feb 2015 23:16:09 GMT</pubDate></item>\
        <item><guid>2</guid><link>http://x/2</link><pubDate>Wed, 18 Feb 2015 23:16:09 UTC</pubDate></item>\
        <item><guid>3</guid><link>http://x/3</link><pubDate>yesterday</pubDate></item>\
        </channel></rss>";
    let (entries, _) = parse(doc);
    let dates: Vec<&str> = entries.iter().map(|e| e.updated.as_str()).collect();
    assert_eq!(dates, vec!["2015-02-18T23:16:09+00:00", "2015-02-18T23:16:09+00:00", NOW]);
}

#[test]
fn rss_cdata_and_control_characters() {
    let doc = "<rss><channel><item><guid>A</guid><title><![CDATA[Fish &amp; Chips]]></title><link>http://x/&#9;a</link></item></channel></rss>";
    let (entries, _) = parse(doc);
    assert_eq!(entries, vec![entry("A", "Fish &amp; Chips", NOW, "http://x/a")]);
}

#[test]
fn atom_entry_missing_updated_is_dropped_and_rest_read() {
    let doc = "<feed xmlns=\"http://www.w3.org/2005/Atom\">\
        <entry><id>1</id><title>One</title><link href=\"http://x/1\"/></entry>\
        <entry><id>2</id><title>Two</title><updated>2024-01-02T00:00:00Z</updated><link href=\"http://x/2\"/></entry>\
        </feed>";
    let (entries, diags) = parse(doc);
    assert_eq!(entries, vec![entry("2", "Two", "2024-01-02T00:00:00Z", "http://x/2")]);
    assert_eq!(diags, vec![Diagnostic::IncompleteEntry { missing: EntryPart::Updated }]);
}

#[test]
fn atom_reports_first_missing_field() {
    let doc = "<feed>\
        <entry><title>T</title><updated>u</updated><link href=\"http://x/\"/></entry>\
        <entry><id>1</id><updated>u</updated><link href=\"http://x/\"/></entry>\
        <entry><id>1</id><title>T</title><updated>u</updated></entry>\
        </feed>";
    let (entries, diags) = parse(doc);
    assert!(entries.is_empty());
    assert_eq!(
        diags,
        vec![
            Diagnostic::IncompleteEntry { missing: EntryPart::Id },
            Diagnostic::IncompleteEntry { missing: EntryPart::Title },
            Diagnostic::IncompleteEntry { missing: EntryPart::Link },
        ]
    );
}

#[test]
fn atom_invalid_href_is_ignored() {
    let doc = "<feed><entry><id>1</id><title>T</title><updated>u</updated><link href=\"not a url\"/></entry></feed>";
    let (entries, diags) = parse(doc);
    assert!(entries.is_empty());
    assert_eq!(
        diags,
        vec![
            Diagnostic::InvalidUrl { url: "not a url".to_string() },
            Diagnostic::IncompleteEntry { missing: EntryPart::Link },
        ]
    );
}

#[test]
fn malformed_document_keeps_what_was_complete() {
    let doc = "<rss><channel><item><guid>A</guid><link>http://x/a</link></item><item><guid>B</oops></item></channel></rss>";
    let (entries, diags) = parse(doc);
    assert_eq!(entries, vec![entry("A", "Untitled", NOW, "http://x/a")]);
    assert_eq!(diags.len(), 1);
    assert!(matches!(diags[0], Diagnostic::MalformedXml { .. }));
}

#[test]
fn other_root_element_gives_nothing() {
    let (entries, diags) = parse("<html><rss><channel><item><link>http://x/</link></item></channel></rss></html>");
    assert!(entries.is_empty());
    assert_eq!(diags, vec![Diagnostic::UnknownFormat]);
}

#[test]
fn unreadable_bytes_give_nothing() {
    let (entries, diags) = parse("not xml at all");
    assert!(entries.is_empty());
    assert_eq!(diags.last(), Some(&Diagnostic::UnknownFormat));
}

#[test]
fn utc_is_replaced_by_gmt() {
    assert_eq!(replace_utc("Mon, 01 Jan 2024 00:00:00 UTC"), "Mon, 01 Jan 2024 00:00:00 GMT");
    assert_eq!(replace_utc("UTCUTUTC"), "GMTUTGMT");
    assert_eq!(replace_utc(""), "");
}

#[test]
fn pub_date_falls_back_to_now() {
    let now = NOW.to_string();
    assert_eq!(handle_rss_pub_date(None, &now), NOW);
    assert_eq!(handle_rss_pub_date(Some("garbage".to_string()), &now), NOW);
    assert_eq!(
        handle_rss_pub_date(Some("Tue, 1 Jul 2003 10:52:37 +0200".to_string()), &now),
        "2003-07-01T10:52:37+02:00"
    );
}

#[test]
fn multi_line_text_loses_its_newlines() {
    let doc = "<rss><channel><item><guid>A</guid><title>Two\nlines\r\n\ttabbed</title><link>http://x/</link></item></channel></rss>";
    let (entries, _) = parse(doc);
    assert_eq!(entries[0].title, "Twolinestabbed");
}

#[test]
fn atom_entry_complete() {
    let doc = "<?xml version=\"1.0\"?><feed xmlns=\"http://www.w3.org/2005/Atom\"><title>F</title>\
        <link href=\"http://example.org/\"/>\
        <entry><id>urn:1</id><title type=\"text\">Hello</title><updated>2024-03-04T05:06:07Z</updated>\
        <link rel=\"alternate\" href=\"http://example.org/1\"/></entry></feed>";
    let (entries, diags) = parse(doc);
    assert_eq!(entries, vec![entry("urn:1", "Hello", "2024-03-04T05:06:07Z", "http://example.org/1")]);
    assert!(diags.is_empty());
}
