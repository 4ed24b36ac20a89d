//! The feed parser: RSS or Atom, told apart by the root element, read in one pass.

use vstd::prelude::*;
use vstd::string::*;
use crate::dates::{handle_rss_pub_date, rss_date, text_views};
use crate::entry::{Entry, EntryView, views, all_clean};
use crate::events::{XmlItem, XmlItemView, item_views};
use crate::text::{is_clean, sanitize, stripped, text_is};

verus! {

/// The part of an item or entry whose absence made the parser skip it.
#[derive(Clone, Copy, Debug, PartialEq, Eq, Structural)]
pub enum EntryPart {
    Id,
    Title,
    Updated,
    Link,
}

/// Something the parser passed over, for the caller to report.
#[derive(Clone, Debug, PartialEq, Eq)]
pub enum Diagnostic {
    /// An item or entry was skipped; `missing` is the first required part it lacked.
    IncompleteEntry { missing: EntryPart },
    /// A link's `href` is not a URL and was ignored.
    InvalidUrl { url: String },
    /// The document is not well-formed; what follows this point was not read.
    MalformedXml { message: String },
    /// The root element is neither `rss` nor `feed`.
    UnknownFormat,
}

/// The model of a [`Diagnostic`].
pub enum DiagnosticView {
    IncompleteEntry { missing: EntryPart },
    InvalidUrl { url: Seq<char> },
    MalformedXml { message: Seq<char> },
    UnknownFormat,
}

impl View for Diagnostic {
    type V = DiagnosticView;

    open spec fn view(&self) -> DiagnosticView {
        match self {
            Diagnostic::IncompleteEntry { missing } => DiagnosticView::IncompleteEntry { missing: *missing },
            Diagnostic::InvalidUrl { url } => DiagnosticView::InvalidUrl { url: url@ },
            Diagnostic::MalformedXml { message } => DiagnosticView::MalformedXml { message: message@ },
            Diagnostic::UnknownFormat => DiagnosticView::UnknownFormat,
        }
    }
}

pub open spec fn diagnostic_views(s: Seq<Diagnostic>) -> Seq<DiagnosticView> {
    s.map_values(|d: Diagnostic| d@)
}

/// The parser's state: the text of the element open last, the fields of the item
/// or entry read so far, and what has been produced.
pub struct Scan {
    pub pending: Option<Seq<char>>,
    pub id: Option<Seq<char>>,
    pub title: Option<Seq<char>>,
    pub date: Option<Seq<char>>,
    pub link: Option<Seq<char>>,
    pub entries: Seq<EntryView>,
    pub diags: Seq<DiagnosticView>,
}

pub open spec fn opt_clean(o: Option<Seq<char>>) -> bool {
    match o {
        Some(t) => is_clean(t),
        None => true,
    }
}

/// All text the parser holds is free of control characters.
pub open spec fn scan_clean(st: Scan) -> bool {
    &&& opt_clean(st.pending)
    &&& opt_clean(st.id)
    &&& opt_clean(st.title)
    &&& opt_clean(st.date)
    &&& opt_clean(st.link)
    &&& all_clean(st.entries)
}

pub open spec fn scan_start() -> Scan {
    Scan { pending: None, id: None, title: None, date: None, link: None, entries: Seq::empty(), diags: Seq::empty() }
}

pub open spec fn with_pending(st: Scan, p: Option<Seq<char>>) -> Scan {
    Scan { pending: p, ..st }
}

pub open spec fn with_fields_cleared(st: Scan) -> Scan {
    Scan { id: None, title: None, date: None, link: None, ..st }
}

pub open spec fn with_diag(st: Scan, d: DiagnosticView) -> Scan {
    Scan { diags: st.diags.push(d), ..st }
}

/// The end of an RSS `item`: without a link it is skipped; otherwise the id falls back
/// to the link and the title to `Untitled`, and the date is read as `rss_date` says.
pub open spec fn rss_item_end(st: Scan, feed: Seq<char>, now: Seq<char>) -> Scan {
    match st.link {
        None => with_diag(st, DiagnosticView::IncompleteEntry { missing: EntryPart::Link }),
        Some(link) => {
            let e = EntryView {
                feed: feed,
                id: match st.id {
                    Some(i) => i,
                    None => link,
                },
                title: match st.title {
                    Some(t) => t,
                    None => "Untitled"@,
                },
                updated: rss_date(st.date, now),
                link: link,
                read: false,
            };
            Scan { entries: st.entries.push(e), ..with_fields_cleared(st) }
        },
    }
}

/// One RSS event, other than an error.
pub open spec fn rss_step(st: Scan, ev: XmlItemView, feed: Seq<char>, now: Seq<char>) -> Scan {
    match ev {
        XmlItemView::Start { name, .. } => {
            if name == "item"@ {
                with_fields_cleared(with_pending(st, None))
            } else {
                with_pending(st, None)
            }
        },
        XmlItemView::End { name } => {
            if name == "guid"@ {
                Scan { id: st.pending, pending: None, ..st }
            } else if name == "title"@ {
                Scan { title: st.pending, pending: None, ..st }
            } else if name == "pubDate"@ {
                Scan { date: st.pending, pending: None, ..st }
            } else if name == "link"@ {
                Scan { link: st.pending, pending: None, ..st }
            } else if name == "item"@ {
                rss_item_end(st, feed, now)
            } else {
                st
            }
        },
        XmlItemView::Text { data } => with_pending(st, Some(stripped(data))),
        _ => st,
    }
}

/// The RSS events from position `i` on; an error ends the reading.
pub open spec fn rss_run(st: Scan, evs: Seq<XmlItemView>, i: int, feed: Seq<char>, now: Seq<char>) -> Scan
    decreases evs.len() - i,
{
    if i < 0 || i >= evs.len() {
        st
    } else {
        match evs[i] {
            XmlItemView::Malformed { message } => with_diag(st, DiagnosticView::MalformedXml { message }),
            ev => rss_run(rss_step(st, ev, feed, now), evs, i + 1, feed, now),
        }
    }
}

/// Whether url's parser accepts the text.
pub uninterp spec fn url_parses(s: Seq<char>) -> bool;

/// Relies on url's `Url::parse`: whether the text parses as a URL. The answer depends
/// on the text alone.
#[verifier::external_body]
fn parses_as_url(s: &str) -> (r: bool)
    ensures
        r == url_parses(s@),
{
    url::Url::parse(s).is_ok()
}

/// The attributes of an Atom `link` from position `j` on: each `href` that is a URL
/// becomes the link; one that is not is reported and ignored.
pub open spec fn atom_href(st: Scan, attrs: Seq<(Seq<char>, Seq<char>)>, j: int) -> Scan
    decreases attrs.len() - j,
{
    if j < 0 || j >= attrs.len() {
        st
    } else {
        let next = if attrs[j].0 == "href"@ {
            let url = stripped(attrs[j].1);
            if url_parses(url) {
                Scan { link: Some(url), ..st }
            } else {
                with_diag(st, DiagnosticView::InvalidUrl { url })
            }
        } else {
            st
        };
        atom_href(next, attrs, j + 1)
    }
}

/// The end of an Atom `entry`: id, title, updated and link are all required, and the
/// first one absent is reported.
pub open spec fn atom_entry_end(st: Scan, feed: Seq<char>) -> Scan {
    match (st.id, st.title, st.date, st.link) {
        (None, _, _, _) => with_diag(st, DiagnosticView::IncompleteEntry { missing: EntryPart::Id }),
        (Some(_), None, _, _) => Scan {
            id: None,
            ..with_diag(st, DiagnosticView::IncompleteEntry { missing: EntryPart::Title })
        },
        (Some(_), Some(_), None, _) => with_diag(st, DiagnosticView::IncompleteEntry { missing: EntryPart::Updated }),
        (Some(_), Some(_), Some(_), None) => with_diag(st, DiagnosticView::IncompleteEntry { missing: EntryPart::Link }),
        (Some(id), Some(title), Some(updated), Some(link)) => {
            let e = EntryView { feed, id, title, updated, link, read: false };
            Scan { entries: st.entries.push(e), ..with_fields_cleared(st) }
        },
    }
}

/// One Atom event, other than an error.
pub open spec fn atom_step(st: Scan, ev: XmlItemView, feed: Seq<char>) -> Scan {
    match ev {
        XmlItemView::Start { name, attributes } => {
            if name == "link"@ {
                atom_href(with_pending(st, None), attributes, 0)
            } else if name == "entry"@ {
                with_fields_cleared(with_pending(st, None))
            } else {
                with_pending(st, None)
            }
        },
        XmlItemView::End { name } => {
            if name == "id"@ {
                Scan { id: st.pending, pending: None, ..st }
            } else if name == "title"@ {
                Scan { title: st.pending, pending: None, ..st }
            } else if name == "updated"@ {
                Scan { date: st.pending, pending: None, ..st }
            } else if name == "entry"@ {
                atom_entry_end(st, feed)
            } else {
                st
            }
        },
        XmlItemView::Text { data } => with_pending(st, Some(stripped(data))),
        _ => st,
    }
}

/// The Atom events from position `i` on; an error ends the reading.
pub open spec fn atom_run(st: Scan, evs: Seq<XmlItemView>, i: int, feed: Seq<char>) -> Scan
    decreases evs.len() - i,
{
    if i < 0 || i >= evs.len() {
        st
    } else {
        match evs[i] {
            XmlItemView::Malformed { message } => with_diag(st, DiagnosticView::MalformedXml { message }),
            ev => atom_run(atom_step(st, ev, feed), evs, i + 1, feed),
        }
    }
}

/// An Atom entry that has an id and a title but no `updated` is dropped where it ends:
/// the entries read so far stay, one diagnostic names `updated`, and the events after
/// it are read as usual.
pub proof fn lemma_atom_entry_without_updated(st: Scan, evs: Seq<XmlItemView>, i: int, feed: Seq<char>)
    requires
        0 <= i < evs.len(),
        evs[i] == (XmlItemView::End { name: "entry"@ }),
        st.id is Some,
        st.title is Some,
        st.date is None,
    ensures
        atom_run(st, evs, i, feed) == atom_run(
            with_diag(st, DiagnosticView::IncompleteEntry { missing: EntryPart::Updated }),
            evs,
            i + 1,
            feed,
        ),
        with_diag(st, DiagnosticView::IncompleteEntry { missing: EntryPart::Updated }).entries == st.entries,
{
    reveal_strlit("entry");
    reveal_strlit("id");
    reveal_strlit("title");
    reveal_strlit("updated");
    assert("entry"@ != "id"@) by {
        assert("entry"@.len() != "id"@.len());
    }
    assert("entry"@ != "title"@) by {
        assert("entry"@[0] != "title"@[0]);
    }
    assert("entry"@ != "updated"@) by {
        assert("entry"@.len() != "updated"@.len());
    }
}

/// A document from position `i` on, before its first opening tag: that tag decides
/// the format, `rss` for RSS and `feed` for Atom; any other tag, an error, or no tag
/// at all gives no entries.
pub open spec fn feed_from(evs: Seq<XmlItemView>, i: int, feed: Seq<char>, now: Seq<char>) -> Scan
    decreases evs.len() - i,
{
    if i < 0 || i >= evs.len() {
        with_diag(scan_start(), DiagnosticView::UnknownFormat)
    } else {
        match evs[i] {
            XmlItemView::Start { name, .. } => {
                if name == "rss"@ {
                    rss_run(scan_start(), evs, i + 1, feed, now)
                } else if name == "feed"@ {
                    atom_run(scan_start(), evs, i + 1, feed)
                } else {
                    with_diag(scan_start(), DiagnosticView::UnknownFormat)
                }
            },
            XmlItemView::Malformed { message } => with_diag(
                with_diag(scan_start(), DiagnosticView::MalformedXml { message }),
                DiagnosticView::UnknownFormat,
            ),
            _ => feed_from(evs, i + 1, feed, now),
        }
    }
}

/// What a document's events parse to, for feed `feed` fetched at `now`.
pub open spec fn parsed(evs: Seq<XmlItemView>, feed: Seq<char>, now: Seq<char>) -> Scan {
    feed_from(evs, 0, feed, now)
}

/// The parser's working state.
struct Scanner {
    pending: Option<String>,
    id: Option<String>,
    title: Option<String>,
    date: Option<String>,
    link: Option<String>,
    entries: Vec<Entry>,
    diags: Vec<Diagnostic>,
}

impl View for Scanner {
    type V = Scan;

    closed spec fn view(&self) -> Scan {
        Scan {
            pending: text_views(self.pending),
            id: text_views(self.id),
            title: text_views(self.title),
            date: text_views(self.date),
            link: text_views(self.link),
            entries: views(self.entries@),
            diags: diagnostic_views(self.diags@),
        }
    }
}

impl Scanner {
    fn new() -> (r: Scanner)
        ensures
            r@ == scan_start(),
            scan_clean(r@),
    {
        let r = Scanner {
            pending: None,
            id: None,
            title: None,
            date: None,
            link: None,
            entries: Vec::new(),
            diags: Vec::new(),
        };
        proof {
            assert(views(r.entries@) =~= Seq::<EntryView>::empty());
            assert(diagnostic_views(r.diags@) =~= Seq::<DiagnosticView>::empty());
        }
        r
    }

    fn report(&mut self, d: Diagnostic)
        ensures
            final(self)@ == with_diag(old(self)@, d@),
    {
        let ghost before = diagnostic_views(self.diags@);
        self.diags.push(d);
        proof {
            assert(diagnostic_views(self.diags@) =~= before.push(d@));
        }
    }

    fn add_entry(&mut self, e: Entry)
        ensures
            final(self)@ == (Scan { entries: old(self)@.entries.push(e@), ..old(self)@ }),
            all_clean(old(self)@.entries) && e@.is_clean() ==> all_clean(final(self)@.entries),
    {
        let ghost before = views(self.entries@);
        self.entries.push(e);
        proof {
            assert(views(self.entries@) =~= before.push(e@));
        }
    }

    fn clear_fields(&mut self)
        ensures
            final(self)@ == with_fields_cleared(old(self)@),
    {
        self.id = None;
        self.title = None;
        self.date = None;
        self.link = None;
    }

    fn take_pending(&mut self) -> (r: Option<String>)
        ensures
            text_views(r) == old(self)@.pending,
            final(self)@ == with_pending(old(self)@, None),
    {
        self.pending.take()
    }

    fn rss_item_end(&mut self, feed: &String, now: &String)
        ensures
            final(self)@ == rss_item_end(old(self)@, feed@, now@),
            is_clean(feed@) && is_clean(now@) && scan_clean(old(self)@) ==> scan_clean(final(self)@),
    {
        if self.link.is_none() {
            self.report(Diagnostic::IncompleteEntry { missing: EntryPart::Link });
            return;
        }
        let link = self.link.take().unwrap();
        let id = match self.id.take() {
            Some(i) => i,
            None => link.clone(),
        };
        let title = match self.title.take() {
            Some(t) => t,
            None => String::from_str("Untitled"),
        };
        proof {
            reveal_strlit("Untitled");
        }
        let updated = handle_rss_pub_date(self.date.take(), now);
        self.add_entry(Entry { feed: feed.clone(), id, title, updated, link, read: false });
    }

    fn rss_event(&mut self, ev: &XmlItem, feed: &String, now: &String)
        requires
            !(ev@ is Malformed),
        ensures
            final(self)@ == rss_step(old(self)@, ev@, feed@, now@),
            is_clean(feed@) && is_clean(now@) && scan_clean(old(self)@) ==> scan_clean(final(self)@),
    {
        match ev {
            XmlItem::Start { name, .. } => {
                self.pending = None;
                if text_is(name, "item") {
                    self.clear_fields();
                }
            },
            XmlItem::End { name } => {
                if text_is(name, "guid") {
                    self.id = self.take_pending();
                } else if text_is(name, "title") {
                    self.title = self.take_pending();
                } else if text_is(name, "pubDate") {
                    self.date = self.take_pending();
                } else if text_is(name, "link") {
                    self.link = self.take_pending();
                } else if text_is(name, "item") {
                    self.rss_item_end(feed, now);
                }
            },
            XmlItem::Text { data } => {
                self.pending = Some(sanitize(data.clone()));
            },
            _ => {},
        }
    }

    fn atom_href(&mut self, attrs: &Vec<(String, String)>)
        ensures
            final(self)@ == atom_href(old(self)@, crate::events::attribute_views(attrs@), 0),
            scan_clean(old(self)@) ==> scan_clean(final(self)@),
    {
        let ghost av = crate::events::attribute_views(attrs@);
        let ghost target = atom_href(self@, av, 0);
        let n = attrs.len();
        for j in 0..n
            invariant
                n == attrs@.len(),
                av == crate::events::attribute_views(attrs@),
                target == atom_href(self@, av, j as int),
                scan_clean(old(self)@) ==> scan_clean(self@),
        {
            let (name, value) = &attrs[j];
            assert(av[j as int] == (name@, value@));
            if text_is(name, "href") {
                let url = sanitize(value.clone());
                if parses_as_url(url.as_str()) {
                    self.link = Some(url);
                } else {
                    self.report(Diagnostic::InvalidUrl { url });
                }
            }
        }
    }

    fn atom_entry_end(&mut self, feed: &String)
        ensures
            final(self)@ == atom_entry_end(old(self)@, feed@),
            is_clean(feed@) && scan_clean(old(self)@) ==> scan_clean(final(self)@),
    {
        if self.id.is_none() {
            self.report(Diagnostic::IncompleteEntry { missing: EntryPart::Id });
        } else if self.title.is_none() {
            self.report(Diagnostic::IncompleteEntry { missing: EntryPart::Title });
            self.id = None;
        } else if self.date.is_none() {
            self.report(Diagnostic::IncompleteEntry { missing: EntryPart::Updated });
        } else if self.link.is_none() {
            self.report(Diagnostic::IncompleteEntry { missing: EntryPart::Link });
        } else {
            let id = self.id.take().unwrap();
            let title = self.title.take().unwrap();
            let updated = self.date.take().unwrap();
            let link = self.link.take().unwrap();
            self.add_entry(Entry { feed: feed.clone(), id, title, updated, link, read: false });
        }
    }

    fn atom_event(&mut self, ev: &XmlItem, feed: &String)
        requires
            !(ev@ is Malformed),
        ensures
            final(self)@ == atom_step(old(self)@, ev@, feed@),
            is_clean(feed@) && scan_clean(old(self)@) ==> scan_clean(final(self)@),
    {
        match ev {
            XmlItem::Start { name, attributes } => {
                self.pending = None;
                if text_is(name, "link") {
                    self.atom_href(attributes);
                } else if text_is(name, "entry") {
                    self.clear_fields();
                }
            },
            XmlItem::End { name } => {
                if text_is(name, "id") {
                    self.id = self.take_pending();
                } else if text_is(name, "title") {
                    self.title = self.take_pending();
                } else if text_is(name, "updated") {
                    self.date = self.take_pending();
                } else if text_is(name, "entry") {
                    self.atom_entry_end(feed);
                }
            },
            XmlItem::Text { data } => {
                self.pending = Some(sanitize(data.clone()));
            },
            _ => {},
        }
    }
}

/// What a feed's document yields: its entries, and what was passed over.
pub struct ParsedFeed {
    pub entries: Vec<Entry>,
    pub diagnostics: Vec<Diagnostic>,
}

/// Reads RSS events from position `start` on, until the events end or one is an error.
fn parse_rss(events: &Vec<XmlItem>, start: usize, feed: &String, now: &String) -> (r: Scanner)
    requires
        start <= events@.len(),
    ensures
        r@ == rss_run(scan_start(), item_views(events@), start as int, feed@, now@),
        is_clean(feed@) && is_clean(now@) ==> scan_clean(r@),
{
    let ghost evs = item_views(events@);
    let ghost target = rss_run(scan_start(), evs, start as int, feed@, now@);
    let mut sc = Scanner::new();
    let mut i = start;
    while i < events.len()
        invariant
            start <= i <= events@.len(),
            evs == item_views(events@),
            target == rss_run(sc@, evs, i as int, feed@, now@),
            target == rss_run(scan_start(), evs, start as int, feed@, now@),
            is_clean(feed@) && is_clean(now@) ==> scan_clean(sc@),
        decreases events@.len() - i,
    {
        let ev = &events[i];
        assert(evs[i as int] == ev@);
        if let XmlItem::Malformed { message } = ev {
            sc.report(Diagnostic::MalformedXml { message: message.clone() });
            return sc;
        }
        sc.rss_event(ev, feed, now);
        i = i + 1;
    }
    sc
}

/// Reads Atom events from position `start` on, until the events end or one is an error.
fn parse_atom(events: &Vec<XmlItem>, start: usize, feed: &String) -> (r: Scanner)
    requires
        start <= events@.len(),
    ensures
        r@ == atom_run(scan_start(), item_views(events@), start as int, feed@),
        is_clean(feed@) ==> scan_clean(r@),
{
    let ghost evs = item_views(events@);
    let ghost target = atom_run(scan_start(), evs, start as int, feed@);
    let mut sc = Scanner::new();
    let mut i = start;
    while i < events.len()
        invariant
            start <= i <= events@.len(),
            evs == item_views(events@),
            target == atom_run(sc@, evs, i as int, feed@),
            target == atom_run(scan_start(), evs, start as int, feed@),
            is_clean(feed@) ==> scan_clean(sc@),
        decreases events@.len() - i,
    {
        let ev = &events[i];
        assert(evs[i as int] == ev@);
        if let XmlItem::Malformed { message } = ev {
            sc.report(Diagnostic::MalformedXml { message: message.clone() });
            return sc;
        }
        sc.atom_event(ev, feed);
        i = i + 1;
    }
    sc
}

fn finish(sc: Scanner) -> (r: ParsedFeed)
    ensures
        views(r.entries@) == sc@.entries,
        diagnostic_views(r.diagnostics@) == sc@.diags,
{
    ParsedFeed { entries: sc.entries, diagnostics: sc.diags }
}

/// Parses a document's events into entries of feed `feed`. The first opening tag decides
/// the format: `rss` for RSS, `feed` for Atom; any other gives no entries. RSS items
/// lacking a date, or with one that cannot be read, are stamped `now`.
pub fn parse_feed_events(events: &Vec<XmlItem>, feed: &String, now: &String) -> (r: ParsedFeed)
    ensures
        views(r.entries@) == parsed(item_views(events@), feed@, now@).entries,
        diagnostic_views(r.diagnostics@) == parsed(item_views(events@), feed@, now@).diags,
        is_clean(feed@) && is_clean(now@) ==> all_clean(views(r.entries@)),
{
    let ghost evs = item_views(events@);
    let ghost target = parsed(evs, feed@, now@);
    let mut i: usize = 0;
    while i < events.len()
        invariant
            i <= events@.len(),
            evs == item_views(events@),
            target == feed_from(evs, i as int, feed@, now@),
            target == parsed(evs, feed@, now@),
        decreases events@.len() - i,
    {
        let ev = &events[i];
        assert(evs[i as int] == ev@);
        match ev {
            XmlItem::Start { name, .. } => {
                if text_is(name, "rss") {
                    return finish(parse_rss(events, i + 1, feed, now));
                } else if text_is(name, "feed") {
                    return finish(parse_atom(events, i + 1, feed));
                } else {
                    let mut sc = Scanner::new();
                    sc.report(Diagnostic::UnknownFormat);
                    return finish(sc);
                }
            },
            XmlItem::Malformed { message } => {
                let mut sc = Scanner::new();
                sc.report(Diagnostic::MalformedXml { message: message.clone() });
                sc.report(Diagnostic::UnknownFormat);
                return finish(sc);
            },
            _ => {},
        }
        i = i + 1;
    }
    let mut sc = Scanner::new();
    sc.report(Diagnostic::UnknownFormat);
    finish(sc)
}

/// Parses a feed document fetched at `now` into entries of feed `feed`.
pub fn parse_feed_at(doc: &[u8], feed: &String, now: &String) -> (r: ParsedFeed)
    ensures
        views(r.entries@) == parsed(crate::events::xml_events_of(doc@), feed@, now@).entries,
        diagnostic_views(r.diagnostics@) == parsed(crate::events::xml_events_of(doc@), feed@, now@).diags,
        is_clean(feed@) && is_clean(now@) ==> all_clean(views(r.entries@)),
{
    let events = crate::events::xml_events(doc);
    parse_feed_events(&events, feed, now)
}

/// Parses a feed document into entries of feed `feed`, stamping undated RSS items with
/// the current time, read once from the clock.
pub fn parse_feed(doc: &[u8], feed: &String) -> (r: ParsedFeed)
    ensures
        exists|now: Seq<char>|
            now.len() > 0 && views(r.entries@) == parsed(crate::events::xml_events_of(doc@), feed@, now).entries
                && diagnostic_views(r.diagnostics@) == #[trigger] parsed(crate::events::xml_events_of(doc@), feed@, now).diags,
        is_clean(feed@) ==> all_clean(views(r.entries@)),
{
    let now = crate::dates::now_rfc3339();
    parse_feed_at(doc, feed, &now)
}

} // verus!
