//! The store's text format: a header line, then one tab-separated line per entry.

use vstd::prelude::*;
use vstd::string::*;
use crate::entry::{Entry, EntryView, views, all_clean};
use crate::text::{is_clean, is_control_char, push_char};

verus! {

/// The fields of a stored record, in their position on the line.
#[derive(Clone, Copy, Debug, PartialEq, Eq, Structural)]
pub enum EntryField {
    Feed,
    Id,
    Updated,
    Title,
    Link,
    Read,
}

/// Why a store file could not be decoded.
#[derive(Clone, Copy, Debug, PartialEq, Eq, Structural)]
pub enum DecodeError {
    /// A record line has fewer than six fields; `field` is the first one absent.
    MissingField { field: EntryField },
    /// A record line has more than six fields.
    ExtraFields,
}

/// The state of a left-to-right split: the pieces closed so far and the open one.
pub struct Split {
    pub done: Seq<Seq<char>>,
    pub cur: Seq<char>,
}

pub open spec fn split_start() -> Split {
    Split { done: Seq::empty(), cur: Seq::empty() }
}

pub open spec fn split_step(st: Split, c: char, sep: char) -> Split {
    if c == sep {
        Split { done: st.done.push(st.cur), cur: Seq::empty() }
    } else {
        Split { done: st.done, cur: st.cur.push(c) }
    }
}

pub open spec fn split_scan(st: Split, t: Seq<char>, sep: char) -> Split
    decreases t.len(),
{
    if t.len() == 0 {
        st
    } else {
        split_step(split_scan(st, t.drop_last(), sep), t.last(), sep)
    }
}

/// The pieces of `t` between occurrences of `sep` (as `str::split` gives them).
pub open spec fn pieces(t: Seq<char>, sep: char) -> Seq<Seq<char>> {
    let st = split_scan(split_start(), t, sep);
    st.done.push(st.cur)
}

/// The parts written one after another with `sep` between each two.
pub open spec fn joined(parts: Seq<Seq<char>>, sep: char) -> Seq<char>
    decreases parts.len(),
{
    if parts.len() == 0 {
        Seq::empty()
    } else if parts.len() == 1 {
        parts[0]
    } else {
        joined(parts.drop_last(), sep).push(sep) + parts.last()
    }
}

/// The line with one trailing carriage return removed, if it has one.
pub open spec fn without_cr(s: Seq<char>) -> Seq<char> {
    if s.len() > 0 && s.last() == '\r' {
        s.drop_last()
    } else {
        s
    }
}

/// The lines of a text, as a line reader yields them: split at each newline,
/// a carriage return before the newline dropped, and no empty last line.
pub open spec fn lines_of(t: Seq<char>) -> Seq<Seq<char>> {
    let p = pieces(t, '\n');
    let closed = p.drop_last().map_values(|l: Seq<char>| without_cr(l));
    if p.last().len() > 0 {
        closed.push(p.last())
    } else {
        closed
    }
}

pub open spec fn word_feed() -> Seq<char> {
    seq!['f', 'e', 'e', 'd']
}

pub open spec fn word_id() -> Seq<char> {
    seq!['i', 'd']
}

pub open spec fn word_updated() -> Seq<char> {
    seq!['u', 'p', 'd', 'a', 't', 'e', 'd']
}

pub open spec fn word_title() -> Seq<char> {
    seq!['t', 'i', 't', 'l', 'e']
}

pub open spec fn word_link() -> Seq<char> {
    seq!['l', 'i', 'n', 'k']
}

pub open spec fn word_read() -> Seq<char> {
    seq!['r', 'e', 'a', 'd']
}

pub open spec fn word_unread() -> Seq<char> {
    seq!['u', 'n', 'r', 'e', 'a', 'd']
}

/// The token that stores the read flag.
pub open spec fn read_token(read: bool) -> Seq<char> {
    if read {
        word_read()
    } else {
        word_unread()
    }
}

/// The fields of an entry in the order the format stores them.
pub open spec fn record_fields(e: EntryView) -> Seq<Seq<char>> {
    seq![e.feed, e.id, e.updated, e.title, e.link, read_token(e.read)]
}

/// An entry's line without its newline.
pub open spec fn record_body(e: EntryView) -> Seq<char> {
    joined(record_fields(e), '\t')
}

/// The header line without its newline.
pub open spec fn header_body() -> Seq<char> {
    joined(seq![word_feed(), word_id(), word_updated(), word_title(), word_link(), word_read()], '\t')
}

pub open spec fn encoded_records(s: Seq<EntryView>) -> Seq<char>
    decreases s.len(),
{
    if s.len() == 0 {
        Seq::empty()
    } else {
        encoded_records(s.drop_last()) + record_body(s.last()).push('\n')
    }
}

/// The whole store text for a collection.
pub open spec fn encoded(s: Seq<EntryView>) -> Seq<char> {
    header_body().push('\n') + encoded_records(s)
}

/// The field whose absence a record with `n` fields reports.
pub open spec fn field_at(n: int) -> EntryField {
    if n <= 0 {
        EntryField::Feed
    } else if n == 1 {
        EntryField::Id
    } else if n == 2 {
        EntryField::Updated
    } else if n == 3 {
        EntryField::Title
    } else if n == 4 {
        EntryField::Link
    } else {
        EntryField::Read
    }
}

/// The entry that a record's fields describe: there must be exactly six, and only
/// the exact token `read` marks an entry read.
pub open spec fn record_of(f: Seq<Seq<char>>) -> Result<EntryView, DecodeError> {
    if f.len() < 6 {
        Err(DecodeError::MissingField { field: field_at(f.len() as int) })
    } else if f.len() > 6 {
        Err(DecodeError::ExtraFields)
    } else {
        Ok(EntryView { feed: f[0], id: f[1], updated: f[2], title: f[3], link: f[4], read: f[5] == word_read() })
    }
}

/// Decodes record lines in order, stopping at the first malformed one.
pub open spec fn decode_records(lines: Seq<Seq<char>>) -> Result<Seq<EntryView>, DecodeError>
    decreases lines.len(),
{
    if lines.len() == 0 {
        Ok(Seq::empty())
    } else {
        match decode_records(lines.drop_last()) {
            Err(f) => Err(f),
            Ok(v) => match record_of(pieces(lines.last(), '\t')) {
                Err(f) => Err(f),
                Ok(e) => Ok(v.push(e)),
            },
        }
    }
}

/// What a store text decodes to: its first line is the header and is not read.
pub open spec fn decoded(t: Seq<char>) -> Result<Seq<EntryView>, DecodeError> {
    let ls = lines_of(t);
    if ls.len() == 0 {
        Ok(Seq::empty())
    } else {
        decode_records(ls.subrange(1, ls.len() as int))
    }
}

pub open spec fn texts(v: Seq<String>) -> Seq<Seq<char>> {
    v.map_values(|x: String| x@)
}

/// Splits `s` at every `sep`.
fn split_on(s: &str, sep: char) -> (r: Vec<String>)
    ensures
        texts(r@) == pieces(s@, sep),
{
    let mut done: Vec<String> = Vec::new();
    let mut cur = String::new();
    for c in it: s.chars()
        invariant
            it.seq() == s@,
            texts(done@) == split_scan(split_start(), s@.take(it.index() as int), sep).done,
            cur@ == split_scan(split_start(), s@.take(it.index() as int), sep).cur,
    {
        proof {
            let k = it.index() as int;
            assert(s@.take(k + 1).drop_last() =~= s@.take(k));
        }
        if c == sep {
            let ghost old_done = done@;
            done.push(cur);
            proof {
                assert(texts(done@) =~= texts(old_done).push(cur@));
            }
            cur = String::new();
        } else {
            push_char(&mut cur, c);
        }
    }
    proof {
        assert(s@.take(s@.len() as int) =~= s@);
    }
    let ghost old_done = done@;
    done.push(cur);
    proof {
        assert(texts(done@) =~= texts(old_done).push(cur@));
    }
    done
}

/// Drops one trailing carriage return.
fn trim_cr(s: String) -> (r: String)
    ensures
        r@ == without_cr(s@),
{
    let n = s.as_str().unicode_len();
    if n > 0 && s.as_str().get_char(n - 1) == '\r' {
        String::from_str(s.as_str().substring_char(0, n - 1))
    } else {
        s
    }
}

/// The text value of an entry's read flag.
fn read_token_str(read: bool) -> (r: &'static str)
    ensures
        r@ == read_token(read),
{
    proof {
        reveal_strlit("read");
        reveal_strlit("unread");
        assert("read"@ =~= word_read());
        assert("unread"@ =~= word_unread());
    }
    if read {
        "read"
    } else {
        "unread"
    }
}

/// Writes `fields` with a tab between each two, then a newline, at the end of `out`.
fn append_record(out: &mut String, fields: [&str; 6])
    ensures
        final(out)@ == old(out)@ + joined(
            seq![fields[0]@, fields[1]@, fields[2]@, fields[3]@, fields[4]@, fields[5]@],
            '\t',
        ).push('\n'),
{
    let ghost start = out@;
    let ghost parts = seq![fields[0]@, fields[1]@, fields[2]@, fields[3]@, fields[4]@, fields[5]@];
    out.append(fields[0]);
    let mut i: usize = 1;
    while i < 6
        invariant
            1 <= i <= 6,
            out@ == start + joined(parts.take(i as int), '\t'),
            parts == seq![fields[0]@, fields[1]@, fields[2]@, fields[3]@, fields[4]@, fields[5]@],
        decreases 6 - i,
    {
        push_char(out, '\t');
        out.append(fields[i]);
        proof {
            assert(parts.take(i + 1).drop_last() =~= parts.take(i as int));
            assert(parts.take(1) =~= seq![parts[0]]);
        }
        i = i + 1;
    }
    proof {
        assert(parts.take(6) =~= parts);
    }
    push_char(out, '\n');
}

/// Encodes a collection as store text: the header line, then one line per entry in order.
pub fn encode_entries(entries: &Vec<Entry>) -> (r: String)
    ensures
        r@ == encoded(views(entries@)),
{
    let mut out = String::new();
    proof {
        reveal_strlit("feed");
        reveal_strlit("id");
        reveal_strlit("updated");
        reveal_strlit("title");
        reveal_strlit("link");
        reveal_strlit("read");
    }
    append_record(&mut out, ["feed", "id", "updated", "title", "link", "read"]);
    proof {
        assert("feed"@ =~= word_feed());
        assert("id"@ =~= word_id());
        assert("updated"@ =~= word_updated());
        assert("title"@ =~= word_title());
        assert("link"@ =~= word_link());
        assert("read"@ =~= word_read());
        assert(out@ =~= header_body().push('\n'));
    }
    let n = entries.len();
    for i in 0..n
        invariant
            n == entries@.len(),
            out@ == header_body().push('\n') + encoded_records(views(entries@).take(i as int)),
    {
        let e = &entries[i];
        append_record(
            &mut out,
            [e.feed.as_str(), e.id.as_str(), e.updated.as_str(), e.title.as_str(), e.link.as_str(), read_token_str(e.read)],
        );
        proof {
            let vs = views(entries@);
            assert(vs.take(i + 1).drop_last() =~= vs.take(i as int));
            assert(record_fields(vs[i as int]) =~= seq![e.feed@, e.id@, e.updated@, e.title@, e.link@, read_token(e.read)]);
            assert(out@ =~= header_body().push('\n') + encoded_records(vs.take(i + 1)));
        }
    }
    proof {
        assert(views(entries@).take(n as int) =~= views(entries@));
    }
    out
}

/// The field whose absence a record with `n` fields reports.
fn missing_field(n: usize) -> (r: EntryField)
    ensures
        r == field_at(n as int),
{
    if n == 0 {
        EntryField::Feed
    } else if n == 1 {
        EntryField::Id
    } else if n == 2 {
        EntryField::Updated
    } else if n == 3 {
        EntryField::Title
    } else if n == 4 {
        EntryField::Link
    } else {
        EntryField::Read
    }
}

/// Once a prefix of the record lines fails to decode, the whole fails with the same field.
proof fn lemma_decode_error_persists(lines: Seq<Seq<char>>, j: int)
    requires
        0 <= j <= lines.len(),
        decode_records(lines.take(j)) is Err,
    ensures
        decode_records(lines) == decode_records(lines.take(j)),
    decreases lines.len() - j,
{
    if j < lines.len() {
        assert(lines.take(j + 1).drop_last() =~= lines.take(j));
        lemma_decode_error_persists(lines, j + 1);
    } else {
        assert(lines.take(j) =~= lines);
    }
}

/// Decodes store text. The first line is the header and is skipped; each further
/// line must hold at least six tab-separated fields, else the first absent field is reported.
pub fn decode_entries(text: &str) -> (r: Result<Vec<Entry>, DecodeError>)
    ensures
        match r {
            Ok(v) => decoded(text@) == Ok::<Seq<EntryView>, DecodeError>(views(v@)),
            Err(e) => decoded(text@) == Err::<Seq<EntryView>, DecodeError>(e),
        },
{
    let raw = split_on(text, '\n');
    let ghost ls = lines_of(text@);
    let ghost p = pieces(text@, '\n');
    let n = raw.len();
    assert(texts(raw@) == p);
    let count: usize = if raw[n - 1].as_str().is_empty() { n - 1 } else { n };
    assert(ls.len() == count);
    if count == 0 {
        let none: Vec<Entry> = Vec::new();
        proof {
            assert(views(none@) =~= Seq::<EntryView>::empty());
        }
        return Ok(none);
    }
    let read_word = String::from_str("read");
    proof {
        reveal_strlit("read");
        assert(read_word@ =~= word_read());
    }
    let mut entries: Vec<Entry> = Vec::new();
    let mut k: usize = 1;
    proof {
        assert(ls.subrange(1, 1) =~= Seq::<Seq<char>>::empty());
        assert(views(entries@) =~= Seq::<EntryView>::empty());
    }
    while k < count
        invariant
            1 <= k <= count,
            ls == lines_of(text@),
            p == pieces(text@, '\n'),
            texts(raw@) == p,
            n == raw@.len(),
            count == ls.len(),
            count == n || (count == n - 1 && p.last().len() == 0),
            count == n ==> p.last().len() > 0,
            read_word@ == word_read(),
            decode_records(ls.subrange(1, k as int)) == Ok::<Seq<EntryView>, DecodeError>(views(entries@)),
        decreases count - k,
    {
        let line = if k < n - 1 {
            trim_cr(raw[k].clone())
        } else {
            raw[k].clone()
        };
        assert(line@ == ls[k as int]);
        let fields = split_on(line.as_str(), '\t');
        proof {
            assert(ls.subrange(1, k + 1).drop_last() =~= ls.subrange(1, k as int));
        }
        if fields.len() < 6 {
            proof {
                let sub = ls.subrange(1, count as int);
                assert(sub.take(k as int) =~= ls.subrange(1, k + 1));
                lemma_decode_error_persists(sub, k as int);
            }
            return Err(DecodeError::MissingField { field: missing_field(fields.len()) });
        }
        if fields.len() > 6 {
            proof {
                let sub = ls.subrange(1, count as int);
                assert(sub.take(k as int) =~= ls.subrange(1, k + 1));
                lemma_decode_error_persists(sub, k as int);
            }
            return Err(DecodeError::ExtraFields);
        }
        let e = Entry {
            feed: fields[0].clone(),
            id: fields[1].clone(),
            updated: fields[2].clone(),
            title: fields[3].clone(),
            link: fields[4].clone(),
            read: fields[5] == read_word,
        };
        let ghost old_entries = entries@;
        entries.push(e);
        proof {
            assert(views(entries@) =~= views(old_entries).push(e@));
        }
        k = k + 1;
    }
    proof {
        assert(ls.subrange(1, count as int) =~= ls.subrange(1, k as int));
    }
    Ok(entries)
}

proof fn lemma_scan_concat(st: Split, a: Seq<char>, b: Seq<char>, sep: char)
    ensures
        split_scan(st, a + b, sep) == split_scan(split_scan(st, a, sep), b, sep),
    decreases b.len(),
{
    if b.len() == 0 {
        assert(a + b =~= a);
    } else {
        assert((a + b).drop_last() =~= a + b.drop_last());
        lemma_scan_concat(st, a, b.drop_last(), sep);
    }
}

proof fn lemma_scan_plain(st: Split, b: Seq<char>, sep: char)
    requires
        !b.contains(sep),
    ensures
        split_scan(st, b, sep) == (Split { done: st.done, cur: st.cur + b }),
    decreases b.len(),
{
    if b.len() == 0 {
        assert(st.cur + b =~= st.cur);
    } else {
        assert(!b.drop_last().contains(sep)) by {
            if b.drop_last().contains(sep) {
                let i = choose|i: int| 0 <= i < b.drop_last().len() && b.drop_last()[i] == sep;
                assert(b[i] == sep);
            }
        }
        assert(b[b.len() - 1] != sep);
        lemma_scan_plain(st, b.drop_last(), sep);
        assert(st.cur + b =~= (st.cur + b.drop_last()).push(b.last()));
    }
}

/// Splitting parts joined by a separator that none of them holds gives the parts back.
proof fn lemma_pieces_of_joined(parts: Seq<Seq<char>>, sep: char)
    requires
        parts.len() >= 1,
        forall|i: int| 0 <= i < parts.len() ==> !(#[trigger] parts[i]).contains(sep),
    ensures
        split_scan(split_start(), joined(parts, sep), sep) == (Split { done: parts.drop_last(), cur: parts.last() }),
        pieces(joined(parts, sep), sep) == parts,
    decreases parts.len(),
{
    if parts.len() == 1 {
        lemma_scan_plain(split_start(), parts[0], sep);
        assert(Seq::<char>::empty() + parts[0] =~= parts[0]);
        assert(parts.drop_last() =~= Seq::<Seq<char>>::empty());
    } else {
        let init = parts.drop_last();
        assert forall|i: int| 0 <= i < init.len() implies !(#[trigger] init[i]).contains(sep) by {
            assert(init[i] == parts[i]);
        }
        lemma_pieces_of_joined(init, sep);
        let j = joined(init, sep);
        lemma_scan_concat(split_start(), j.push(sep), parts.last(), sep);
        assert(j.push(sep).drop_last() =~= j);
        assert(init.drop_last().push(init.last()) =~= init);
        lemma_scan_plain(split_scan(split_start(), j.push(sep), sep), parts.last(), sep);
        assert(Seq::<char>::empty() + parts.last() =~= parts.last());
    }
    assert(parts.drop_last().push(parts.last()) =~= parts);
}

proof fn lemma_joined_last(parts: Seq<Seq<char>>, sep: char)
    requires
        parts.len() >= 1,
        parts.last().len() > 0,
    ensures
        joined(parts, sep).len() > 0,
        joined(parts, sep).last() == parts.last().last(),
{
    if parts.len() > 1 {
        let j = joined(parts.drop_last(), sep).push(sep);
        assert((j + parts.last()).last() == parts.last().last());
    }
}

proof fn lemma_no_control_no_sep(s: Seq<char>, sep: char)
    requires
        is_clean(s),
        is_control_char(sep),
    ensures
        !s.contains(sep),
{
}

/// The entry's text fields hold neither tab nor newline, the format's delimiters.
pub open spec fn fits_record(e: EntryView) -> bool {
    &&& !e.feed.contains('\t') && !e.feed.contains('\n')
    &&& !e.id.contains('\t') && !e.id.contains('\n')
    &&& !e.updated.contains('\t') && !e.updated.contains('\n')
    &&& !e.title.contains('\t') && !e.title.contains('\n')
    &&& !e.link.contains('\t') && !e.link.contains('\n')
}

pub open spec fn all_fit(s: Seq<EntryView>) -> bool {
    forall|i: int| 0 <= i < s.len() ==> fits_record(#[trigger] s[i])
}

/// Clean entries, free of every control character, fit the format.
pub proof fn lemma_clean_entries_fit(s: Seq<EntryView>)
    requires
        all_clean(s),
    ensures
        all_fit(s),
{
    assert forall|i: int| 0 <= i < s.len() implies fits_record(#[trigger] s[i]) by {
        let e = s[i];
        assert(e.is_clean());
        lemma_no_control_no_sep(e.feed, '\t');
        lemma_no_control_no_sep(e.feed, '\n');
        lemma_no_control_no_sep(e.id, '\t');
        lemma_no_control_no_sep(e.id, '\n');
        lemma_no_control_no_sep(e.updated, '\t');
        lemma_no_control_no_sep(e.updated, '\n');
        lemma_no_control_no_sep(e.title, '\t');
        lemma_no_control_no_sep(e.title, '\n');
        lemma_no_control_no_sep(e.link, '\t');
        lemma_no_control_no_sep(e.link, '\n');
    }
}

/// The record lines of a collection, without their newlines.
pub open spec fn record_bodies(s: Seq<EntryView>) -> Seq<Seq<char>> {
    s.map_values(|e: EntryView| record_body(e))
}

proof fn lemma_encoded_as_joined(s: Seq<EntryView>)
    ensures
        encoded(s) == joined(seq![header_body()] + record_bodies(s) + seq![Seq::<char>::empty()], '\n'),
    decreases s.len(),
{
    let x = seq![header_body()] + record_bodies(s);
    let parts = x + seq![Seq::<char>::empty()];
    assert(parts.drop_last() =~= x);
    assert(joined(parts, '\n') =~= joined(x, '\n').push('\n'));
    if s.len() == 0 {
        assert(x =~= seq![header_body()]);
        assert(encoded(s) =~= header_body().push('\n'));
    } else {
        let s0 = s.drop_last();
        lemma_encoded_as_joined(s0);
        let x0 = seq![header_body()] + record_bodies(s0);
        assert(x0 + seq![Seq::<char>::empty()] =~= x0.push(Seq::<char>::empty()));
        assert((x0.push(Seq::<char>::empty())).drop_last() =~= x0);
        assert(x.drop_last() =~= x0);
        assert(x.last() == record_body(s.last()));
        assert(encoded(s) =~= encoded(s0) + record_body(s.last()).push('\n'));
    }
}

proof fn lemma_record_round_trip(e: EntryView)
    requires
        fits_record(e),
    ensures
        record_of(pieces(record_body(e), '\t')) == Ok::<EntryView, DecodeError>(e),
{
    let f = record_fields(e);
    assert forall|i: int| 0 <= i < f.len() implies !(#[trigger] f[i]).contains('\t') by {
        if i < 5 {
        } else {
            if f[i].contains('\t') {
                let k = choose|k: int| 0 <= k < f[i].len() && f[i][k] == '\t';
            }
        }
    }
    lemma_pieces_of_joined(f, '\t');
    assert(word_unread() != word_read()) by {
        assert(word_unread().len() != word_read().len());
    }
}

proof fn lemma_records_round_trip(s: Seq<EntryView>)
    requires
        all_fit(s),
    ensures
        decode_records(record_bodies(s)) == Ok::<Seq<EntryView>, DecodeError>(s),
    decreases s.len(),
{
    if s.len() > 0 {
        let s0 = s.drop_last();
        assert(record_bodies(s).drop_last() =~= record_bodies(s0));
        assert(all_fit(s0)) by {
            assert forall|i: int| 0 <= i < s0.len() implies fits_record(#[trigger] s0[i]) by {
                assert(s0[i] == s[i]);
            }
        }
        lemma_records_round_trip(s0);
        assert(fits_record(s[s.len() - 1]));
        assert(record_bodies(s).last() == record_body(s.last()));
        lemma_record_round_trip(s.last());
        assert(s0.push(s.last()) =~= s);
        assert(decode_records(record_bodies(s)) == Ok::<Seq<EntryView>, DecodeError>(s0.push(s.last())));
    } else {
        assert(record_bodies(s) =~= Seq::<Seq<char>>::empty());
        assert(s =~= Seq::<EntryView>::empty());
    }
}

proof fn lemma_header_facts()
    ensures
        !header_body().contains('\n'),
        without_cr(header_body()) == header_body(),
{
    reveal_with_fuel(joined, 7);
    assert(header_body() =~= seq!['f', 'e', 'e', 'd', '\t', 'i', 'd', '\t', 'u', 'p', 'd', 'a', 't', 'e', 'd', '\t', 't', 'i', 't', 'l', 'e', '\t', 'l', 'i', 'n', 'k', '\t', 'r', 'e', 'a', 'd']);
}

proof fn lemma_body_facts(e: EntryView)
    requires
        fits_record(e),
    ensures
        !record_body(e).contains('\n'),
        without_cr(record_body(e)) == record_body(e),
{
    let f = record_fields(e);
    lemma_joined_last(f, '\t');
    if record_body(e).contains('\n') {
        let k = choose|k: int| 0 <= k < record_body(e).len() && record_body(e)[k] == '\n';
        assert forall|j: int| 0 <= j < f.len() implies !(#[trigger] f[j]).contains('\n') by {
            if j < 5 {
            } else if f[j].contains('\n') {
                let m = choose|m: int| 0 <= m < f[j].len() && f[j][m] == '\n';
            }
        }
        reveal_with_fuel(joined, 7);
        let flat = f[0] + seq!['\t'] + f[1] + seq!['\t'] + f[2] + seq!['\t'] + f[3] + seq!['\t'] + f[4] + seq!['\t'] + f[5];
        assert(record_body(e) =~= flat);
        assert(!flat.contains('\n'));
    }
}

/// Decoding the encoding of a collection whose text fields hold no tab and no newline
/// gives back the same entries, in the same order.
pub proof fn lemma_round_trip(s: Seq<EntryView>)
    requires
        all_fit(s),
    ensures
        decoded(encoded(s)) == Ok::<Seq<EntryView>, DecodeError>(s),
{
    let bodies = seq![header_body()] + record_bodies(s);
    let parts = bodies + seq![Seq::<char>::empty()];
    lemma_encoded_as_joined(s);
    lemma_header_facts();
    assert forall|i: int| 0 <= i < parts.len() implies !(#[trigger] parts[i]).contains('\n') by {
        if 0 < i < parts.len() - 1 {
            assert(parts[i] == record_body(s[i - 1]));
            assert(fits_record(s[i - 1]));
            lemma_body_facts(s[i - 1]);
        } else if i != 0 {
            assert(parts[i] =~= Seq::<char>::empty());
        }
    }
    lemma_pieces_of_joined(parts, '\n');
    let p = pieces(encoded(s), '\n');
    assert(p.drop_last() =~= bodies);
    assert(p.last() =~= Seq::<char>::empty());
    let ls = lines_of(encoded(s));
    assert forall|i: int| 0 <= i < bodies.len() implies without_cr(#[trigger] bodies[i]) == bodies[i] by {
        if i > 0 {
            assert(bodies[i] == record_body(s[i - 1]));
            assert(fits_record(s[i - 1]));
            lemma_body_facts(s[i - 1]);
        }
    }
    assert(ls =~= bodies);
    assert(ls.subrange(1, ls.len() as int) =~= record_bodies(s));
    lemma_records_round_trip(s);
}

} // verus!
