//! Whole-collection operations run inside a store transaction: marking read, deleting a
//! feed, listing a feed's entries oldest first, and counting unread entries per feed.

use vstd::prelude::*;
use crate::entry::{Entry, EntryView, views};

verus! {

pub open spec fn marked_read(e: EntryView) -> EntryView {
    EntryView { read: true, ..e }
}

/// The collection with entry (`feed`, `id`) marked read; nothing else changes.
pub open spec fn with_entry_read(s: Seq<EntryView>, feed: Seq<char>, id: Seq<char>) -> Seq<EntryView> {
    s.map_values(|e: EntryView| if e.feed == feed && e.id == id { marked_read(e) } else { e })
}

/// The collection with every entry of `feed` marked read; nothing else changes.
pub open spec fn with_feed_read(s: Seq<EntryView>, feed: Seq<char>) -> Seq<EntryView> {
    s.map_values(|e: EntryView| if e.feed == feed { marked_read(e) } else { e })
}

/// The collection without the entries of `feed`.
pub open spec fn without_feed(s: Seq<EntryView>, feed: Seq<char>) -> Seq<EntryView> {
    s.filter(|e: EntryView| e.feed != feed)
}

/// The entries of `feed`, in their order.
pub open spec fn of_feed(s: Seq<EntryView>, feed: Seq<char>) -> Seq<EntryView> {
    s.filter(|e: EntryView| e.feed == feed)
}

/// Marks entry `entry_id` of feed `feed_name` read.
pub fn mark_entry_as_read(entries: Vec<Entry>, feed_name: &String, entry_id: &String) -> (r: Vec<Entry>)
    ensures
        views(r@) == with_entry_read(views(entries@), feed_name@, entry_id@),
{
    let ghost src = views(entries@);
    let mut out: Vec<Entry> = Vec::new();
    for e in it: entries.into_iter()
        invariant
            views(it.seq()) == src,
            views(out@) == with_entry_read(src.take(it.index() as int), feed_name@, entry_id@),
    {
        let ghost k = it.index() as int;
        let mut e = e;
        if e.feed == *feed_name && e.id == *entry_id {
            e.read = true;
        }
        let ghost before = views(out@);
        out.push(e);
        proof {
            assert(src[k] == views(it.seq())[k]);
            assert(views(out@) =~= before.push(e@));
            assert(with_entry_read(src.take(k + 1), feed_name@, entry_id@) =~= with_entry_read(src.take(k), feed_name@, entry_id@).push(e@));
        }
    }
    proof {
        assert(src.take(src.len() as int) =~= src);
    }
    out
}

/// Marks every entry of feed `feed_name` read.
pub fn mark_feed_as_read(entries: Vec<Entry>, feed_name: &String) -> (r: Vec<Entry>)
    ensures
        views(r@) == with_feed_read(views(entries@), feed_name@),
{
    let ghost src = views(entries@);
    let mut out: Vec<Entry> = Vec::new();
    for e in it: entries.into_iter()
        invariant
            views(it.seq()) == src,
            views(out@) == with_feed_read(src.take(it.index() as int), feed_name@),
    {
        let ghost k = it.index() as int;
        let mut e = e;
        if e.feed == *feed_name {
            e.read = true;
        }
        let ghost before = views(out@);
        out.push(e);
        proof {
            assert(src[k] == views(it.seq())[k]);
            assert(views(out@) =~= before.push(e@));
            assert(with_feed_read(src.take(k + 1), feed_name@) =~= with_feed_read(src.take(k), feed_name@).push(e@));
        }
    }
    proof {
        assert(src.take(src.len() as int) =~= src);
    }
    out
}

/// The entries whose feed is (`keep` true) or is not (`keep` false) `feed_name`, in order.
fn select_feed(entries: Vec<Entry>, feed_name: &String, keep: bool) -> (r: Vec<Entry>)
    ensures
        views(r@) == views(entries@).filter(|e: EntryView| (e.feed == feed_name@) == keep),
{
    let ghost src = views(entries@);
    let ghost pred = |e: EntryView| (e.feed == feed_name@) == keep;
    let mut out: Vec<Entry> = Vec::new();
    for e in it: entries.into_iter()
        invariant
            views(it.seq()) == src,
            pred == (|e: EntryView| (e.feed == feed_name@) == keep),
            views(out@) == src.take(it.index() as int).filter(pred),
    {
        proof {
            let k = it.index() as int;
            assert(src[k] == views(it.seq())[k]);
            assert(src.take(k + 1) =~= src.take(k).push(e@));
            src.take(k).lemma_filter_push(e@, pred);
        }
        if (e.feed == *feed_name) == keep {
            let ghost before = views(out@);
            out.push(e);
            proof {
                assert(views(out@) =~= before.push(e@));
            }
        }
    }
    proof {
        assert(src.take(src.len() as int) =~= src);
    }
    out
}

/// Removes every entry of feed `feed_name`.
pub fn remove_feed_entries(entries: Vec<Entry>, feed_name: &String) -> (r: Vec<Entry>)
    ensures
        views(r@) == without_feed(views(entries@), feed_name@),
{
    let r = select_feed(entries, feed_name, false);
    proof {
        assert(views(r@) =~= without_feed(views(entries@), feed_name@)) by {
            assert((|e: EntryView| (e.feed == feed_name@) == false) =~= (|e: EntryView| e.feed != feed_name@));
        }
    }
    r
}

/// Some count in `c` is for feed `feed`.
pub open spec fn counts_feed(c: Seq<(Seq<char>, nat)>, feed: Seq<char>) -> bool {
    exists|i: int| 0 <= i < c.len() && (#[trigger] c[i]).0 == feed
}

/// The number of unread entries of each feed that has any, in the order in which the
/// feeds first have an unread entry.
pub open spec fn unread_counts(s: Seq<EntryView>) -> Seq<(Seq<char>, nat)>
    decreases s.len(),
{
    if s.len() == 0 {
        Seq::empty()
    } else {
        let c = unread_counts(s.drop_last());
        let e = s.last();
        if e.read {
            c
        } else if counts_feed(c, e.feed) {
            c.map_values(|q: (Seq<char>, nat)| if q.0 == e.feed { (q.0, q.1 + 1) } else { q })
        } else {
            c.push((e.feed, 1))
        }
    }
}

/// The number of unread entries of feed `feed`.
pub open spec fn unread_of(s: Seq<EntryView>, feed: Seq<char>) -> nat {
    s.filter(|e: EntryView| !e.read && e.feed == feed).len()
}

/// Each feed with unread entries is counted once, with the number of its unread entries.
pub proof fn lemma_unread_counts(s: Seq<EntryView>)
    ensures
        forall|p: int, q: int|
            0 <= p < unread_counts(s).len() && 0 <= q < unread_counts(s).len() && p != q ==> (#[trigger] unread_counts(
                s,
            )[p]).0 != (#[trigger] unread_counts(s)[q]).0,
        forall|p: int|
            0 <= p < unread_counts(s).len() ==> (#[trigger] unread_counts(s)[p]).1 == unread_of(s, unread_counts(s)[p].0)
                && unread_counts(s)[p].1 > 0,
        forall|f: Seq<char>| unread_of(s, f) > 0 ==> #[trigger] counts_feed(unread_counts(s), f),
    decreases s.len(),
{
    if s.len() == 0 {
        assert forall|f: Seq<char>| unread_of(s, f) > 0 implies #[trigger] counts_feed(unread_counts(s), f) by {
            reveal(Seq::filter);
        }
    } else {
        let q = s.drop_last();
        let e = s.last();
        lemma_unread_counts(q);
        let c = unread_counts(q);
        let c2 = unread_counts(s);
        assert(q.push(e) =~= s);
        assert forall|f: Seq<char>| #[trigger] unread_of(s, f) == unread_of(q, f) + (if !e.read && e.feed == f { 1nat } else { 0nat }) by {
            q.lemma_filter_push(e, |x: EntryView| !x.read && x.feed == f);
        }
        if e.read {
            assert(c2 == c);
        } else if counts_feed(c, e.feed) {
            let k = choose|k: int| 0 <= k < c.len() && (#[trigger] c[k]).0 == e.feed;
            assert forall|p: int| 0 <= p < c2.len() implies (#[trigger] c2[p]).1 == unread_of(s, c2[p].0) && c2[p].1 > 0 by {
                if c[p].0 == e.feed {
                    assert(c2[p] == (c[p].0, c[p].1 + 1));
                } else {
                    assert(c2[p] == c[p]);
                }
            }
            assert forall|f: Seq<char>| unread_of(s, f) > 0 implies #[trigger] counts_feed(c2, f) by {
                if f == e.feed {
                    assert(c2[k].0 == f);
                } else {
                    assert(unread_of(q, f) > 0);
                    assert(counts_feed(c, f));
                    let m = choose|m: int| 0 <= m < c.len() && (#[trigger] c[m]).0 == f;
                    assert(c2[m].0 == f);
                }
            }
        } else {
            assert(unread_of(q, e.feed) == 0);
            assert forall|p: int| 0 <= p < c2.len() implies (#[trigger] c2[p]).1 == unread_of(s, c2[p].0) && c2[p].1 > 0 by {
                if p < c.len() {
                    assert(c2[p] == c[p]);
                    assert(c[p].0 != e.feed);
                }
            }
            assert forall|p: int, r: int| 0 <= p < c2.len() && 0 <= r < c2.len() && p != r implies (#[trigger] c2[p]).0
                != (#[trigger] c2[r]).0 by {
                if p < c.len() && r < c.len() {
                } else if p < c.len() {
                    assert(c2[p] == c[p]);
                } else {
                    assert(c2[r] == c[r]);
                }
            }
            assert forall|f: Seq<char>| unread_of(s, f) > 0 implies #[trigger] counts_feed(c2, f) by {
                if f == e.feed {
                    assert(c2[c.len() as int].0 == f);
                } else {
                    assert(unread_of(q, f) > 0);
                    assert(counts_feed(c, f));
                    let m = choose|m: int| 0 <= m < c.len() && (#[trigger] c[m]).0 == f;
                    assert(c2[m].0 == f);
                }
            }
        }
    }
}

pub open spec fn count_views(v: Seq<(String, u32)>) -> Seq<(Seq<char>, nat)> {
    v.map_values(|q: (String, u32)| (q.0@, q.1 as nat))
}

/// Counts the unread entries of each feed.
pub fn count_unread_entries(entries: &Vec<Entry>) -> (r: Vec<(String, u32)>)
    requires
        entries@.len() <= u32::MAX,
    ensures
        count_views(r@) == unread_counts(views(entries@)),
        forall|p: int| 0 <= p < r@.len() ==> (#[trigger] r@[p]).1 as nat == unread_of(views(entries@), r@[p].0@),
        forall|f: Seq<char>| unread_of(views(entries@), f) > 0 ==> #[trigger] counts_feed(count_views(r@), f),
{
    let ghost src = views(entries@);
    let mut counts: Vec<(String, u32)> = Vec::new();
    let n = entries.len();
    for i in 0..n
        invariant
            n == entries@.len(),
            n <= u32::MAX,
            src == views(entries@),
            count_views(counts@) == unread_counts(src.take(i as int)),
            forall|p: int| 0 <= p < counts@.len() ==> (#[trigger] counts@[p]).1 <= i,
            forall|p: int, q: int|
                0 <= p < counts@.len() && 0 <= q < counts@.len() && p != q ==> (#[trigger] counts@[p]).0@
                    != (#[trigger] counts@[q]).0@,
    {
        let e = &entries[i];
        let ghost c = count_views(counts@);
        proof {
            assert(src.take(i + 1).drop_last() =~= src.take(i as int));
            assert(src.take(i + 1).last() == e@);
        }
        if !e.read {
            let mut found: Option<usize> = None;
            let m = counts.len();
            for j in 0..m
                invariant
                    m == counts@.len(),
                    found is None ==> forall|q: int| 0 <= q < j ==> (#[trigger] counts@[q]).0@ != e.feed@,
                    found matches Some(p) ==> p < m && counts@[p as int].0@ == e.feed@,
            {
                if found.is_none() && counts[j].0 == e.feed {
                    found = Some(j);
                }
            }
            match found {
                Some(p) => {
                    let ghost before = counts@;
                    let k = counts[p].1;
                    counts[p].1 = k + 1;
                    proof {
                        assert(c[p as int].0 == e.feed@);
                        assert(counts_feed(c, e.feed@));
                        assert(count_views(counts@) =~= c.map_values(
                            |q: (Seq<char>, nat)| if q.0 == e.feed@ { (q.0, q.1 + 1) } else { q },
                        )) by {
                            assert forall|q: int| 0 <= q < c.len() && q != p implies c[q].0 != e.feed@ by {
                                assert(before[q].0@ != before[p as int].0@);
                            }
                        }
                    }
                },
                None => {
                    proof {
                        assert(!counts_feed(c, e.feed@)) by {
                            if counts_feed(c, e.feed@) {
                                let q = choose|q: int| 0 <= q < c.len() && (#[trigger] c[q]).0 == e.feed@;
                                assert(counts@[q].0@ == e.feed@);
                            }
                        }
                    }
                    counts.push((e.feed.clone(), 1));
                    proof {
                        assert(count_views(counts@) =~= c.push((e.feed@, 1)));
                    }
                },
            }
        }
    }
    proof {
        assert(src.take(n as int) =~= src);
        lemma_unread_counts(src);
        assert forall|p: int| 0 <= p < counts@.len() implies (#[trigger] counts@[p]).1 as nat == unread_of(src, counts@[p].0@) by {
            assert(count_views(counts@)[p] == (counts@[p].0@, counts@[p].1 as nat));
        }
    }
    counts
}

/// Lexicographic order of texts, character by character (the order of Rust's `str`).
pub open spec fn text_lt(a: Seq<char>, b: Seq<char>) -> bool
    decreases a.len(),
{
    if a.len() == 0 {
        b.len() > 0
    } else if b.len() == 0 {
        false
    } else if a[0] != b[0] {
        a[0] < b[0]
    } else {
        text_lt(a.skip(1), b.skip(1))
    }
}

/// Oldest first by timestamp text, then by id.
pub open spec fn date_lt(x: EntryView, y: EntryView) -> bool {
    text_lt(x.updated, y.updated) || (x.updated == y.updated && text_lt(x.id, y.id))
}

pub open spec fn sorted_by_date(s: Seq<EntryView>) -> bool {
    forall|i: int, j: int| 0 <= i < j < s.len() ==> !date_lt(#[trigger] s[j], #[trigger] s[i])
}

proof fn lemma_text_lt_order(a: Seq<char>, b: Seq<char>, c: Seq<char>)
    ensures
        text_lt(a, b) ==> !text_lt(b, a),
        text_lt(a, b) ==> a != b,
        text_lt(a, b) && text_lt(b, c) ==> text_lt(a, c),
    decreases a.len(),
{
    if a.len() > 0 && b.len() > 0 {
        if c.len() > 0 {
            lemma_text_lt_order(a.skip(1), b.skip(1), c.skip(1));
        } else {
            lemma_text_lt_order(a.skip(1), b.skip(1), c);
        }
    }
    if text_lt(a, b) && a == b {
        lemma_text_lt_irreflexive(a);
    }
}

proof fn lemma_text_lt_irreflexive(a: Seq<char>)
    ensures
        !text_lt(a, a),
    decreases a.len(),
{
    if a.len() > 0 {
        lemma_text_lt_irreflexive(a.skip(1));
    }
}

proof fn lemma_date_lt_order(x: EntryView, y: EntryView, z: EntryView)
    ensures
        date_lt(x, y) ==> !date_lt(y, x),
        date_lt(x, y) && date_lt(y, z) ==> date_lt(x, z),
{
    lemma_text_lt_order(x.updated, y.updated, z.updated);
    lemma_text_lt_order(x.id, y.id, z.id);
    lemma_text_lt_order(y.updated, x.updated, z.updated);
    lemma_text_lt_order(y.id, x.id, z.id);
    lemma_text_lt_irreflexive(x.updated);
    lemma_text_lt_irreflexive(y.updated);
    lemma_text_lt_irreflexive(x.id);
    if x.updated == y.updated {
        lemma_text_lt_order(x.updated, z.updated, z.updated);
    }
}

/// The characters of `s`.
fn chars_of(s: &str) -> (r: Vec<char>)
    ensures
        r@ == s@,
{
    let mut cs: Vec<char> = Vec::new();
    for c in it: s.chars()
        invariant
            it.seq() == s@,
            cs@ == s@.take(it.index() as int),
    {
        proof {
            assert(s@.take(it.index() + 1) =~= s@.take(it.index() as int).push(c));
        }
        cs.push(c);
    }
    proof {
        assert(s@.take(s@.len() as int) =~= s@);
    }
    cs
}

/// Whether `a` comes before `b` in text order.
fn text_before(a: &String, b: &String) -> (r: bool)
    ensures
        r == text_lt(a@, b@),
{
    let x = chars_of(a.as_str());
    let y = chars_of(b.as_str());
    let mut i: usize = 0;
    proof {
        assert(a@.skip(0) =~= a@);
        assert(b@.skip(0) =~= b@);
    }
    while i < x.len() && i < y.len()
        invariant
            x@ == a@,
            y@ == b@,
            i <= x@.len(),
            i <= y@.len(),
            text_lt(a@, b@) == text_lt(a@.skip(i as int), b@.skip(i as int)),
        decreases x@.len() - i,
    {
        proof {
            assert(a@.skip(i as int).skip(1) =~= a@.skip(i + 1));
            assert(b@.skip(i as int).skip(1) =~= b@.skip(i + 1));
        }
        if x[i] != y[i] {
            return x[i] < y[i];
        }
        i = i + 1;
    }
    i < y.len()
}

/// Whether `x` comes before `y`, oldest first, then by id.
fn date_before(x: &Entry, y: &Entry) -> (r: bool)
    ensures
        r == date_lt(x@, y@),
{
    text_before(&x.updated, &y.updated) || (x.updated == y.updated && text_before(&x.id, &y.id))
}

/// Sorts oldest first, then by id; entries that compare equal keep their order.
fn sort_by_date(v: Vec<Entry>) -> (r: Vec<Entry>)
    ensures
        views(r@).to_multiset() == views(v@).to_multiset(),
        sorted_by_date(views(r@)),
{
    let ghost src = views(v@);
    let mut out: Vec<Entry> = Vec::new();
    proof {
        assert(views(out@) =~= src.take(0));
    }
    for e in it: v.into_iter()
        invariant
            views(it.seq()) == src,
            views(out@).to_multiset() == src.take(it.index() as int).to_multiset(),
            sorted_by_date(views(out@)),
    {
        let ghost k = it.index() as int;
        let ghost ov = views(out@);
        let n = out.len();
        let mut p: usize = 0;
        while p < n && !date_before(&e, &out[p])
            invariant
                n == out@.len(),
                p <= n,
                ov == views(out@),
                forall|q: int| 0 <= q < p ==> !date_lt(e@, #[trigger] ov[q]),
            decreases n - p,
        {
            p = p + 1;
        }
        proof {
            assert(src[k] == e@);
            assert(src.take(k + 1) =~= src.take(k).push(e@));
            assert forall|q: int| p <= q < n implies !date_lt(#[trigger] ov[q], e@) by {
                lemma_date_lt_order(ov[q], e@, ov[p as int]);
                lemma_date_lt_order(e@, ov[p as int], ov[p as int]);
                if q > p {
                    lemma_date_lt_order(ov[q], ov[p as int], e@);
                }
            }
        }
        out.insert(p, e);
        proof {
            let nv = views(out@);
            assert(nv =~= ov.insert(p as int, e@));
            vstd::seq_lib::to_multiset_insert(ov, p as int, e@);
            vstd::seq_lib::to_multiset_build(src.take(k), e@);
            assert forall|i: int, j: int| 0 <= i < j < nv.len() implies !date_lt(#[trigger] nv[j], #[trigger] nv[i]) by {
                if j < p {
                    assert(nv[i] == ov[i] && nv[j] == ov[j]);
                } else if j == p {
                    assert(nv[i] == ov[i]);
                } else if i == p {
                    assert(nv[j] == ov[j - 1]);
                } else if i < p {
                    assert(nv[i] == ov[i] && nv[j] == ov[j - 1]);
                } else {
                    assert(nv[i] == ov[i - 1] && nv[j] == ov[j - 1]);
                }
            }
        }
    }
    proof {
        assert(src.take(src.len() as int) =~= src);
    }
    out
}

/// The entries of feed `feed_name`, oldest first and then by id, so that reading them
/// in order opens the oldest first.
pub fn get_feed_entries(entries: Vec<Entry>, feed_name: &String) -> (r: Vec<Entry>)
    ensures
        views(r@).to_multiset() == of_feed(views(entries@), feed_name@).to_multiset(),
        sorted_by_date(views(r@)),
{
    let chosen = select_feed(entries, feed_name, true);
    proof {
        assert(views(chosen@) =~= of_feed(views(entries@), feed_name@)) by {
            assert((|e: EntryView| (e.feed == feed_name@) == true) =~= (|e: EntryView| e.feed == feed_name@));
        }
    }
    sort_by_date(chosen)
}

} // verus!
