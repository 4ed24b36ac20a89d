//! Reconciliation of one feed's freshly parsed entries with the stored collection.

use vstd::prelude::*;
use crate::entry::{Entry, EntryView, views, keys_unique, all_clean};
use crate::text::is_clean;

verus! {

/// Some entry of `s` has id `id`.
pub open spec fn has_id(s: Seq<EntryView>, id: Seq<char>) -> bool {
    exists|i: int| 0 <= i < s.len() && (#[trigger] s[i]).id == id
}

/// No two entries of `s` share an id.
pub open spec fn ids_unique(s: Seq<EntryView>) -> bool {
    forall|i: int, j: int|
        0 <= i < s.len() && 0 <= j < s.len() && i != j ==> (#[trigger] s[i]).id != (#[trigger] s[j]).id
}

/// The incoming entries indexed by id: one entry per id, placed where the id first
/// occurs, holding the last entry with that id.
pub open spec fn indexed(s: Seq<EntryView>) -> Seq<EntryView>
    decreases s.len(),
{
    if s.len() == 0 {
        Seq::empty()
    } else {
        let ix = indexed(s.drop_last());
        let e = s.last();
        if has_id(ix, e.id) {
            ix.map_values(|x: EntryView| if x.id == e.id { e } else { x })
        } else {
            ix.push(e)
        }
    }
}

/// The pending entries without the one of id `id`.
pub open spec fn without_id(p: Seq<EntryView>, id: Seq<char>) -> Seq<EntryView> {
    p.filter(|x: EntryView| x.id != id)
}

/// The state of the walk over the stored entries: those kept so far, and the
/// incoming entries not yet matched by a stored one.
pub struct Walk {
    pub kept: Seq<EntryView>,
    pub pending: Seq<EntryView>,
}

/// The decision for one stored entry: other feeds' entries stay; a listed entry
/// stays as stored and is no longer new; an unlisted entry stays only while unread.
pub open spec fn walk_step(feed: Seq<char>, st: Walk, e: EntryView) -> Walk {
    if e.feed != feed {
        Walk { kept: st.kept.push(e), pending: st.pending }
    } else if has_id(st.pending, e.id) {
        Walk { kept: st.kept.push(e), pending: without_id(st.pending, e.id) }
    } else if !e.read {
        Walk { kept: st.kept.push(e), pending: st.pending }
    } else {
        st
    }
}

pub open spec fn walk(feed: Seq<char>, st: Walk, s: Seq<EntryView>) -> Walk
    decreases s.len(),
{
    if s.len() == 0 {
        st
    } else {
        walk_step(feed, walk(feed, st, s.drop_last()), s.last())
    }
}

/// An incoming entry as it is added to the store: of this feed, and unread.
pub open spec fn as_new(feed: Seq<char>, e: EntryView) -> EntryView {
    EntryView { feed: feed, id: e.id, title: e.title, updated: e.updated, link: e.link, read: false }
}

pub open spec fn fresh(feed: Seq<char>, p: Seq<EntryView>) -> Seq<EntryView> {
    p.map_values(|e: EntryView| as_new(feed, e))
}

/// The collection after reconciling feed `feed`'s `incoming` entries with `current`:
/// the stored entries that stay, in their order, then the genuinely new ones.
pub open spec fn reconciled(feed: Seq<char>, incoming: Seq<EntryView>, current: Seq<EntryView>) -> Seq<EntryView> {
    let w = walk(feed, Walk { kept: Seq::empty(), pending: indexed(incoming) }, current);
    w.kept + fresh(feed, w.pending)
}

/// The position of the entry of id `id`, if there is one.
fn find_id(v: &Vec<Entry>, id: &String) -> (r: Option<usize>)
    ensures
        match r {
            Some(p) => p < v@.len() && v@[p as int].id@ == id@,
            None => !has_id(views(v@), id@),
        },
{
    let n = v.len();
    for i in 0..n
        invariant
            n == v@.len(),
            forall|j: int| 0 <= j < i ==> v@[j].id@ != id@,
    {
        if v[i].id == *id {
            return Some(i);
        }
    }
    proof {
        if has_id(views(v@), id@) {
            let j = choose|j: int| 0 <= j < views(v@).len() && (#[trigger] views(v@)[j]).id == id@;
            assert(v@[j].id@ == id@);
        }
    }
    None
}

proof fn lemma_indexed_step(ix: Seq<EntryView>, e: EntryView, p: int)
    requires
        ids_unique(ix),
        0 <= p < ix.len(),
        ix[p].id == e.id,
    ensures
        ix.update(p, e) == ix.map_values(|x: EntryView| if x.id == e.id { e } else { x }),
        ids_unique(ix.update(p, e)),
{
    assert(ix.update(p, e) =~= ix.map_values(|x: EntryView| if x.id == e.id { e } else { x }));
}

/// The incoming entries indexed by id, last one winning.
fn index_by_id(incoming: Vec<Entry>) -> (r: Vec<Entry>)
    ensures
        views(r@) == indexed(views(incoming@)),
        ids_unique(views(r@)),
{
    let ghost src = views(incoming@);
    let mut ix: Vec<Entry> = Vec::new();
    for e in it: incoming.into_iter()
        invariant
            views(it.seq()) == src,
            views(ix@) == indexed(src.take(it.index() as int)),
            ids_unique(views(ix@)),
    {
        proof {
            let k = it.index() as int;
            assert(src.take(k + 1).drop_last() =~= src.take(k));
            assert(src[k] == e@);
        }
        match find_id(&ix, &e.id) {
            Some(p) => {
                let ghost before = views(ix@);
                proof {
                    assert(before[p as int].id == e@.id);
                    assert(has_id(before, e@.id));
                }
                ix[p] = e;
                proof {
                    lemma_indexed_step(before, e@, p as int);
                    assert(views(ix@) =~= before.update(p as int, e@));
                }
            },
            None => {
                let ghost before = views(ix@);
                ix.push(e);
                proof {
                    assert(views(ix@) =~= before.push(e@));
                }
            },
        }
    }
    proof {
        assert(src.take(src.len() as int) =~= src);
    }
    ix
}

/// The pending entries without the one of id `id`.
fn drop_id(pending: Vec<Entry>, id: &String) -> (r: Vec<Entry>)
    ensures
        views(r@) == without_id(views(pending@), id@),
{
    let ghost src = views(pending@);
    let mut out: Vec<Entry> = Vec::new();
    for e in it: pending.into_iter()
        invariant
            views(it.seq()) == src,
            views(out@) == without_id(src.take(it.index() as int), id@),
    {
        proof {
            let k = it.index() as int;
            assert(src.take(k + 1) =~= src.take(k).push(e@));
            src.take(k).lemma_filter_push(e@, |x: EntryView| x.id != id@);
        }
        if e.id != *id {
            let ghost before = views(out@);
            out.push(e);
            proof {
                assert(views(out@) =~= before.push(e@));
            }
        }
    }
    proof {
        assert(src.take(src.len() as int) =~= src);
    }
    out
}

/// Reconciles feed `feed_name`'s freshly parsed entries with the stored collection.
/// Entries of other feeds are kept as they are. A stored entry of this feed whose id
/// is listed again is kept as stored, never updated; one no longer listed is kept while
/// unread and dropped once read. Incoming entries whose id the store lacks for this
/// feed are appended, as unread entries of this feed.
pub fn merge_feed(feed_name: String, feed_entries: Vec<Entry>, database_entries: Vec<Entry>) -> (r: Vec<Entry>)
    ensures
        views(r@) == reconciled(feed_name@, views(feed_entries@), views(database_entries@)),
{
    let ghost feed = feed_name@;
    let ghost current = views(database_entries@);
    let ghost start = Walk { kept: Seq::empty(), pending: indexed(views(feed_entries@)) };
    let mut pending = index_by_id(feed_entries);
    let mut kept: Vec<Entry> = Vec::new();
    proof {
        assert(views(kept@) =~= Seq::<EntryView>::empty());
        assert(current.take(0) =~= Seq::<EntryView>::empty());
    }
    for e in it: database_entries.into_iter()
        invariant
            views(it.seq()) == current,
            feed == feed_name@,
            walk(feed, start, current.take(it.index() as int)) == (Walk { kept: views(kept@), pending: views(pending@) }),
    {
        proof {
            let k = it.index() as int;
            assert(current.take(k + 1).drop_last() =~= current.take(k));
            assert(current[k] == e@);
        }
        let ghost before = views(kept@);
        if e.feed != feed_name {
            kept.push(e);
        } else {
            match find_id(&pending, &e.id) {
                Some(p) => {
                    proof {
                        assert(views(pending@)[p as int].id == e@.id);
                    }
                    pending = drop_id(pending, &e.id);
                    kept.push(e);
                },
                None => {
                    if !e.read {
                        kept.push(e);
                    }
                },
            }
        }
        proof {
            if views(kept@).len() > before.len() {
                assert(views(kept@) =~= before.push(e@));
            } else {
                assert(views(kept@) =~= before);
            }
        }
    }
    proof {
        assert(current.take(current.len() as int) =~= current);
    }
    let ghost w = Walk { kept: views(kept@), pending: views(pending@) };
    let mut result = kept;
    let n = pending.len();
    proof {
        assert(fresh(feed, w.pending.take(0)) =~= Seq::<EntryView>::empty());
        assert(w.kept + Seq::<EntryView>::empty() =~= w.kept);
    }
    for i in 0..n
        invariant
            n == pending@.len(),
            views(pending@) == w.pending,
            feed == feed_name@,
            views(result@) == w.kept + fresh(feed, w.pending.take(i as int)),
    {
        let p = &pending[i];
        let e = Entry {
            feed: feed_name.clone(),
            id: p.id.clone(),
            title: p.title.clone(),
            updated: p.updated.clone(),
            link: p.link.clone(),
            read: false,
        };
        let ghost before = views(result@);
        result.push(e);
        proof {
            assert(w.pending.take(i + 1) =~= w.pending.take(i as int).push(w.pending[i as int]));
            assert(fresh(feed, w.pending.take(i + 1)) =~= fresh(feed, w.pending.take(i as int)).push(as_new(feed, w.pending[i as int])));
            assert(views(result@) =~= before.push(e@));
        }
    }
    proof {
        assert(w.pending.take(n as int) =~= w.pending);
    }
    result
}

/// Some entry of `s` belongs to feed `feed` and has id `id`.
pub open spec fn stores(s: Seq<EntryView>, feed: Seq<char>, id: Seq<char>) -> bool {
    exists|i: int| 0 <= i < s.len() && (#[trigger] s[i]).feed == feed && s[i].id == id
}

proof fn lemma_without_id_has_id(p: Seq<EntryView>, y: Seq<char>, x: Seq<char>)
    ensures
        has_id(without_id(p, y), x) == (has_id(p, x) && x != y),
{
    let pred = |e: EntryView| e.id != y;
    let f = p.filter(pred);
    if has_id(f, x) {
        let i = choose|i: int| 0 <= i < f.len() && (#[trigger] f[i]).id == x;
        assert(f.contains(f[i]));
        p.lemma_filter_contains_rev(pred, f[i]);
        let j = choose|j: int| 0 <= j < p.len() && p[j] == f[i];
        assert(p[j].id == x);
    }
    if has_id(p, x) && x != y {
        let i = choose|i: int| 0 <= i < p.len() && (#[trigger] p[i]).id == x;
        p.lemma_filter_contains(pred, i);
        let j = choose|j: int| 0 <= j < f.len() && f[j] == p[i];
        assert(f[j].id == x);
    }
}

proof fn lemma_filter_keeps_unique(p: Seq<EntryView>, pred: spec_fn(EntryView) -> bool)
    requires
        ids_unique(p),
    ensures
        ids_unique(p.filter(pred)),
    decreases p.len(),
{
    if p.len() > 0 {
        let q = p.drop_last();
        assert(ids_unique(q)) by {
            assert forall|i: int, j: int|
                0 <= i < q.len() && 0 <= j < q.len() && i != j implies (#[trigger] q[i]).id != (#[trigger] q[j]).id by {
                assert(q[i] == p[i] && q[j] == p[j]);
            }
        }
        lemma_filter_keeps_unique(q, pred);
        assert(q.push(p.last()) =~= p);
        q.lemma_filter_push(p.last(), pred);
        if pred(p.last()) {
            let f = q.filter(pred);
            let g = f.push(p.last());
            assert forall|i: int, j: int|
                0 <= i < g.len() && 0 <= j < g.len() && i != j implies (#[trigger] g[i]).id != (#[trigger] g[j]).id by {
                if i == g.len() - 1 || j == g.len() - 1 {
                    let k = if i == g.len() - 1 { j } else { i };
                    assert(f.contains(g[k]));
                    q.lemma_filter_contains_rev(pred, g[k]);
                    let m = choose|m: int| 0 <= m < q.len() && q[m] == g[k];
                    assert(p[m] == g[k]);
                    assert(p[p.len() - 1] == p.last());
                }
            }
        }
    }
}

proof fn lemma_indexed(s: Seq<EntryView>)
    ensures
        ids_unique(indexed(s)),
        forall|x: Seq<char>| #[trigger] has_id(indexed(s), x) == has_id(s, x),
    decreases s.len(),
{
    if s.len() > 0 {
        let q = s.drop_last();
        let e = s.last();
        let ix = indexed(q);
        lemma_indexed(q);
        assert forall|x: Seq<char>| #[trigger] has_id(indexed(s), x) == has_id(s, x) by {
            if has_id(q, x) {
                let i = choose|i: int| 0 <= i < q.len() && (#[trigger] q[i]).id == x;
                assert(s[i] == q[i]);
            }
            if has_id(s, x) && x != e.id {
                let i = choose|i: int| 0 <= i < s.len() && (#[trigger] s[i]).id == x;
                assert(i != s.len() - 1);
                assert(q[i] == s[i]);
            }
            assert(s[s.len() - 1] == e);
            if has_id(ix, e.id) {
                let m = ix.map_values(|y: EntryView| if y.id == e.id { e } else { y });
                if has_id(ix, x) {
                    let i = choose|i: int| 0 <= i < ix.len() && (#[trigger] ix[i]).id == x;
                    assert(m[i].id == x);
                }
                if has_id(m, x) {
                    let i = choose|i: int| 0 <= i < m.len() && (#[trigger] m[i]).id == x;
                    assert(ix[i].id == x || e.id == x);
                }
            } else {
                if has_id(ix, x) {
                    let i = choose|i: int| 0 <= i < ix.len() && (#[trigger] ix[i]).id == x;
                    assert(ix.push(e)[i].id == x);
                }
                if has_id(ix.push(e), x) {
                    let i = choose|i: int| 0 <= i < ix.len() + 1 && (#[trigger] ix.push(e)[i]).id == x;
                    if i < ix.len() {
                        assert(ix[i].id == x);
                    }
                }
                assert(ix.push(e)[ix.len() as int] == e);
            }
        }
        if !has_id(ix, e.id) {
            let g = ix.push(e);
            assert forall|i: int, j: int|
                0 <= i < g.len() && 0 <= j < g.len() && i != j implies (#[trigger] g[i]).id != (#[trigger] g[j]).id by {
                if i < ix.len() && j < ix.len() {
                    assert(g[i] == ix[i] && g[j] == ix[j]);
                } else if i < ix.len() {
                    assert(g[i] == ix[i]);
                } else {
                    assert(g[j] == ix[j]);
                }
            }
        }
    } else {
        assert(indexed(s) =~= Seq::<EntryView>::empty());
    }
}

proof fn lemma_walk_concat(feed: Seq<char>, st: Walk, a: Seq<EntryView>, b: Seq<EntryView>)
    ensures
        walk(feed, st, a + b) == walk(feed, walk(feed, st, a), b),
    decreases b.len(),
{
    if b.len() == 0 {
        assert(a + b =~= a);
    } else {
        assert((a + b).drop_last() =~= a + b.drop_last());
        lemma_walk_concat(feed, st, a, b.drop_last());
    }
}

/// What the walk keeps extends what it started with; the pending ids are those it
/// started with, less the ids of this feed's stored entries; the pending entries stay
/// unique; and each newly kept entry is a stored one that the decision lets stay.
proof fn lemma_walk_facts(feed: Seq<char>, st: Walk, s: Seq<EntryView>)
    requires
        ids_unique(st.pending),
    ensures
        walk(feed, st, s).kept.len() >= st.kept.len(),
        walk(feed, st, s).kept.take(st.kept.len() as int) == st.kept,
        ids_unique(walk(feed, st, s).pending),
        forall|x: Seq<char>|
            #[trigger] has_id(walk(feed, st, s).pending, x) == (has_id(st.pending, x) && !stores(s, feed, x)),
        forall|i: int|
            st.kept.len() <= i < walk(feed, st, s).kept.len() ==> {
                let k = #[trigger] walk(feed, st, s).kept[i];
                &&& s.contains(k)
                &&& (k.feed != feed || has_id(st.pending, k.id) || !k.read)
            },
    decreases s.len(),
{
    if s.len() > 0 {
        let q = s.drop_last();
        let e = s.last();
        lemma_walk_facts(feed, st, q);
        let w = walk(feed, st, q);
        let w2 = walk(feed, st, s);
        assert(s[s.len() - 1] == e);
        if e.feed == feed && has_id(w.pending, e.id) {
            lemma_filter_keeps_unique(w.pending, |x: EntryView| x.id != e.id);
        }
        assert forall|x: Seq<char>|
            #[trigger] has_id(w2.pending, x) == (has_id(st.pending, x) && !stores(s, feed, x)) by {
            if e.feed == feed && has_id(w.pending, e.id) {
                lemma_without_id_has_id(w.pending, e.id, x);
            }
            if stores(q, feed, x) {
                let i = choose|i: int| 0 <= i < q.len() && (#[trigger] q[i]).feed == feed && q[i].id == x;
                assert(s[i] == q[i]);
            }
            if stores(s, feed, x) && !(e.feed == feed && e.id == x) {
                let i = choose|i: int| 0 <= i < s.len() && (#[trigger] s[i]).feed == feed && s[i].id == x;
                assert(i != s.len() - 1);
                assert(q[i] == s[i]);
            }
        }
        assert forall|i: int| st.kept.len() <= i < w2.kept.len() implies {
            let k = #[trigger] w2.kept[i];
            &&& s.contains(k)
            &&& (k.feed != feed || has_id(st.pending, k.id) || !k.read)
        } by {
            if i < w.kept.len() {
                assert(w2.kept[i] == w.kept[i]);
                let k = w.kept[i];
                assert(q.contains(k));
                let j = choose|j: int| 0 <= j < q.len() && q[j] == k;
                assert(s[j] == k);
            } else {
                assert(w2.kept[i] == e);
                if e.feed == feed && has_id(w.pending, e.id) {
                    assert(has_id(st.pending, e.id));
                }
            }
        }
        assert(w2.kept.take(st.kept.len() as int) =~= st.kept) by {
            assert(w.kept.take(st.kept.len() as int) == st.kept);
            assert forall|i: int| 0 <= i < st.kept.len() implies w2.kept[i] == w.kept[i] by {}
        }
    } else {
        assert(st.kept.take(st.kept.len() as int) =~= st.kept);
        assert forall|x: Seq<char>| #[trigger] has_id(walk(feed, st, s).pending, x) == (has_id(st.pending, x) && !stores(s, feed, x)) by {}
    }
}

/// Entries of feeds other than the one reconciled come out exactly as they went in,
/// in the same order.
pub proof fn lemma_other_feeds_untouched(feed: Seq<char>, incoming: Seq<EntryView>, current: Seq<EntryView>)
    ensures
        reconciled(feed, incoming, current).filter(|e: EntryView| e.feed != feed)
            == current.filter(|e: EntryView| e.feed != feed),
{
    let pred = |e: EntryView| e.feed != feed;
    let st = Walk { kept: Seq::empty(), pending: indexed(incoming) };
    lemma_walk_other_feeds(feed, st, current);
    let w = walk(feed, st, current);
    let fr = fresh(feed, w.pending);
    assert(fr.filter(pred) =~= Seq::<EntryView>::empty()) by {
        lemma_filter_none(fr, pred);
    }
    Seq::filter_distributes_over_add(w.kept, fr, pred);
    assert(Seq::<EntryView>::empty().filter(pred) =~= Seq::<EntryView>::empty()) by {
        reveal(Seq::filter);
    }
}

proof fn lemma_filter_none(s: Seq<EntryView>, pred: spec_fn(EntryView) -> bool)
    requires
        forall|i: int| 0 <= i < s.len() ==> !pred(#[trigger] s[i]),
    ensures
        s.filter(pred) == Seq::<EntryView>::empty(),
    decreases s.len(),
{
    reveal(Seq::filter);
    if s.len() > 0 {
        lemma_filter_none(s.drop_last(), pred);
        assert(!pred(s[s.len() - 1]));
    }
}

proof fn lemma_filter_all(s: Seq<EntryView>, pred: spec_fn(EntryView) -> bool)
    requires
        forall|i: int| 0 <= i < s.len() ==> pred(#[trigger] s[i]),
    ensures
        s.filter(pred) == s,
    decreases s.len(),
{
    reveal(Seq::filter);
    if s.len() > 0 {
        lemma_filter_all(s.drop_last(), pred);
        assert(pred(s[s.len() - 1]));
        assert(s.drop_last().push(s.last()) =~= s);
    }
}

proof fn lemma_walk_other_feeds(feed: Seq<char>, st: Walk, s: Seq<EntryView>)
    ensures
        walk(feed, st, s).kept.filter(|e: EntryView| e.feed != feed)
            == st.kept.filter(|e: EntryView| e.feed != feed) + s.filter(|e: EntryView| e.feed != feed),
    decreases s.len(),
{
    let pred = |e: EntryView| e.feed != feed;
    if s.len() == 0 {
        assert(s.filter(pred) =~= Seq::<EntryView>::empty()) by {
            reveal(Seq::filter);
        }
        assert(st.kept.filter(pred) + Seq::<EntryView>::empty() =~= st.kept.filter(pred));
    } else {
        let q = s.drop_last();
        let e = s.last();
        lemma_walk_other_feeds(feed, st, q);
        let w = walk(feed, st, q);
        assert(q.push(e) =~= s);
        q.lemma_filter_push(e, pred);
        w.kept.lemma_filter_push(e, pred);
        if pred(e) {
            assert(st.kept.filter(pred) + q.filter(pred).push(e) =~= (st.kept.filter(pred) + q.filter(pred)).push(e));
        }
    }
}

/// The walk over `s` keeps `s[i]` exactly when the walk over the entries before it
/// lets it stay.
proof fn lemma_walk_at(feed: Seq<char>, st: Walk, s: Seq<EntryView>, i: int)
    requires
        0 <= i < s.len(),
        ids_unique(st.pending),
        walk_step(feed, walk(feed, st, s.take(i)), s[i]).kept.len()
            > walk(feed, st, s.take(i)).kept.len(),
    ensures
        walk(feed, st, s).kept.contains(s[i]),
{
    let before = walk(feed, st, s.take(i));
    let mid = walk(feed, st, s.take(i + 1));
    assert(s.take(i + 1).drop_last() =~= s.take(i));
    assert(mid.kept == before.kept.push(s[i]));
    assert(s.take(i + 1) + s.skip(i + 1) =~= s);
    lemma_walk_concat(feed, st, s.take(i + 1), s.skip(i + 1));
    lemma_walk_facts(feed, st, s.take(i + 1));
    lemma_walk_facts(feed, mid, s.skip(i + 1));
    let fin = walk(feed, st, s);
    assert(fin.kept.take(mid.kept.len() as int) == mid.kept);
    assert(fin.kept[before.kept.len() as int] == mid.kept[before.kept.len() as int]);
}

/// A stored entry of the feed that the feed no longer lists stays while it is unread,
/// and is gone once it has been read.
pub proof fn lemma_unlisted_entry(feed: Seq<char>, incoming: Seq<EntryView>, current: Seq<EntryView>, e: EntryView)
    requires
        current.contains(e),
        e.feed == feed,
        !has_id(incoming, e.id),
    ensures
        reconciled(feed, incoming, current).contains(e) == !e.read,
{
    let st = Walk { kept: Seq::empty(), pending: indexed(incoming) };
    lemma_indexed(incoming);
    let i = choose|i: int| 0 <= i < current.len() && current[i] == e;
    let w = walk(feed, st, current);
    let r = reconciled(feed, incoming, current);
    lemma_walk_facts(feed, st, current);
    if !e.read {
        lemma_walk_facts(feed, st, current.take(i));
        lemma_walk_at(feed, st, current, i);
        let j = choose|j: int| 0 <= j < w.kept.len() && w.kept[j] == e;
        assert(r[j] == e);
    } else if r.contains(e) {
        let j = choose|j: int| 0 <= j < r.len() && r[j] == e;
        if j < w.kept.len() {
            assert(w.kept[j] == r[j]);
        } else {
            assert(r[j] == as_new(feed, w.pending[j - w.kept.len()]));
        }
    }
}

/// A stored entry of the feed that the feed lists again is kept exactly as stored:
/// whatever the incoming version says, the result holds no other entry of that feed and id.
pub proof fn lemma_listed_entry_not_updated(
    feed: Seq<char>,
    incoming: Seq<EntryView>,
    current: Seq<EntryView>,
    e: EntryView,
)
    requires
        keys_unique(current),
        current.contains(e),
        e.feed == feed,
        has_id(incoming, e.id),
    ensures
        reconciled(feed, incoming, current).contains(e),
        forall|j: int|
            0 <= j < reconciled(feed, incoming, current).len() && (#[trigger] reconciled(feed, incoming, current)[j]).feed == feed
                && reconciled(feed, incoming, current)[j].id == e.id ==> reconciled(feed, incoming, current)[j] == e,
{
    let st = Walk { kept: Seq::empty(), pending: indexed(incoming) };
    lemma_indexed(incoming);
    let i = choose|i: int| 0 <= i < current.len() && current[i] == e;
    let w = walk(feed, st, current);
    let r = reconciled(feed, incoming, current);
    lemma_walk_facts(feed, st, current);
    lemma_walk_facts(feed, st, current.take(i));
    assert(!stores(current.take(i), feed, e.id)) by {
        if stores(current.take(i), feed, e.id) {
            let k = choose|k: int| 0 <= k < current.take(i).len() && (#[trigger] current.take(i)[k]).feed == feed
                && current.take(i)[k].id == e.id;
            assert(current[k] == current.take(i)[k]);
        }
    }
    assert(has_id(walk(feed, st, current.take(i)).pending, e.id));
    lemma_walk_at(feed, st, current, i);
    let j0 = choose|j: int| 0 <= j < w.kept.len() && w.kept[j] == e;
    assert(r[j0] == e);
    assert(stores(current, feed, e.id));
    assert forall|j: int| 0 <= j < r.len() && (#[trigger] r[j]).feed == feed && r[j].id == e.id implies r[j] == e by {
        if j < w.kept.len() {
            assert(w.kept[j] == r[j]);
            let k = choose|k: int| 0 <= k < current.len() && current[k] == r[j];
            assert(k == i);
        } else {
            let p = w.pending[j - w.kept.len()];
            assert(r[j] == as_new(feed, p));
            assert(has_id(w.pending, p.id));
        }
    }
}

/// An incoming entry whose id the store lacks for this feed is added, unread.
pub proof fn lemma_new_entry_added(feed: Seq<char>, incoming: Seq<EntryView>, current: Seq<EntryView>, x: EntryView)
    requires
        incoming.contains(x),
        !stores(current, feed, x.id),
    ensures
        exists|j: int|
            0 <= j < reconciled(feed, incoming, current).len() && (#[trigger] reconciled(feed, incoming, current)[j]).feed
                == feed && reconciled(feed, incoming, current)[j].id == x.id && !reconciled(feed, incoming, current)[j].read,
{
    let st = Walk { kept: Seq::empty(), pending: indexed(incoming) };
    lemma_indexed(incoming);
    let i = choose|i: int| 0 <= i < incoming.len() && incoming[i] == x;
    assert(has_id(incoming, x.id));
    let w = walk(feed, st, current);
    let r = reconciled(feed, incoming, current);
    lemma_walk_facts(feed, st, current);
    assert(has_id(w.pending, x.id));
    let k = choose|k: int| 0 <= k < w.pending.len() && (#[trigger] w.pending[k]).id == x.id;
    assert(r[w.kept.len() + k] == as_new(feed, w.pending[k]));
}

/// Walking over what a walk kept retraces it.
proof fn lemma_walk_retrace(feed: Seq<char>, st: Walk, s: Seq<EntryView>)
    requires
        st.kept.len() == 0,
    ensures
        walk(feed, st, walk(feed, st, s).kept) == walk(feed, st, s),
    decreases s.len(),
{
    if s.len() == 0 {
        assert(walk(feed, st, st.kept) == st);
    } else {
        let q = s.drop_last();
        let e = s.last();
        lemma_walk_retrace(feed, st, q);
        let w = walk(feed, st, q);
        let w2 = walk(feed, st, s);
        if w2.kept.len() > w.kept.len() {
            assert(w2.kept.drop_last() =~= w.kept);
            assert(w2.kept.last() == e);
        } else {
            assert(w2 == w);
        }
    }
}

proof fn lemma_without_first_id(p: Seq<EntryView>, j: int)
    requires
        ids_unique(p),
        0 <= j < p.len(),
    ensures
        without_id(p.skip(j), p[j].id) == p.skip(j + 1),
{
    let pred = |x: EntryView| x.id != p[j].id;
    assert(p.skip(j) =~= seq![p[j]] + p.skip(j + 1));
    Seq::filter_distributes_over_add(seq![p[j]], p.skip(j + 1), pred);
    assert(seq![p[j]].filter(pred) =~= Seq::<EntryView>::empty()) by {
        lemma_filter_none(seq![p[j]], pred);
    }
    assert forall|k: int| 0 <= k < p.skip(j + 1).len() implies pred(#[trigger] p.skip(j + 1)[k]) by {
        assert(p.skip(j + 1)[k] == p[j + 1 + k]);
    }
    lemma_filter_all(p.skip(j + 1), pred);
    assert(Seq::<EntryView>::empty() + p.skip(j + 1) =~= p.skip(j + 1));
}

/// Walking over the entries that a walk left new matches each of them once.
proof fn lemma_walk_fresh(feed: Seq<char>, k: Seq<EntryView>, p: Seq<EntryView>, j: int)
    requires
        ids_unique(p),
        0 <= j <= p.len(),
    ensures
        walk(feed, Walk { kept: k, pending: p }, fresh(feed, p.take(j)))
            == (Walk { kept: k + fresh(feed, p.take(j)), pending: p.skip(j) }),
    decreases j,
{
    let st = Walk { kept: k, pending: p };
    if j == 0 {
        assert(fresh(feed, p.take(0)) =~= Seq::<EntryView>::empty());
        assert(k + Seq::<EntryView>::empty() =~= k);
        assert(p.skip(0) =~= p);
    } else {
        lemma_walk_fresh(feed, k, p, j - 1);
        let f = fresh(feed, p.take(j));
        assert(f.drop_last() =~= fresh(feed, p.take(j - 1)));
        assert(f.last() == as_new(feed, p[j - 1]));
        assert(p.skip(j - 1)[0] == p[j - 1]);
        assert(has_id(p.skip(j - 1), p[j - 1].id));
        lemma_without_first_id(p, j - 1);
        assert((k + fresh(feed, p.take(j - 1))).push(as_new(feed, p[j - 1])) =~= k + f);
    }
}

/// Reconciling the same incoming entries a second time changes nothing.
pub proof fn lemma_reconcile_idempotent(feed: Seq<char>, incoming: Seq<EntryView>, current: Seq<EntryView>)
    ensures
        reconciled(feed, incoming, reconciled(feed, incoming, current)) == reconciled(feed, incoming, current),
{
    let st = Walk { kept: Seq::empty(), pending: indexed(incoming) };
    lemma_indexed(incoming);
    let w = walk(feed, st, current);
    lemma_walk_facts(feed, st, current);
    let r1 = reconciled(feed, incoming, current);
    lemma_walk_concat(feed, st, w.kept, fresh(feed, w.pending));
    lemma_walk_retrace(feed, st, current);
    lemma_walk_fresh(feed, w.kept, w.pending, w.pending.len() as int);
    assert(w.pending.take(w.pending.len() as int) =~= w.pending);
    let w2 = walk(feed, st, r1);
    assert(w2.kept == r1);
    assert(w2.pending =~= Seq::<EntryView>::empty());
    assert(fresh(feed, w2.pending) =~= Seq::<EntryView>::empty());
    assert(r1 + Seq::<EntryView>::empty() =~= r1);
}

proof fn lemma_walk_keys_unique(feed: Seq<char>, st: Walk, s: Seq<EntryView>)
    requires
        st.kept.len() == 0,
        ids_unique(st.pending),
        keys_unique(s),
    ensures
        keys_unique(walk(feed, st, s).kept),
    decreases s.len(),
{
    if s.len() > 0 {
        let q = s.drop_last();
        let e = s.last();
        assert(keys_unique(q)) by {
            assert forall|i: int, j: int|
                0 <= i < q.len() && 0 <= j < q.len() && i != j && (#[trigger] q[i]).feed == (#[trigger] q[j]).feed implies q[i].id
                != q[j].id by {
                assert(q[i] == s[i] && q[j] == s[j]);
            }
        }
        lemma_walk_keys_unique(feed, st, q);
        lemma_walk_facts(feed, st, q);
        let k = walk(feed, st, q).kept;
        let k2 = walk(feed, st, s).kept;
        if k2.len() > k.len() {
            assert(k2 =~= k.push(e));
            assert forall|i: int, j: int|
                0 <= i < k2.len() && 0 <= j < k2.len() && i != j && (#[trigger] k2[i]).feed == (#[trigger] k2[j]).feed implies k2[i].id
                != k2[j].id by {
                if i < k.len() && j < k.len() {
                    assert(k2[i] == k[i] && k2[j] == k[j]);
                } else {
                    let m = if i < k.len() { i } else { j };
                    assert(k2[m] == k[m]);
                    assert(q.contains(k[m]));
                    let n = choose|n: int| 0 <= n < q.len() && q[n] == k[m];
                    assert(s[n] == q[n]);
                    assert(s[s.len() - 1] == e);
                }
            }
        }
    }
}

/// Reconciliation keeps the store's keys unique: when no two stored entries share both
/// feed and id, no two entries of the result do.
pub proof fn lemma_keys_stay_unique(feed: Seq<char>, incoming: Seq<EntryView>, current: Seq<EntryView>)
    requires
        keys_unique(current),
    ensures
        keys_unique(reconciled(feed, incoming, current)),
{
    let st = Walk { kept: Seq::empty(), pending: indexed(incoming) };
    lemma_indexed(incoming);
    lemma_walk_facts(feed, st, current);
    lemma_walk_keys_unique(feed, st, current);
    let w = walk(feed, st, current);
    let r = reconciled(feed, incoming, current);
    let n = w.kept.len();
    assert forall|i: int, j: int|
        0 <= i < r.len() && 0 <= j < r.len() && i != j && (#[trigger] r[i]).feed == (#[trigger] r[j]).feed implies r[i].id
        != r[j].id by {
        if i < n && j < n {
            assert(r[i] == w.kept[i] && r[j] == w.kept[j]);
        } else if i >= n && j >= n {
            assert(r[i] == as_new(feed, w.pending[i - n]));
            assert(r[j] == as_new(feed, w.pending[j - n]));
        } else {
            let a = if i < n { i } else { j };
            let b = if i < n { j } else { i };
            let k = w.kept[a];
            let p = w.pending[b - n];
            assert(r[a] == k);
            assert(r[b] == as_new(feed, p));
            if k.feed == feed && k.id == p.id {
                let m = choose|m: int| 0 <= m < current.len() && current[m] == k;
                assert(stores(current, feed, k.id));
                assert(has_id(w.pending, p.id));
            }
        }
    }
}

proof fn lemma_indexed_clean(s: Seq<EntryView>)
    requires
        all_clean(s),
    ensures
        all_clean(indexed(s)),
    decreases s.len(),
{
    if s.len() > 0 {
        let q = s.drop_last();
        assert(all_clean(q)) by {
            assert forall|i: int| 0 <= i < q.len() implies (#[trigger] q[i]).is_clean() by {
                assert(q[i] == s[i]);
            }
        }
        lemma_indexed_clean(q);
        assert(s[s.len() - 1].is_clean());
    }
}

proof fn lemma_walk_pending_clean(feed: Seq<char>, st: Walk, s: Seq<EntryView>)
    requires
        all_clean(st.pending),
    ensures
        all_clean(walk(feed, st, s).pending),
    decreases s.len(),
{
    if s.len() > 0 {
        let q = s.drop_last();
        let e = s.last();
        lemma_walk_pending_clean(feed, st, q);
        let p = walk(feed, st, q).pending;
        let pred = |x: EntryView| x.id != e.id;
        let f = p.filter(pred);
        assert forall|i: int| 0 <= i < f.len() implies (#[trigger] f[i]).is_clean() by {
            assert(f.contains(f[i]));
            p.lemma_filter_contains_rev(pred, f[i]);
        }
    }
}

/// Reconciling clean entries under a clean feed name gives a clean collection, which
/// fits the store's format.
pub proof fn lemma_reconcile_keeps_clean(feed: Seq<char>, incoming: Seq<EntryView>, current: Seq<EntryView>)
    requires
        is_clean(feed),
        all_clean(incoming),
        all_clean(current),
    ensures
        all_clean(reconciled(feed, incoming, current)),
{
    let st = Walk { kept: Seq::empty(), pending: indexed(incoming) };
    lemma_indexed(incoming);
    lemma_indexed_clean(incoming);
    lemma_walk_facts(feed, st, current);
    lemma_walk_pending_clean(feed, st, current);
    let w = walk(feed, st, current);
    let r = reconciled(feed, incoming, current);
    assert forall|i: int| 0 <= i < r.len() implies (#[trigger] r[i]).is_clean() by {
        if i < w.kept.len() {
            assert(r[i] == w.kept[i]);
            assert(current.contains(w.kept[i]));
        } else {
            assert(r[i] == as_new(feed, w.pending[i - w.kept.len()]));
            assert(w.pending[i - w.kept.len()].is_clean());
        }
    }
}

} // verus!
