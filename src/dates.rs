//! Publication dates: RFC 2822 dates as feeds give them, RFC 3339 as the store keeps them.

use vstd::prelude::*;
use crate::text::{is_clean, push_char};

verus! {

/// The text with each `UTC` replaced by `GMT`, left to right.
pub open spec fn utc_as_gmt(s: Seq<char>) -> Seq<char>
    decreases s.len(),
{
    if s.len() >= 3 && s[0] == 'U' && s[1] == 'T' && s[2] == 'C' {
        seq!['G', 'M', 'T'] + utc_as_gmt(s.skip(3))
    } else if s.len() == 0 {
        Seq::empty()
    } else {
        seq![s[0]] + utc_as_gmt(s.skip(1))
    }
}

/// What chrono reads from an RFC 2822 date, printed as RFC 3339; `None` where it reads nothing.
pub uninterp spec fn rfc2822_as_rfc3339(s: Seq<char>) -> Option<Seq<char>>;

/// Relies on chrono's `DateTime::parse_from_rfc2822`, its result printed by
/// `DateTime::to_rfc3339`. The result depends on the text alone; `to_rfc3339` writes
/// digits, signs and the separators `-`, `T`, `:`, `.` only.
#[verifier::external_body]
fn rfc2822_to_rfc3339(s: &str) -> (r: Option<String>)
    ensures
        match r {
            Some(t) => rfc2822_as_rfc3339(s@) == Some(t@) && is_clean(t@),
            None => rfc2822_as_rfc3339(s@) is None,
        },
{
    chrono::DateTime::parse_from_rfc2822(s).ok().map(|d| d.to_rfc3339())
}

/// Relies on chrono's `Utc::now`, printed by `DateTime::to_rfc3339`: the current
/// instant, written with digits, signs and the separators `-`, `T`, `:`, `.` only,
/// and never empty (a date and a time are always written).
#[verifier::external_body]
pub(crate) fn now_rfc3339() -> (r: String)
    ensures
        is_clean(r@),
        r@.len() > 0,
{
    chrono::Utc::now().to_rfc3339()
}

/// Replaces each `UTC` by `GMT`: some feeds write `UTC` where RFC 2822 asks for `UT` or `GMT`.
pub fn replace_utc(s: &str) -> (r: String)
    ensures
        r@ == utc_as_gmt(s@),
{
    let mut cs: Vec<char> = Vec::new();
    for c in it: s.chars()
        invariant
            it.seq() == s@,
            cs@ == s@.take(it.index() as int),
    {
        proof {
            assert(s@.take(it.index() + 1) =~= s@.take(it.index() as int).push(c));
        }
        cs.push(c);
    }
    proof {
        assert(s@.take(s@.len() as int) =~= s@);
        assert(s@.skip(0) =~= s@);
        assert(Seq::<char>::empty() + utc_as_gmt(s@) =~= utc_as_gmt(s@));
    }
    let mut out = String::new();
    let mut i: usize = 0;
    while i < cs.len()
        invariant
            cs@ == s@,
            i <= cs@.len(),
            out@ + utc_as_gmt(s@.skip(i as int)) == utc_as_gmt(s@),
        decreases cs@.len() - i,
    {
        let ghost rest = s@.skip(i as int);
        let ghost before = out@;
        if 3 <= cs.len() - i && cs[i] == 'U' && cs[i + 1] == 'T' && cs[i + 2] == 'C' {
            push_char(&mut out, 'G');
            push_char(&mut out, 'M');
            push_char(&mut out, 'T');
            proof {
                assert(rest.skip(3) =~= s@.skip(i + 3));
                assert(rest[0] == 'U' && rest[1] == 'T' && rest[2] == 'C');
                assert(out@ =~= before + seq!['G', 'M', 'T']);
                assert(out@ + utc_as_gmt(s@.skip(i + 3)) =~= before + utc_as_gmt(rest));
            }
            i = i + 3;
        } else {
            push_char(&mut out, cs[i]);
            proof {
                assert(rest.skip(1) =~= s@.skip(i + 1));
                assert(rest[0] == cs@[i as int]);
                assert(out@ + utc_as_gmt(s@.skip(i + 1)) =~= before + utc_as_gmt(rest));
            }
            i = i + 1;
        }
    }
    proof {
        assert(s@.skip(i as int) =~= Seq::<char>::empty());
        assert(out@ + Seq::<char>::empty() =~= out@);
    }
    out
}

pub open spec fn text_views(o: Option<String>) -> Option<Seq<char>> {
    match o {
        Some(s) => Some(s@),
        None => None,
    }
}

/// The timestamp an RSS item is stored with: its `pubDate` read as RFC 2822 (with
/// `UTC` read as `GMT`) and printed as RFC 3339, or `now` where it is absent or unreadable.
pub open spec fn rss_date(pub_date: Option<Seq<char>>, now: Seq<char>) -> Seq<char> {
    match pub_date {
        Some(d) => match rfc2822_as_rfc3339(utc_as_gmt(d)) {
            Some(t) => t,
            None => now,
        },
        None => now,
    }
}

/// The timestamp of an RSS item whose `pubDate` is `pub_date`, fetched at `now`.
pub fn handle_rss_pub_date(pub_date: Option<String>, now: &String) -> (r: String)
    ensures
        r@ == rss_date(text_views(pub_date), now@),
        is_clean(now@) ==> is_clean(r@),
{
    match pub_date {
        Some(d) => {
            let normalized = replace_utc(d.as_str());
            match rfc2822_to_rfc3339(normalized.as_str()) {
                Some(t) => t,
                None => now.clone(),
            }
        },
        None => now.clone(),
    }
}

} // verus!
