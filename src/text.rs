//! Character-level helpers: control-character stripping and small string utilities.

use vstd::prelude::*;
use vstd::string::*;

verus! {

/// A character of the Unicode general category `Cc` (C0 and C1 control codes, and DEL).
pub open spec fn is_control_char(c: char) -> bool {
    (c as u32) <= 0x1f || (0x7f <= (c as u32) && (c as u32) <= 0x9f)
}

/// Text free of control characters: safe for the tab/newline-delimited store format.
pub open spec fn is_clean(s: Seq<char>) -> bool {
    forall|i: int| 0 <= i < s.len() ==> !is_control_char(#[trigger] s[i])
}

/// The text with every control character removed, the others kept in order.
pub open spec fn stripped(s: Seq<char>) -> Seq<char> {
    s.filter(|c: char| !is_control_char(c))
}

/// Whether `c` is a control character (general category `Cc`).
pub fn is_control(c: char) -> (r: bool)
    ensures
        r == is_control_char(c),
{
    let v = c as u32;
    v <= 0x1f || (0x7f <= v && v <= 0x9f)
}

/// Relies on `String::push`: appends one character.
#[verifier::external_body]
pub(crate) fn push_char(s: &mut String, c: char)
    ensures
        final(s)@ == old(s)@.push(c),
{
    s.push(c)
}

/// Removes every control character from `data`, character by character.
pub fn sanitize(data: String) -> (r: String)
    ensures
        r@ == stripped(data@),
        is_clean(r@),
{
    let mut out = String::new();
    for c in it: data.as_str().chars()
        invariant
            it.seq() == data@,
            out@ == stripped(data@.take(it.index() as int)),
    {
        proof {
            let k = it.index() as int;
            assert(data@.take(k + 1) =~= data@.take(k).push(c));
            data@.take(k).lemma_filter_push(c, |c: char| !is_control_char(c));
        }
        if !is_control(c) {
            push_char(&mut out, c);
        }
    }
    proof {
        assert(data@.take(data@.len() as int) =~= data@);
    }
    out
}

/// Whether `s` holds exactly the text `lit`.
pub fn text_is(s: &String, lit: &str) -> (r: bool)
    ensures
        r == (s@ == lit@),
{
    let l = String::from_str(lit);
    *s == l
}

} // verus!
