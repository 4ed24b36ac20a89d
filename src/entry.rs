//! The normalized feed item that the store holds, and its mathematical model.

use vstd::prelude::*;
use crate::text::is_clean;

verus! {

/// One feed item: identity, display fields and the user's read flag.
#[derive(Clone, Debug, PartialEq, Eq)]
pub struct Entry {
    pub feed: String,
    pub id: String,
    pub title: String,
    pub updated: String,
    pub link: String,
    pub read: bool,
}

/// The model of an [`Entry`]: its text fields as character sequences.
pub struct EntryView {
    pub feed: Seq<char>,
    pub id: Seq<char>,
    pub title: Seq<char>,
    pub updated: Seq<char>,
    pub link: Seq<char>,
    pub read: bool,
}

impl View for Entry {
    type V = EntryView;

    open spec fn view(&self) -> EntryView {
        EntryView {
            feed: self.feed@,
            id: self.id@,
            title: self.title@,
            updated: self.updated@,
            link: self.link@,
            read: self.read,
        }
    }
}

impl EntryView {
    /// Every text field is free of control characters, so the record codec
    /// can delimit fields by tab and records by newline.
    pub open spec fn is_clean(self) -> bool {
        &&& is_clean(self.feed)
        &&& is_clean(self.id)
        &&& is_clean(self.title)
        &&& is_clean(self.updated)
        &&& is_clean(self.link)
    }
}

/// The models of a sequence of entries.
pub open spec fn views(s: Seq<Entry>) -> Seq<EntryView> {
    s.map_values(|e: Entry| e@)
}

/// Every entry of the collection is clean.
pub open spec fn all_clean(s: Seq<EntryView>) -> bool {
    forall|i: int| 0 <= i < s.len() ==> (#[trigger] s[i]).is_clean()
}

/// No two entries share both feed and id.
pub open spec fn keys_unique(s: Seq<EntryView>) -> bool {
    forall|i: int, j: int|
        0 <= i < s.len() && 0 <= j < s.len() && i != j && (#[trigger] s[i]).feed == (
        #[trigger] s[j]).feed ==> s[i].id != s[j].id
}

} // verus!
