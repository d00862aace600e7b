//! Character diffs, computed by the `similar` crate.
use vstd::prelude::*;

verus! {

pub const EQUAL: u8 = 0;
pub const DELETE: u8 = 1;
pub const INSERT: u8 = 2;

/// The changes of `similar`'s character diff of `old` into `new` (Myers, no deadline):
/// each change is a tag (`EQUAL`, `DELETE`, `INSERT`) and the text it covers.
pub uninterp spec fn char_diff(old: Seq<char>, new: Seq<char>) -> Seq<(u8, Seq<char>)>;

#[derive(Debug)]
pub struct Change {
    pub tag: u8,
    pub value: String,
}

pub open spec fn change_views(v: Seq<Change>) -> Seq<(u8, Seq<char>)> {
    v.map_values(|c: Change| (c.tag, c.value@))
}

/// `similar::TextDiff::from_chars(old, new).iter_all_changes()`, each change converted to
/// its tag and its text. The result is named by `char_diff` and nothing more is claimed.
#[verifier::external_body]
pub(crate) fn diff_chars(old: &str, new: &str) -> (changes: Vec<Change>)
    ensures
        change_views(changes@) == char_diff(old@, new@),
        forall|i: int| 0 <= i < changes@.len() ==> #[trigger] changes@[i].tag <= INSERT,
{
    similar::TextDiff::from_chars(old, new)
        .iter_all_changes()
        .map(|change| Change {
            tag: match change.tag() {
                similar::ChangeTag::Equal => EQUAL,
                similar::ChangeTag::Delete => DELETE,
                similar::ChangeTag::Insert => INSERT,
            },
            value: change.value().to_string(),
        })
        .collect()
}

} // verus!
