//! JSON values as plain data, for the rules that read model output and settings.
use vstd::prelude::*;
use crate::text::str_eq;

verus! {

/// A JSON value. A number is kept as what the rules read of it: its value when it is a
/// non-negative integer that fits 64 bits, nothing otherwise.
#[derive(Debug, PartialEq)]
pub enum Json {
    Null,
    Bool(bool),
    Number(Option<u64>),
    Str(String),
    Array(Vec<Json>),
    Object(Vec<(String, Json)>),
}

/// The first member of `entries` named `key`.
pub open spec fn member(entries: Seq<(String, Json)>, key: Seq<char>) -> Option<Json>
    decreases entries.len(),
{
    if entries.len() == 0 {
        None
    } else if entries[0].0@ == key {
        Some(entries[0].1)
    } else {
        member(entries.drop_first(), key)
    }
}

/// The member named `key`, looked up as `serde_json::Map::get` does on an object with
/// distinct member names.
pub fn get_member<'a>(entries: &'a Vec<(String, Json)>, key: &str) -> (r: Option<&'a Json>)
    ensures
        match member(entries@, key@) {
            Some(v) => r matches Some(x) && *x == v,
            None => r is None,
        },
{
    let mut i: usize = 0;
    assert(entries@.skip(0) =~= entries@);
    while i < entries.len()
        invariant
            i <= entries@.len(),
            member(entries@, key@) == member(entries@.skip(i as int), key@),
        decreases entries@.len() - i,
    {
        proof {
            assert(entries@.skip(i as int)[0] == entries@[i as int]);
            assert(entries@.skip(i as int).drop_first() =~= entries@.skip(i + 1));
        }
        if str_eq(entries[i].0.as_str(), key) {
            return Some(&entries[i].1);
        }
        i += 1;
    }
    None
}

/// The text of the member named `key`, when that member is a string.
pub open spec fn member_text(entries: Seq<(String, Json)>, key: Seq<char>) -> Option<Seq<char>> {
    match member(entries, key) {
        Some(Json::Str(s)) => Some(s@),
        _ => None,
    }
}

pub proof fn lemma_member_push(s: Seq<(String, Json)>, x: (String, Json), k: Seq<char>)
    ensures
        member(s.push(x), k) == (match member(s, k) {
            Some(v) => Some(v),
            None => if x.0@ == k { Some(x.1) } else { None },
        }),
    decreases s.len(),
{
    if s.len() == 0 {
        assert(s.push(x).drop_first() =~= s);
    } else {
        assert(s.push(x).drop_first() =~= s.drop_first().push(x));
        assert(s.push(x)[0] == s[0]);
        lemma_member_push(s.drop_first(), x, k);
    }
}

/// The members with `key` set to `value`, as `serde_json::Map::insert` leaves an
/// object: every other member keeps its value.
pub fn set_member(members: Vec<(String, Json)>, key: String, value: Json) -> (r: Vec<(String, Json)>)
    ensures
        member(r@, key@) == Some(value),
        forall|k: Seq<char>| k != key@ ==> #[trigger] member(r@, k) == member(members@, k),
{
    let ghost orig = members@;
    let mut rest = members;
    let mut out: Vec<(String, Json)> = Vec::new();
    let ghost mut i: int = 0;
    while rest.len() > 0
        invariant
            0 <= i <= orig.len(),
            rest@ == orig.skip(i),
            member(out@, key@) is None,
            forall|k: Seq<char>| k != key@ ==> #[trigger] member(out@, k) == member(orig.take(i), k),
        decreases rest@.len(),
    {
        let ghost rest0 = rest@;
        let e = rest.remove(0);
        proof {
            assert(rest0[0] == orig[i]);
            assert(rest@ =~= orig.skip(i + 1));
            assert(orig.take(i + 1) =~= orig.take(i).push(e));
        }
        if str_eq(e.0.as_str(), key.as_str()) {
            proof {
                assert forall|k: Seq<char>| k != key@ implies #[trigger] member(out@, k) == member(orig.take(i + 1), k) by {
                    lemma_member_push(orig.take(i), e, k);
                }
            }
        } else {
            let ghost before = out@;
            out.push(e);
            proof {
                lemma_member_push(before, e, key@);
                assert forall|k: Seq<char>| k != key@ implies #[trigger] member(out@, k) == member(orig.take(i + 1), k) by {
                    lemma_member_push(before, e, k);
                    lemma_member_push(orig.take(i), e, k);
                }
            }
        }
        proof { i = i + 1; }
    }
    let ghost before = out@;
    let ghost kv = key@;
    out.push((key, value));
    proof {
        assert(orig.take(i) =~= orig);
        lemma_member_push(before, (out@.last().0, value), kv);
        assert forall|k: Seq<char>| k != kv implies #[trigger] member(out@, k) == member(orig, k) by {
            lemma_member_push(before, out@.last(), k);
        }
    }
    out
}

} // verus!
