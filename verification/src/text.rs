//! Lists of strings and their mathematical views.

use vstd::prelude::*;

verus! {

/// The strings of a list as sequences of characters, in the list's order.
pub open spec fn texts(v: Seq<String>) -> Seq<Seq<char>> {
    Seq::new(v.len(), |i: int| v[i]@)
}

/// The key of a metadata entry starts with this character.
pub const METADATA_PREFIX: char = '@';

/// Whether a key starts with the metadata prefix.
pub open spec fn is_metadata(key: Seq<char>) -> bool {
    key.len() > 0 && key[0] == METADATA_PREFIX
}

/// Whether `key` names a metadata entry, which no language translates.
pub fn is_metadata_key(key: &str) -> (res: bool)
    ensures
        res == is_metadata(key@),
{
    if key.is_empty() {
        false
    } else {
        key.get_char(0) == METADATA_PREFIX
    }
}

/// Whether `s` occurs in `v`.
pub fn contains_text(v: &Vec<String>, s: &String) -> (res: bool)
    ensures
        res == texts(v@).contains(s@),
{
    let mut i: usize = 0;
    while i < v.len()
        invariant
            i <= v.len(),
            forall|j: int| 0 <= j < i ==> texts(v@)[j] != s@,
        decreases v.len() - i,
    {
        if v[i] == *s {
            assert(texts(v@)[i as int] == s@);
            return true;
        }
        i += 1;
    }
    false
}

/// A copy of a list of strings.
pub fn clone_texts(v: &Vec<String>) -> (res: Vec<String>)
    ensures
        texts(res@) == texts(v@),
{
    let mut out: Vec<String> = Vec::new();
    let mut i: usize = 0;
    while i < v.len()
        invariant
            i <= v.len(),
            out.len() == i,
            forall|j: int| 0 <= j < i ==> out@[j]@ == v@[j]@,
        decreases v.len() - i,
    {
        out.push(v[i].clone());
        i += 1;
    }
    assert(texts(out@) =~= texts(v@));
    out
}

} // verus!
