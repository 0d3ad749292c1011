//! What the provider's answers hold, read as plain values: the language of a
//! detection and the strings of a translated batch.

use vstd::prelude::*;
use crate::text::texts;

verus! {

/// The code of the first detected language; the empty string where the
/// answer names no language or the first one has no code.
pub open spec fn first_code(languages: Option<Vec<Option<String>>>) -> Seq<char> {
    match languages {
        Some(found) => if found@.len() > 0 && found@[0] is Some {
            found@[0]->Some_0@
        } else {
            Seq::empty()
        },
        None => Seq::empty(),
    }
}

/// The language that a detection answered: the code of the first language
/// of the answer, empty where there is none.
pub fn first_language(languages: Option<Vec<Option<String>>>) -> (code: String)
    ensures
        code@ == first_code(languages),
{
    match &languages {
        Some(found) => {
            if found.len() > 0 {
                match &found[0] {
                    Some(code) => code.clone(),
                    None => String::new(),
                }
            } else {
                String::new()
            }
        },
        None => String::new(),
    }
}

/// Whether every translation of an answer carries its text.
pub open spec fn all_texts_present(translations: Seq<Option<String>>) -> bool {
    forall|i: int| 0 <= i < translations.len() ==> (#[trigger] translations[i]) is Some
}

/// The strings that an answer holds, in its order. An answer without
/// translations holds no strings; one in which a translation lacks its text
/// holds nothing that can be used.
pub open spec fn answer_texts(translations: Option<Vec<Option<String>>>) -> Option<Seq<Seq<char>>> {
    match translations {
        None => Some(Seq::empty()),
        Some(given) => if all_texts_present(given@) {
            Some(Seq::new(given@.len(), |i: int| given@[i]->Some_0@))
        } else {
            None
        },
    }
}

/// The strings of an optional list.
pub open spec fn texts_of(list: Option<Vec<String>>) -> Option<Seq<Seq<char>>> {
    match list {
        Some(v) => Some(texts(v@)),
        None => None,
    }
}

/// The strings of a translated batch, in the order of the answer; nothing
/// where a translation lacks its text.
pub fn translated_texts(translations: Option<Vec<Option<String>>>) -> (res: Option<Vec<String>>)
    ensures
        texts_of(res) == answer_texts(translations),
{
    let mut out: Vec<String> = Vec::new();
    if let Some(given) = &translations {
        let mut i: usize = 0;
        while i < given.len()
            invariant
                i <= given.len(),
                out.len() == i,
                translations == Some(*given),
                forall|j: int| 0 <= j < i ==> (#[trigger] given@[j]) is Some,
                forall|j: int| 0 <= j < i ==> (#[trigger] out@[j])@ == given@[j]->Some_0@,
            decreases given.len() - i,
        {
            match &given[i] {
                Some(text) => {
                    out.push(text.clone());
                },
                None => {
                    assert(given@[i as int] is None);
                    assert(!all_texts_present(given@));
                    return None;
                },
            }
            i += 1;
        }
    }
    proof {
        match translations {
            Some(given) => {
                assert(texts(out@) =~= Seq::new(given@.len(), |i: int| given@[i]->Some_0@));
            },
            None => {
                assert(texts(out@) =~= Seq::<Seq<char>>::empty());
            },
        }
    }
    Some(out)
}

} // verus!
