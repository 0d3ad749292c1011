//! Insertion-ordered maps from strings, kept in `hashlink::LinkedHashMap`.
//!
//! Verus sees nothing inside a linked hash map. Its contents are named by
//! `translation_pairs`, the entries from front to back, and the functions
//! below state what each method of the map does to them.

use vstd::prelude::*;
use hashlink::LinkedHashMap;
use crate::text::texts;

verus! {

/// The linked hash map of `hashlink`, opaque to the verifier.
#[verifier::external_type_specification]
#[verifier::external_body]
#[verifier::reject_recursive_types(K)]
#[verifier::reject_recursive_types(V)]
#[verifier::reject_recursive_types(S)]
pub struct ExLinkedHashMap<K, V, S>(LinkedHashMap<K, V, S>);

/// The hasher that a linked hash map of `hashlink` is made with by default.
#[verifier::external_type_specification]
#[verifier::external_body]
pub struct ExDefaultHashBuilder(hashlink::DefaultHashBuilder);

/// Source strings with their translations for one language, in insertion order.
pub type Translations = LinkedHashMap<String, String>;

/// The entries of a map, front to back, each as (source, translated).
pub uninterp spec fn translation_pairs(m: Translations) -> Seq<(Seq<char>, Seq<char>)>;

/// Whether some entry has the key `k`.
pub open spec fn has_key<V>(entries: Seq<(Seq<char>, V)>, k: Seq<char>) -> bool {
    exists|i: int| 0 <= i < entries.len() && (#[trigger] entries[i]).0 == k
}

/// Whether `k` is bound to `v` by some entry.
pub open spec fn binds<V>(entries: Seq<(Seq<char>, V)>, k: Seq<char>, v: V) -> bool {
    entries.contains((k, v))
}

/// Whether `k` is bound to `v` and to nothing else.
pub open spec fn resolves_to<V>(entries: Seq<(Seq<char>, V)>, k: Seq<char>, v: V) -> bool {
    binds(entries, k, v) && forall|i: int|
        0 <= i < entries.len() && (#[trigger] entries[i]).0 == k ==> entries[i].1 == v
}

/// The value of an entry that has the key `k`: where no key stands in two
/// entries, the value of the one entry with that key.
pub open spec fn value_of<V>(entries: Seq<(Seq<char>, V)>, k: Seq<char>) -> V {
    entries[choose|i: int| 0 <= i < entries.len() && (#[trigger] entries[i]).0 == k].1
}

/// A key that is bound to one value alone has that value.
pub proof fn lemma_value_of<V>(entries: Seq<(Seq<char>, V)>, k: Seq<char>, v: V)
    requires
        resolves_to(entries, k, v),
    ensures
        has_key(entries, k),
        value_of(entries, k) == v,
{
    let n = choose|n: int| 0 <= n < entries.len() && entries[n] == (k, v);
    assert(entries[n].0 == k);
}

/// No key stands in two entries.
pub open spec fn distinct_keys<V>(entries: Seq<(Seq<char>, V)>) -> bool {
    forall|i: int, j: int|
        0 <= i < j < entries.len() ==> (#[trigger] entries[i]).0 != (#[trigger] entries[j]).0
}

/// The keys of the entries, in their order.
pub open spec fn keys_of<V>(entries: Seq<(Seq<char>, V)>) -> Seq<Seq<char>> {
    Seq::new(entries.len(), |i: int| entries[i].0)
}

/// The entries without those that have the key `k`, the others in their order.
pub open spec fn without_key<V>(entries: Seq<(Seq<char>, V)>, k: Seq<char>) -> Seq<(Seq<char>, V)>
    decreases entries.len(),
{
    if entries.len() == 0 {
        entries
    } else if entries.last().0 == k {
        without_key(entries.drop_last(), k)
    } else {
        without_key(entries.drop_last(), k).push(entries.last())
    }
}

/// The entries after (`k`, `v`) is inserted: an entry with that key leaves
/// its place, and the new entry stands at the back.
pub open spec fn inserted<V>(entries: Seq<(Seq<char>, V)>, k: Seq<char>, v: V) -> Seq<(Seq<char>, V)> {
    without_key(entries, k).push((k, v))
}

/// What is left without the key `k` is every entry with another key.
pub proof fn lemma_without_key<V>(entries: Seq<(Seq<char>, V)>, k: Seq<char>)
    ensures
        forall|e: (Seq<char>, V)| #[trigger]
            without_key(entries, k).contains(e) <==> entries.contains(e) && e.0 != k,
        !has_key(entries, k) ==> without_key(entries, k) == entries,
        distinct_keys(entries) ==> distinct_keys(without_key(entries, k)),
    decreases entries.len(),
{
    if entries.len() > 0 {
        let front = entries.drop_last();
        let last = entries.last();
        lemma_without_key(front, k);
        let w0 = without_key(front, k);
        let w = without_key(entries, k);
        assert forall|e: (Seq<char>, V)| entries.contains(e) <==> front.contains(e) || e == last by {
            if entries.contains(e) {
                let i = choose|i: int| 0 <= i < entries.len() && entries[i] == e;
                if i < front.len() {
                    assert(front[i] == e);
                }
            }
            if front.contains(e) {
                let i = choose|i: int| 0 <= i < front.len() && front[i] == e;
                assert(entries[i] == e);
            }
            assert(entries[entries.len() - 1] == last);
        }
        if last.0 != k {
            assert forall|e: (Seq<char>, V)| w.contains(e) <==> w0.contains(e) || e == last by {
                if w.contains(e) {
                    let i = choose|i: int| 0 <= i < w.len() && w[i] == e;
                    if i < w0.len() {
                        assert(w0[i] == e);
                    }
                }
                if w0.contains(e) {
                    let i = choose|i: int| 0 <= i < w0.len() && w0[i] == e;
                    assert(w[i] == e);
                }
                assert(w[w.len() - 1] == last);
            }
        }
        if !has_key(entries, k) {
            assert(entries[entries.len() - 1].0 != k);
            assert forall|i: int| 0 <= i < front.len() implies (#[trigger] front[i]).0 != k by {
                assert(entries[i].0 != k);
            }
            assert(w =~= entries);
        }
        if distinct_keys(entries) {
            assert forall|i: int, j: int| 0 <= i < j < front.len() implies (#[trigger] front[i]).0
                != (#[trigger] front[j]).0 by {
                assert(entries[i].0 != entries[j].0);
            }
            if last.0 != k {
                assert forall|i: int, j: int| 0 <= i < j < w.len() implies (#[trigger] w[i]).0
                    != (#[trigger] w[j]).0 by {
                    if j == w0.len() {
                        assert(w0.contains(w0[i]));
                        let e = w0[i];
                        let n = choose|n: int| 0 <= n < front.len() && front[n] == e;
                        assert(entries[n].0 != entries[entries.len() - 1].0);
                    } else {
                        assert(w0[i].0 != w0[j].0);
                    }
                }
            }
        }
    }
}

/// After an insertion the key is bound to the new value alone, and every
/// other key to what it was bound to before.
pub proof fn lemma_inserted<V>(entries: Seq<(Seq<char>, V)>, k: Seq<char>, v: V)
    ensures
        forall|k2: Seq<char>, v2: V| #[trigger]
            binds(inserted(entries, k, v), k2, v2) <==> (k2 == k && v2 == v) || (k2 != k && binds(
                entries,
                k2,
                v2,
            )),
        forall|k2: Seq<char>| #[trigger]
            has_key(inserted(entries, k, v), k2) <==> k2 == k || has_key(entries, k2),
        distinct_keys(entries) ==> distinct_keys(inserted(entries, k, v)),
        !has_key(entries, k) ==> inserted(entries, k, v) == entries.push((k, v)),
{
    lemma_without_key(entries, k);
    let w = without_key(entries, k);
    let r = inserted(entries, k, v);
    assert forall|e: (Seq<char>, V)| r.contains(e) <==> w.contains(e) || e == (k, v) by {
        if r.contains(e) {
            let i = choose|i: int| 0 <= i < r.len() && r[i] == e;
            if i < w.len() {
                assert(w[i] == e);
            }
        }
        if w.contains(e) {
            let i = choose|i: int| 0 <= i < w.len() && w[i] == e;
            assert(r[i] == e);
        }
        assert(r[r.len() - 1] == (k, v));
    }
    assert forall|k2: Seq<char>| #[trigger] has_key(r, k2) <==> k2 == k || has_key(entries, k2) by {
        if has_key(r, k2) {
            let i = choose|i: int| 0 <= i < r.len() && (#[trigger] r[i]).0 == k2;
            assert(r.contains(r[i]));
            if r[i] != (k, v) {
                let e = r[i];
                assert(entries.contains(e));
                let n = choose|n: int| 0 <= n < entries.len() && entries[n] == e;
                assert(entries[n].0 == k2);
            }
        }
        if has_key(entries, k2) && k2 != k {
            let n = choose|n: int| 0 <= n < entries.len() && (#[trigger] entries[n]).0 == k2;
            assert(entries.contains(entries[n]));
            assert(r.contains(entries[n]));
            let e = entries[n];
            let i = choose|i: int| 0 <= i < r.len() && r[i] == e;
            assert(r[i].0 == k2);
        }
        assert(r[r.len() - 1].0 == k);
    }
    if distinct_keys(entries) {
        assert forall|i: int, j: int| 0 <= i < j < r.len() implies (#[trigger] r[i]).0
            != (#[trigger] r[j]).0 by {
            if j == w.len() {
                assert(w.contains(w[i]));
            } else {
                assert(w[i].0 != w[j].0);
            }
        }
    }
}

/// `LinkedHashMap::new`: a map without entries.
#[verifier::external_body]
pub(crate) fn translations_new() -> (m: Translations)
    ensures
        translation_pairs(m) == Seq::<(Seq<char>, Seq<char>)>::empty(),
{
    LinkedHashMap::new()
}

/// `LinkedHashMap::insert`: the pair goes to the back of the map; an entry
/// that had the key is taken out of its place.
#[verifier::external_body]
pub(crate) fn translations_insert(m: &mut Translations, k: String, v: String)
    ensures
        translation_pairs(*final(m)) == inserted(translation_pairs(*old(m)), k@, v@),
{
    m.insert(k, v);
}

/// `LinkedHashMap::get`: the value of the entry with the key `k`, if there is
/// one; a map holds at most one entry for a key.
#[verifier::external_body]
pub(crate) fn translations_get<'a>(m: &'a Translations, k: &String) -> (res: Option<&'a String>)
    ensures
        match res {
            Some(v) => resolves_to(translation_pairs(*m), k@, v@),
            None => !has_key(translation_pairs(*m), k@),
        },
{
    m.get(k)
}

/// Per language, the translations of the source strings, in insertion order.
pub type Localizations = LinkedHashMap<String, Translations>;

/// The entries of a map, front to back, each as (language, translations).
pub uninterp spec fn localization_pairs(m: Localizations) -> Seq<(Seq<char>, Seq<(Seq<char>, Seq<char>)>)>;

/// `LinkedHashMap::new`: a map without entries.
#[verifier::external_body]
pub(crate) fn localizations_new() -> (m: Localizations)
    ensures
        localization_pairs(m) == Seq::<(Seq<char>, Seq<(Seq<char>, Seq<char>)>)>::empty(),
{
    LinkedHashMap::new()
}

/// `LinkedHashMap::insert`: the pair goes to the back of the map; an entry
/// that had the key is taken out of its place.
#[verifier::external_body]
pub(crate) fn localizations_insert(m: &mut Localizations, k: String, v: Translations)
    ensures
        localization_pairs(*final(m)) == inserted(localization_pairs(*old(m)), k@, translation_pairs(v)),
{
    m.insert(k, v);
}

/// `LinkedHashMap::get`: the value of the entry with the key `k`, if there is
/// one; a map holds at most one entry for a key.
#[verifier::external_body]
pub(crate) fn localizations_get<'a>(m: &'a Localizations, k: &String) -> (res: Option<&'a Translations>)
    ensures
        match res {
            Some(v) => resolves_to(localization_pairs(*m), k@, translation_pairs(*v)),
            None => !has_key(localization_pairs(*m), k@),
        },
{
    m.get(k)
}

/// `LinkedHashMap::keys`: the keys of the entries, front to back.
#[verifier::external_body]
pub(crate) fn localizations_keys(m: &Localizations) -> (res: Vec<String>)
    ensures
        texts(res@) == keys_of(localization_pairs(*m)),
{
    m.keys().cloned().collect()
}

} // verus!
