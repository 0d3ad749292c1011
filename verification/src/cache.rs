//! The translation cache: a write-once memo from (language, source string)
//! to the translated string, and the partition of a batch of source strings
//! into those the cache resolves and those that still need translation.

use vstd::prelude::*;
use crate::ordered::{Translations, translation_pairs, has_key, binds, distinct_keys, lemma_inserted,
    translations_new,
    translations_insert, translations_get};
use crate::text::{texts, contains_text};

verus! {

/// One cached translation.
pub struct CacheEntry {
    pub lang: String,
    pub source: String,
    pub translated: String,
}

/// A cached translation as plain values: language, source string, translation.
pub type Record = (Seq<char>, Seq<char>, Seq<char>);

/// The translation that `records` hold for (`lang`, `source`); the empty
/// string where they hold none. An empty translation counts as none.
pub open spec fn lookup_in(records: Seq<Record>, lang: Seq<char>, source: Seq<char>) -> Seq<char>
    decreases records.len(),
{
    if records.len() == 0 {
        Seq::empty()
    } else {
        let r = records.last();
        if r.0 == lang && r.1 == source && r.2.len() > 0 {
            r.2
        } else {
            lookup_in(records.drop_last(), lang, source)
        }
    }
}

/// The strings of `sources` that `records` do not resolve for `lang`, each
/// once, in the order of their first appearance.
pub open spec fn still_needed(records: Seq<Record>, lang: Seq<char>, sources: Seq<Seq<char>>) -> Seq<Seq<char>>
    decreases sources.len(),
{
    if sources.len() == 0 {
        Seq::empty()
    } else {
        let rest = still_needed(records, lang, sources.drop_last());
        let s = sources.last();
        if lookup_in(records, lang, s).len() == 0 && !rest.contains(s) {
            rest.push(s)
        } else {
            rest
        }
    }
}

/// The strings of `sources` that `records` resolve for `lang`, each once with
/// its translation, in the order of their first appearance.
pub open spec fn resolved(records: Seq<Record>, lang: Seq<char>, sources: Seq<Seq<char>>) -> Seq<(Seq<char>, Seq<char>)>
    decreases sources.len(),
{
    if sources.len() == 0 {
        Seq::empty()
    } else {
        let rest = resolved(records, lang, sources.drop_last());
        let s = sources.last();
        if lookup_in(records, lang, s).len() > 0 && !has_key(rest, s) {
            rest.push((s, lookup_in(records, lang, s)))
        } else {
            rest
        }
    }
}

/// The records after a store of `value` for (`lang`, `source`): nothing
/// changes where a translation is held already.
pub open spec fn stored(records: Seq<Record>, lang: Seq<char>, source: Seq<char>, value: Seq<char>) -> Seq<Record> {
    if lookup_in(records, lang, source).len() == 0 && value.len() > 0 {
        records.push((lang, source, value))
    } else {
        records
    }
}

/// What the partition holds: a string is still needed exactly if it is a
/// source string without a cached translation, and resolved exactly if it is
/// one with a cached translation, to which it is then bound. No string stands
/// twice in either part.
pub proof fn lemma_partition_parts(records: Seq<Record>, lang: Seq<char>, sources: Seq<Seq<char>>)
    ensures
        forall|s: Seq<char>| #[trigger]
            still_needed(records, lang, sources).contains(s) <==> sources.contains(s) && lookup_in(
                records,
                lang,
                s,
            ).len() == 0,
        forall|s: Seq<char>| #[trigger]
            has_key(resolved(records, lang, sources), s) <==> sources.contains(s) && lookup_in(
                records,
                lang,
                s,
            ).len() > 0,
        forall|s: Seq<char>, v: Seq<char>| #[trigger]
            binds(resolved(records, lang, sources), s, v) ==> v == lookup_in(records, lang, s),
        still_needed(records, lang, sources).no_duplicates(),
        distinct_keys(resolved(records, lang, sources)),
    decreases sources.len(),
{
    if sources.len() > 0 {
        let front = sources.drop_last();
        let last = sources.last();
        lemma_partition_parts(records, lang, front);
        let need0 = still_needed(records, lang, front);
        let need = still_needed(records, lang, sources);
        let res0 = resolved(records, lang, front);
        let res = resolved(records, lang, sources);
        let held = lookup_in(records, lang, last);
        assert forall|s: Seq<char>| sources.contains(s) <==> front.contains(s) || s == last by {
            if sources.contains(s) {
                let i = choose|i: int| 0 <= i < sources.len() && sources[i] == s;
                if i < sources.len() - 1 {
                    assert(front[i] == s);
                }
            }
            if front.contains(s) {
                let i = choose|i: int| 0 <= i < front.len() && front[i] == s;
                assert(sources[i] == s);
            }
            if s == last {
                assert(sources[sources.len() - 1] == s);
            }
        }
        assert forall|s: Seq<char>| need.contains(s) <==> need0.contains(s) || (s == last
            && held.len() == 0) by {
            if need != need0 {
                assert(need == need0.push(last));
                if need.contains(s) {
                    let i = choose|i: int| 0 <= i < need.len() && need[i] == s;
                    if i < need0.len() {
                        assert(need0[i] == s);
                    }
                }
                if need0.contains(s) {
                    let i = choose|i: int| 0 <= i < need0.len() && need0[i] == s;
                    assert(need[i] == s);
                }
                assert(need[need.len() - 1] == last);
            }
        }
        assert forall|s: Seq<char>| has_key(res, s) <==> has_key(res0, s) || (s == last
            && held.len() > 0) by {
            if res != res0 {
                assert(res == res0.push((last, held)));
                if has_key(res, s) {
                    let i = choose|i: int| 0 <= i < res.len() && (#[trigger] res[i]).0 == s;
                    if i < res0.len() {
                        assert(res0[i].0 == s);
                    }
                }
                if has_key(res0, s) {
                    let i = choose|i: int| 0 <= i < res0.len() && (#[trigger] res0[i]).0 == s;
                    assert(res[i].0 == s);
                }
                assert(res[res.len() - 1].0 == last);
            }
        }
        assert forall|s: Seq<char>, v: Seq<char>| #[trigger] binds(res, s, v) implies v
            == lookup_in(records, lang, s) by {
            let i = choose|i: int| 0 <= i < res.len() && #[trigger] res[i] == (s, v);
            if i < res0.len() {
                assert(res0[i] == (s, v));
                assert(binds(res0, s, v));
            }
        }
        assert(distinct_keys(res)) by {
            if res != res0 {
                assert forall|i: int, j: int| 0 <= i < j < res.len() implies (#[trigger] res[i]).0
                    != (#[trigger] res[j]).0 by {
                    if j == res0.len() {
                        assert(res0[i].0 == res[i].0);
                    } else {
                        assert(res0[i].0 != res0[j].0);
                    }
                }
            }
        }
        assert(need.no_duplicates()) by {
            if need != need0 {
                assert forall|i: int, j: int| 0 <= i < need.len() && 0 <= j < need.len() && i
                    != j implies need[i] != need[j] by {
                    if i < need0.len() && j < need0.len() {
                        assert(need0[i] != need0[j]);
                    } else if i < need0.len() {
                        assert(need0[i] == need[i]);
                    } else {
                        assert(need0[j] == need[j]);
                    }
                }
            }
        }
    }
}

/// The partition law: the strings still needed and the strings resolved make
/// up the source strings between them, and no string is in both parts.
pub proof fn lemma_partition_covers(records: Seq<Record>, lang: Seq<char>, sources: Seq<Seq<char>>)
    ensures
        forall|s: Seq<char>| #[trigger]
            sources.contains(s) <==> still_needed(records, lang, sources).contains(s) || has_key(
                resolved(records, lang, sources),
                s,
            ),
        forall|s: Seq<char>|
            !(#[trigger] still_needed(records, lang, sources).contains(s) && has_key(
                resolved(records, lang, sources),
                s,
            )),
{
    lemma_partition_parts(records, lang, sources);
}

/// The write-once translation cache.
pub struct Cache {
    entries: Vec<CacheEntry>,
}

impl View for Cache {
    type V = Seq<Record>;

    /// The records in the order in which they were written.
    closed spec fn view(&self) -> Seq<Record> {
        Seq::new(
            self.entries@.len(),
            |i: int| (self.entries@[i].lang@, self.entries@[i].source@, self.entries@[i].translated@),
        )
    }
}

impl Cache {
    /// The cached translation of `source` for `lang`, empty where there is none.
    pub open spec fn translation(&self, lang: Seq<char>, source: Seq<char>) -> Seq<char> {
        lookup_in(self@, lang, source)
    }

    /// A cache that holds nothing.
    pub fn new() -> (c: Cache)
        ensures
            c@ == Seq::<Record>::empty(),
    {
        let c = Cache { entries: Vec::new() };
        assert(c@ =~= Seq::<Record>::empty());
        c
    }

    /// The number of records written so far.
    pub fn len(&self) -> (n: usize)
        ensures
            n == self@.len(),
    {
        self.entries.len()
    }

    /// The record written as number `i`.
    pub fn entry(&self, i: usize) -> (e: &CacheEntry)
        requires
            i < self@.len(),
        ensures
            (e.lang@, e.source@, e.translated@) == self@[i as int],
    {
        &self.entries[i]
    }

    /// Looks up the translation of `key` for `lang`. The empty string says
    /// that the cache holds none.
    pub fn find_cache_content(&self, key: &str, lang: &str) -> (res: String)
        ensures
            res@ == self.translation(lang@, key@),
    {
        let wanted = key.to_owned();
        let language = lang.to_owned();
        let mut i: usize = self.entries.len();
        assert(self@.take(i as int) =~= self@);
        while i > 0
            invariant
                i <= self.entries@.len(),
                self@.len() == self.entries@.len(),
                wanted@ == key@,
                language@ == lang@,
                lookup_in(self@, lang@, key@) == lookup_in(self@.take(i as int), lang@, key@),
            decreases i,
        {
            let e = &self.entries[i - 1];
            proof {
                let t = self@.take(i as int);
                assert(t.last() == self@[i - 1]);
                assert(self@[i - 1] == (e.lang@, e.source@, e.translated@));
                assert(t.drop_last() =~= self@.take(i - 1));
            }
            if e.lang == language && e.source == wanted && !e.translated.as_str().is_empty() {
                return e.translated.clone();
            }
            i -= 1;
        }
        String::new()
    }

    /// Stores `value` as the translation of `key` for `lang`, unless the
    /// cache holds one already: the first write wins.
    pub fn add_to_cache(&mut self, key: &str, lang: &str, value: &str)
        ensures
            final(self)@ == stored(old(self)@, lang@, key@, value@),
            forall|l: Seq<char>, s: Seq<char>| #[trigger] final(self).translation(l, s)
                == if l == lang@ && s == key@ && old(self).translation(l, s).len() == 0 {
                    value@
                } else {
                    old(self).translation(l, s)
                },
    {
        let found = self.find_cache_content(key, lang);
        if !found.as_str().is_empty() || value.is_empty() {
            return ;
        }
        let ghost before = self@;
        self.entries.push(
            CacheEntry { lang: lang.to_owned(), source: key.to_owned(), translated: value.to_owned() },
        );
        proof {
            let after = self@;
            assert(after =~= before.push((lang@, key@, value@)));
            assert(after.last() == (lang@, key@, value@));
            assert(after.drop_last() =~= before);
        }
    }

    /// Splits `keys` into the strings that still need translation for `lang`
    /// and the strings that the cache resolves, with their translations.
    pub fn get_untranslated_translated(&self, lang: &str, keys: Vec<String>) -> (res: (Vec<String>, Translations))
        ensures
            texts(res.0@) == still_needed(self@, lang@, texts(keys@)),
            translation_pairs(res.1) == resolved(self@, lang@, texts(keys@)),
    {
        let mut untranslated: Vec<String> = Vec::new();
        let mut translated: Translations = translations_new();
        let ghost all = texts(keys@);
        let mut i: usize = 0;
        assert(all.take(0) =~= Seq::<Seq<char>>::empty());
        assert(texts(untranslated@) =~= Seq::<Seq<char>>::empty());
        while i < keys.len()
            invariant
                i <= keys.len(),
                all == texts(keys@),
                texts(untranslated@) == still_needed(self@, lang@, all.take(i as int)),
                translation_pairs(translated) == resolved(self@, lang@, all.take(i as int)),
            decreases keys.len() - i,
        {
            let k = keys[i].clone();
            let found = self.find_cache_content(k.as_str(), lang);
            proof {
                let t = all.take(i + 1);
                assert(t.last() == k@);
                assert(t.drop_last() =~= all.take(i as int));
            }
            if found.as_str().is_empty() {
                if !contains_text(&untranslated, &k) {
                    let ghost before = texts(untranslated@);
                    untranslated.push(k);
                    assert(texts(untranslated@) =~= before.push(k@));
                }
            } else {
                let held = translations_get(&translated, &k);
                proof {
                    let pairs = translation_pairs(translated);
                    lemma_inserted(pairs, k@, found@);
                    if let Some(v) = held {
                        let n = choose|n: int| 0 <= n < pairs.len() && pairs[n] == (k@, v@);
                        assert(pairs[n].0 == k@);
                    }
                }
                if held.is_none() {
                    translations_insert(&mut translated, k, found);
                }
            }
            i += 1;
        }
        assert(all.take(keys.len() as int) =~= all);
        (untranslated, translated)
    }
}

} // verus!
