//! What holds of every run: a language that the cache resolves asks nothing
//! of the provider, a detected language that is the target passes the strings
//! through, and a second run finds in the cache what the first one stored.

use vstd::prelude::*;
use crate::cache::{Record, lookup_in, still_needed, resolved, stored, lemma_partition_parts};
use crate::ordered::{has_key, binds, distinct_keys, inserted, lemma_inserted};
use crate::orchestrator::{RunView, EventView, ActionView, Phase, advance, completed, expects, initial,
    step_spec, merged, stored_all};

verus! {

/// Whether `needed` holds `k` at a position at which `result` holds `t`.
pub open spec fn paired(needed: Seq<Seq<char>>, result: Seq<Seq<char>>, k: Seq<char>, t: Seq<char>) -> bool {
    exists|i: int| 0 <= i < needed.len() && i < result.len() && #[trigger] needed[i] == k && result[i] == t
}

/// A key that some entry has is bound to the value of that entry, and a key
/// that is bound is the key of an entry.
pub proof fn lemma_bound_keys(entries: Seq<(Seq<char>, Seq<char>)>, k: Seq<char>)
    ensures
        has_key(entries, k) <==> exists|v: Seq<char>| binds(entries, k, v),
{
    if has_key(entries, k) {
        let i = choose|i: int| 0 <= i < entries.len() && (#[trigger] entries[i]).0 == k;
        assert(entries[i] == (k, entries[i].1));
        assert(binds(entries, k, entries[i].1));
    }
    if exists|v: Seq<char>| binds(entries, k, v) {
        let v = choose|v: Seq<char>| binds(entries, k, v);
        let i = choose|i: int| 0 <= i < entries.len() && entries[i] == (k, v);
        assert(entries[i].0 == k);
    }
}

/// While the cache resolves every source string for every language that is
/// left, the run finishes without a request to the provider.
pub proof fn lemma_resolved_run_asks_nothing(v: RunView, records: Seq<Record>)
    requires
        forall|j: int|
            v.position <= j < v.langs.len() ==> still_needed(records, #[trigger] v.langs[j], v.words).len()
                == 0,
    ensures
        advance(v, records).1 == ActionView::Finish,
        advance(v, records).0.phase == Phase::Finished,
        advance(v, records).0.position == if v.position <= v.langs.len() {
            v.langs.len()
        } else {
            v.position
        },
    decreases v.langs.len() - v.position,
{
    if v.position < v.langs.len() {
        let lang = v.langs[v.position as int];
        let next = RunView {
            position: v.position + 1,
            output: inserted(v.output, lang, resolved(records, lang, v.words)),
            ..v
        };
        lemma_resolved_run_asks_nothing(next, records);
    }
}

/// Whatever the cache holds, going on to the next language asks for a
/// detection or finishes: a batch is sent for translation only in answer to a
/// detected language.
pub proof fn lemma_advance_detects_or_finishes(v: RunView, records: Seq<Record>)
    ensures
        advance(v, records).1 is Detect || advance(v, records).1 is Finish,
    decreases v.langs.len() - v.position,
{
    if v.position < v.langs.len() {
        let lang = v.langs[v.position as int];
        let next = RunView {
            position: v.position + 1,
            output: inserted(v.output, lang, resolved(records, lang, v.words)),
            ..v
        };
        lemma_advance_detects_or_finishes(next, records);
    }
}

/// Where a run stops for the provider, the partition of the language in
/// progress is taken: the batch is what the cache leaves needed for it, no
/// string stands twice in the batch, the cache holds a translation for none
/// of them, and the sample to detect is the first of them.
pub proof fn lemma_advance_batch(v: RunView, records: Seq<Record>)
    ensures
        ({
            let next = advance(v, records);
            let lang = v.langs[next.0.position as int];
            next.1 is Detect ==> {
                &&& next.0.phase == Phase::Detecting
                &&& v.position <= next.0.position < v.langs.len()
                &&& next.0.langs == v.langs
                &&& next.0.words == v.words
                &&& next.0.needed == still_needed(records, lang, v.words)
                &&& next.0.current == resolved(records, lang, v.words)
                &&& next.0.needed.len() > 0
                &&& next.0.needed.no_duplicates()
                &&& next.1 == ActionView::Detect(next.0.needed[0])
                &&& forall|s: Seq<char>| #[trigger]
                    next.0.needed.contains(s) ==> lookup_in(records, lang, s).len() == 0
            }
        }),
    decreases v.langs.len() - v.position,
{
    if v.position < v.langs.len() {
        let lang = v.langs[v.position as int];
        lemma_partition_parts(records, lang, v.words);
        if still_needed(records, lang, v.words).len() == 0 {
            let next = RunView {
                position: v.position + 1,
                output: inserted(v.output, lang, resolved(records, lang, v.words)),
                ..v
            };
            lemma_advance_batch(next, records);
        }
    }
}

/// Strings merged with themselves as their translations are each bound to itself.
pub proof fn lemma_merged_with_itself(pairs: Seq<(Seq<char>, Seq<char>)>, needed: Seq<Seq<char>>)
    ensures
        forall|i: int|
            0 <= i < needed.len() ==> binds(merged(pairs, needed, needed), #[trigger] needed[i], needed[i]),
    decreases needed.len(),
{
    if needed.len() > 0 {
        let front = needed.drop_last();
        let before = merged(pairs, front, front);
        lemma_merged_with_itself(pairs, front);
        lemma_inserted(before, needed.last(), needed.last());
        assert forall|i: int| 0 <= i < needed.len() implies binds(
            merged(pairs, needed, needed),
            #[trigger] needed[i],
            needed[i],
        ) by {
            if i < front.len() {
                assert(front[i] == needed[i]);
                assert(binds(before, front[i], front[i]));
            }
        }
    }
}

/// Pass-through on a language match: where the detected language is the
/// target language, the language is closed with every needed string bound to
/// itself, and no batch is sent for translation.
pub proof fn lemma_language_match_passes_through(v: RunView, records: Seq<Record>, source: Seq<char>)
    requires
        expects(v, EventView::Detected(source)),
        source == v.langs[v.position as int],
    ensures
        step_spec(v, records, EventView::Detected(source)) == completed(v, records, v.needed),
        !(step_spec(v, records, EventView::Detected(source)).2 is Translate),
        forall|i: int|
            0 <= i < v.needed.len() ==> binds(
                merged(v.current, v.needed, v.needed),
                #[trigger] v.needed[i],
                v.needed[i],
            ),
{
    let lang = v.langs[v.position as int];
    let next = RunView {
        position: v.position + 1,
        current: Seq::empty(),
        output: inserted(v.output, lang, merged(v.current, v.needed, v.needed)),
        ..v
    };
    lemma_advance_detects_or_finishes(next, stored_all(records, lang, v.needed, v.needed));
    lemma_merged_with_itself(v.current, v.needed);
}

/// What a merge binds: each needed string to the string at its position, and
/// every other key to what it was bound to before.
pub proof fn lemma_merged(
    pairs: Seq<(Seq<char>, Seq<char>)>,
    needed: Seq<Seq<char>>,
    result: Seq<Seq<char>>,
)
    requires
        needed.len() == result.len(),
        needed.no_duplicates(),
    ensures
        forall|k: Seq<char>, t: Seq<char>| #[trigger]
            binds(merged(pairs, needed, result), k, t) <==> paired(needed, result, k, t) || (
            !needed.contains(k) && binds(pairs, k, t)),
        distinct_keys(pairs) ==> distinct_keys(merged(pairs, needed, result)),
    decreases needed.len(),
{
    if needed.len() > 0 {
        let front = needed.drop_last();
        let given = result.drop_last();
        let before = merged(pairs, front, given);
        let after = merged(pairs, needed, result);
        let n = needed.last();
        let r = result.last();
        lemma_merged(pairs, front, given);
        lemma_inserted(before, n, r);
        assert forall|k: Seq<char>, t: Seq<char>| #[trigger]
            binds(after, k, t) <==> paired(needed, result, k, t) || (!needed.contains(k) && binds(
                pairs,
                k,
                t,
            )) by {
            assert(needed[needed.len() - 1] == n);
            assert(needed.contains(k) <==> front.contains(k) || k == n) by {
                if needed.contains(k) {
                    let i = choose|i: int| 0 <= i < needed.len() && needed[i] == k;
                    if i < front.len() {
                        assert(front[i] == k);
                    }
                }
                if front.contains(k) {
                    let i = choose|i: int| 0 <= i < front.len() && front[i] == k;
                    assert(needed[i] == k);
                }
            }
            if paired(needed, result, k, t) {
                let i = choose|i: int|
                    0 <= i < needed.len() && i < result.len() && #[trigger] needed[i] == k
                        && result[i] == t;
                if i < front.len() {
                    assert(front[i] == k && given[i] == t);
                    assert(paired(front, given, k, t));
                    assert(needed[i] != needed[needed.len() - 1]);
                }
            }
            if paired(front, given, k, t) {
                let i = choose|i: int|
                    0 <= i < front.len() && i < given.len() && #[trigger] front[i] == k && given[i]
                        == t;
                assert(needed[i] == k && result[i] == t);
                assert(needed[i] != needed[needed.len() - 1]);
            }
            if k == n && t == r {
                assert(needed[needed.len() - 1] == k && result[needed.len() - 1] == t);
            }
            if k == n && front.contains(k) {
                let i = choose|i: int| 0 <= i < front.len() && front[i] == k;
                assert(needed[i] == needed[needed.len() - 1]);
            }
        }
    }
}

/// What the cache holds after a batch is stored: for another language, and
/// for a string that is not in the batch, what it held before; for a string of
/// the batch, the string at its position.
pub proof fn lemma_stored_all(
    records: Seq<Record>,
    lang: Seq<char>,
    needed: Seq<Seq<char>>,
    result: Seq<Seq<char>>,
)
    requires
        needed.len() == result.len(),
        needed.no_duplicates(),
        forall|i: int| 0 <= i < needed.len() ==> lookup_in(records, lang, #[trigger] needed[i]).len() == 0,
    ensures
        forall|l: Seq<char>, s: Seq<char>|
            l != lang || !needed.contains(s) ==> #[trigger] lookup_in(
                stored_all(records, lang, needed, result),
                l,
                s,
            ) == lookup_in(records, l, s),
        forall|i: int|
            0 <= i < needed.len() ==> lookup_in(
                stored_all(records, lang, needed, result),
                lang,
                #[trigger] needed[i],
            ) =~= result[i],
    decreases needed.len(),
{
    if needed.len() > 0 {
        let front = needed.drop_last();
        let given = result.drop_last();
        let before = stored_all(records, lang, front, given);
        let after = stored_all(records, lang, needed, result);
        let n = needed.last();
        let r = result.last();
        assert forall|i: int| 0 <= i < front.len() implies lookup_in(
            records,
            lang,
            #[trigger] front[i],
        ).len() == 0 by {
            assert(front[i] == needed[i]);
        }
        lemma_stored_all(records, lang, front, given);
        assert(!front.contains(n)) by {
            if front.contains(n) {
                let i = choose|i: int| 0 <= i < front.len() && front[i] == n;
                assert(needed[i] == needed[needed.len() - 1]);
            }
        }
        assert(lookup_in(before, lang, n) == lookup_in(records, lang, n));
        assert(lookup_in(records, lang, needed[needed.len() - 1]).len() == 0);
        assert(after == stored(before, lang, n, r));
        if r.len() > 0 {
            assert(after == before.push((lang, n, r)));
            assert(after.last() == (lang, n, r));
            assert(after.drop_last() =~= before);
        }
        assert forall|l: Seq<char>, s: Seq<char>| l != lang || !needed.contains(s) implies #[trigger] lookup_in(
            after,
            l,
            s,
        ) == lookup_in(records, l, s) by {
            if l == lang {
                assert(needed[needed.len() - 1] == n);
                assert(s != n);
                if front.contains(s) {
                    let i = choose|i: int| 0 <= i < front.len() && front[i] == s;
                    assert(needed[i] == s);
                }
            }
            assert(lookup_in(before, l, s) == lookup_in(records, l, s));
        }
        assert forall|i: int| 0 <= i < needed.len() implies lookup_in(
            after,
            lang,
            #[trigger] needed[i],
        ) =~= result[i] by {
            if i < front.len() {
                assert(front[i] == needed[i] && given[i] == result[i]);
                assert(needed[i] != needed[needed.len() - 1]);
                assert(lookup_in(before, lang, front[i]) =~= given[i]);
            }
        }
    }
}

/// Idempotence for one language: once the provider's answer to the batch is
/// stored, and no string of it is empty, a second partition of the same source
/// strings needs nothing from the provider and binds every string to what the
/// first run bound it to. What the cache holds for other languages is as before.
pub proof fn lemma_second_run(
    records: Seq<Record>,
    lang: Seq<char>,
    words: Seq<Seq<char>>,
    result: Seq<Seq<char>>,
)
    requires
        result.len() == still_needed(records, lang, words).len(),
        forall|i: int| 0 <= i < result.len() ==> (#[trigger] result[i]).len() > 0,
    ensures
        ({
            let needed = still_needed(records, lang, words);
            let after = stored_all(records, lang, needed, result);
            &&& still_needed(after, lang, words).len() == 0
            &&& forall|s: Seq<char>, t: Seq<char>| #[trigger]
                binds(resolved(after, lang, words), s, t) <==> binds(
                    merged(resolved(records, lang, words), needed, result),
                    s,
                    t,
                )
            &&& forall|l: Seq<char>, s: Seq<char>|
                l != lang ==> #[trigger] lookup_in(after, l, s) == lookup_in(records, l, s)
        }),
{
    let needed = still_needed(records, lang, words);
    let have = resolved(records, lang, words);
    let after = stored_all(records, lang, needed, result);
    let again = still_needed(after, lang, words);
    let have2 = resolved(after, lang, words);
    lemma_partition_parts(records, lang, words);
    lemma_partition_parts(after, lang, words);
    assert forall|i: int| 0 <= i < needed.len() implies lookup_in(records, lang, #[trigger] needed[i]).len()
        == 0 by {
        assert(needed.contains(needed[i]));
    }
    lemma_stored_all(records, lang, needed, result);
    lemma_merged(have, needed, result);
    assert forall|s: Seq<char>| words.contains(s) implies lookup_in(after, lang, s).len() > 0 by {
        if needed.contains(s) {
            let i = choose|i: int| 0 <= i < needed.len() && needed[i] == s;
            assert(lookup_in(after, lang, needed[i]) =~= result[i]);
        }
    }
    if again.len() > 0 {
        assert(again.contains(again[0]));
    }
    assert forall|s: Seq<char>, t: Seq<char>| #[trigger]
        binds(have2, s, t) <==> binds(merged(have, needed, result), s, t) by {
        lemma_bound_keys(have2, s);
        lemma_bound_keys(have, s);
        if binds(have2, s, t) {
            if needed.contains(s) {
                let i = choose|i: int| 0 <= i < needed.len() && needed[i] == s;
                assert(lookup_in(after, lang, needed[i]) =~= result[i]);
                assert(paired(needed, result, s, t));
            } else {
                let v = choose|v: Seq<char>| binds(have, s, v);
                assert(binds(have, s, v));
            }
        }
        if paired(needed, result, s, t) {
            let i = choose|i: int|
                0 <= i < needed.len() && i < result.len() && #[trigger] needed[i] == s && result[i]
                    == t;
            assert(needed.contains(s));
            assert(lookup_in(after, lang, needed[i]) =~= result[i]);
            let v = choose|v: Seq<char>| binds(have2, s, v);
            assert(binds(have2, s, v));
        }
        if !needed.contains(s) && binds(have, s, t) {
            let v = choose|v: Seq<char>| binds(have2, s, v);
            assert(binds(have2, s, v));
        }
    }
}

/// Nothing is needed from the provider exactly where the cache holds a
/// translation for every source string.
pub proof fn lemma_nothing_needed(records: Seq<Record>, lang: Seq<char>, words: Seq<Seq<char>>)
    ensures
        still_needed(records, lang, words).len() == 0 <==> (forall|s: Seq<char>|
            words.contains(s) ==> (#[trigger] lookup_in(records, lang, s)).len() > 0),
{
    let needed = still_needed(records, lang, words);
    lemma_partition_parts(records, lang, words);
    if needed.len() > 0 {
        assert(needed.contains(needed[0]));
    }
    if needed.len() == 0 {
        assert forall|s: Seq<char>| words.contains(s) implies (#[trigger] lookup_in(
            records,
            lang,
            s,
        )).len() > 0 by {
            if lookup_in(records, lang, s).len() == 0 {
                assert(needed.contains(s));
            }
        }
    }
}

/// The cache is stable: a translation that it holds is the same after any
/// batch is stored.
pub proof fn lemma_stored_all_stable(
    records: Seq<Record>,
    lang: Seq<char>,
    needed: Seq<Seq<char>>,
    result: Seq<Seq<char>>,
)
    ensures
        forall|l: Seq<char>, s: Seq<char>|
            lookup_in(records, l, s).len() > 0 ==> #[trigger] lookup_in(
                stored_all(records, lang, needed, result),
                l,
                s,
            ) == lookup_in(records, l, s),
    decreases needed.len(),
{
    if needed.len() > 0 && result.len() > 0 {
        let before = stored_all(records, lang, needed.drop_last(), result.drop_last());
        let after = stored_all(records, lang, needed, result);
        lemma_stored_all_stable(records, lang, needed.drop_last(), result.drop_last());
        assert(after == stored(before, lang, needed.last(), result.last()));
        if after != before {
            assert(after == before.push((lang, needed.last(), result.last())));
            assert(after.last() == (lang, needed.last(), result.last()));
            assert(after.drop_last() =~= before);
        }
        assert forall|l: Seq<char>, s: Seq<char>| lookup_in(records, l, s).len() > 0 implies #[trigger] lookup_in(
            after,
            l,
            s,
        ) == lookup_in(records, l, s) by {
            assert(lookup_in(before, l, s) == lookup_in(records, l, s));
        }
    }
}

/// The records after a run in which the provider answered, for each language
/// in turn, the batch still needed with the list of strings at the language's
/// position in `answers`.
pub open spec fn recorded(
    records: Seq<Record>,
    langs: Seq<Seq<char>>,
    words: Seq<Seq<char>>,
    answers: Seq<Seq<Seq<char>>>,
) -> Seq<Record>
    decreases langs.len(),
{
    if langs.len() == 0 || answers.len() == 0 {
        records
    } else {
        let before = recorded(records, langs.drop_last(), words, answers.drop_last());
        stored_all(before, langs.last(), still_needed(before, langs.last(), words), answers.last())
    }
}

/// Whether `answers` are what a provider may answer in such a run: for each
/// language a list as long as the batch, without an empty string.
pub open spec fn answers_fit(
    records: Seq<Record>,
    langs: Seq<Seq<char>>,
    words: Seq<Seq<char>>,
    answers: Seq<Seq<Seq<char>>>,
) -> bool
    decreases langs.len(),
{
    answers.len() == langs.len() && (langs.len() > 0 ==> {
        let before = recorded(records, langs.drop_last(), words, answers.drop_last());
        &&& answers_fit(records, langs.drop_last(), words, answers.drop_last())
        &&& answers.last().len() == still_needed(before, langs.last(), words).len()
        &&& forall|i: int| 0 <= i < answers.last().len() ==> (#[trigger] answers.last()[i]).len() > 0
    })
}

/// Idempotence: after a run in which the provider answered every batch
/// without an empty string, a second run over the same languages and source
/// strings needs nothing for any language and finishes without a request to
/// the provider, and what the cache held before the first run it still holds.
pub proof fn lemma_second_run_asks_nothing(
    records: Seq<Record>,
    langs: Seq<Seq<char>>,
    words: Seq<Seq<char>>,
    answers: Seq<Seq<Seq<char>>>,
)
    requires
        answers_fit(records, langs, words, answers),
    ensures
        forall|j: int|
            0 <= j < langs.len() ==> still_needed(
                recorded(records, langs, words, answers),
                #[trigger] langs[j],
                words,
            ).len() == 0,
        advance(initial(langs, words), recorded(records, langs, words, answers)).1
            == ActionView::Finish,
        forall|l: Seq<char>, s: Seq<char>|
            lookup_in(records, l, s).len() > 0 ==> #[trigger] lookup_in(
                recorded(records, langs, words, answers),
                l,
                s,
            ) == lookup_in(records, l, s),
    decreases langs.len(),
{
    let after = recorded(records, langs, words, answers);
    if langs.len() > 0 {
        let front = langs.drop_last();
        let lang = langs.last();
        let before = recorded(records, front, words, answers.drop_last());
        let needed = still_needed(before, lang, words);
        lemma_second_run_asks_nothing(records, front, words, answers.drop_last());
        lemma_second_run(before, lang, words, answers.last());
        lemma_stored_all_stable(before, lang, needed, answers.last());
        assert forall|j: int| 0 <= j < langs.len() implies still_needed(
            after,
            #[trigger] langs[j],
            words,
        ).len() == 0 by {
            if j < front.len() {
                assert(front[j] == langs[j]);
                lemma_nothing_needed(before, langs[j], words);
                lemma_nothing_needed(after, langs[j], words);
            }
        }
    }
    lemma_resolved_run_asks_nothing(initial(langs, words), after);
}

/// What the caller reports after it performed `action` with a provider that
/// detects `detect(sample)` in a sample and answers a batch with
/// `translate(batch, source, target)`.
pub open spec fn event_for(
    action: ActionView,
    detect: spec_fn(Seq<char>) -> Seq<char>,
    translate: spec_fn(Seq<Seq<char>>, Seq<char>, Seq<char>) -> Seq<Seq<char>>,
) -> EventView {
    match action {
        ActionView::Detect(sample) => EventView::Detected(detect(sample)),
        ActionView::Translate { batch, source, target } => EventView::Translated(
            translate(batch, source, target),
        ),
        _ => EventView::ProviderFailed,
    }
}

/// A run from a state and the action that it asked for, with such a
/// provider, until it finishes or aborts, or `fuel` steps are taken.
pub open spec fn drive(
    v: RunView,
    records: Seq<Record>,
    action: ActionView,
    detect: spec_fn(Seq<char>) -> Seq<char>,
    translate: spec_fn(Seq<Seq<char>>, Seq<char>, Seq<char>) -> Seq<Seq<char>>,
    fuel: nat,
) -> (RunView, Seq<Record>, ActionView)
    decreases fuel,
{
    if fuel == 0 || action is Finish || action is Abort {
        (v, records, action)
    } else {
        let next = step_spec(v, records, event_for(action, detect, translate));
        drive(next.0, next.1, next.2, detect, translate, (fuel - 1) as nat)
    }
}

/// A whole run over `langs` and `words` on a cache with `records`.
pub open spec fn run(
    langs: Seq<Seq<char>>,
    words: Seq<Seq<char>>,
    records: Seq<Record>,
    detect: spec_fn(Seq<char>) -> Seq<char>,
    translate: spec_fn(Seq<Seq<char>>, Seq<char>, Seq<char>) -> Seq<Seq<char>>,
    fuel: nat,
) -> (RunView, Seq<Record>, ActionView) {
    let first = step_spec(initial(langs, words), records, EventView::Start);
    drive(first.0, first.1, first.2, detect, translate, fuel)
}

/// Whether the cache resolves every source string for every language that
/// the run has closed.
pub open spec fn settled(v: RunView, records: Seq<Record>) -> bool {
    forall|j: int|
        0 <= j < v.position && j < v.langs.len() ==> still_needed(
            records,
            #[trigger] v.langs[j],
            v.words,
        ).len() == 0
}

/// Whether the run holds the partition of the language in progress.
pub open spec fn holds_partition(v: RunView, records: Seq<Record>) -> bool {
    &&& v.position < v.langs.len()
    &&& v.needed == still_needed(records, v.langs[v.position as int], v.words)
    &&& v.current == resolved(records, v.langs[v.position as int], v.words)
}

/// What holds of a run between two steps: the closed languages are settled,
/// and while the provider is asked the run holds the partition of the language
/// in progress and asks about its batch, first about the batch's first string.
pub open spec fn consistent(v: RunView, records: Seq<Record>, action: ActionView) -> bool {
    &&& settled(v, records)
    &&& match action {
        ActionView::Detect(sample) => v.phase == Phase::Detecting && holds_partition(v, records)
            && v.needed.len() > 0 && sample == v.needed[0],
        ActionView::Translate { batch, source, target } => v.phase == Phase::Translating
            && holds_partition(v, records) && batch == v.needed,
        ActionView::Finish => v.position >= v.langs.len(),
        ActionView::Abort(_) => true,
    }
}

/// Going on to the next language keeps a run consistent.
pub proof fn lemma_advance_consistent(v: RunView, records: Seq<Record>)
    requires
        settled(v, records),
    ensures
        consistent(advance(v, records).0, records, advance(v, records).1),
        advance(v, records).0.langs == v.langs,
        advance(v, records).0.words == v.words,
    decreases v.langs.len() - v.position,
{
    lemma_advance_detects_or_finishes(v, records);
    if v.position < v.langs.len() {
        let lang = v.langs[v.position as int];
        if still_needed(records, lang, v.words).len() == 0 {
            let next = RunView {
                position: v.position + 1,
                output: inserted(v.output, lang, resolved(records, lang, v.words)),
                ..v
            };
            lemma_advance_consistent(next, records);
        }
    }
}

/// Closing a language with an answer that fits its batch and holds no
/// empty string keeps a run consistent.
pub proof fn lemma_completed_consistent(v: RunView, records: Seq<Record>, result: Seq<Seq<char>>)
    requires
        settled(v, records),
        holds_partition(v, records),
        result.len() == v.needed.len(),
        forall|i: int| 0 <= i < result.len() ==> (#[trigger] result[i]).len() > 0,
    ensures
        consistent(
            completed(v, records, result).0,
            completed(v, records, result).1,
            completed(v, records, result).2,
        ),
        completed(v, records, result).0.langs == v.langs,
        completed(v, records, result).0.words == v.words,
{
    let lang = v.langs[v.position as int];
    let after = stored_all(records, lang, v.needed, result);
    let next = RunView {
        position: v.position + 1,
        current: Seq::empty(),
        output: inserted(v.output, lang, merged(v.current, v.needed, result)),
        ..v
    };
    lemma_second_run(records, lang, v.words, result);
    lemma_stored_all_stable(records, lang, v.needed, result);
    assert forall|j: int| 0 <= j < next.position && j < next.langs.len() implies still_needed(
        after,
        #[trigger] next.langs[j],
        next.words,
    ).len() == 0 by {
        if j < v.position {
            assert(still_needed(records, v.langs[j], v.words).len() == 0);
            lemma_nothing_needed(records, v.langs[j], v.words);
            lemma_nothing_needed(after, v.langs[j], v.words);
        }
    }
    lemma_advance_consistent(next, after);
}

/// Whether a provider answers no batch with an empty string.
pub open spec fn answers_without_gaps(
    translate: spec_fn(Seq<Seq<char>>, Seq<char>, Seq<char>) -> Seq<Seq<char>>,
) -> bool {
    forall|batch: Seq<Seq<char>>, source: Seq<char>, target: Seq<char>, i: int|
        0 <= i < translate(batch, source, target).len() ==> (#[trigger] translate(
            batch,
            source,
            target,
        )[i]).len() > 0
}

/// Whether no source string is empty.
pub open spec fn without_empty(words: Seq<Seq<char>>) -> bool {
    forall|i: int| 0 <= i < words.len() ==> (#[trigger] words[i]).len() > 0
}

/// A step with such a provider keeps a run consistent.
pub proof fn lemma_step_consistent(
    v: RunView,
    records: Seq<Record>,
    action: ActionView,
    detect: spec_fn(Seq<char>) -> Seq<char>,
    translate: spec_fn(Seq<Seq<char>>, Seq<char>, Seq<char>) -> Seq<Seq<char>>,
)
    requires
        consistent(v, records, action),
        action is Detect || action is Translate,
        answers_without_gaps(translate),
        without_empty(v.words),
    ensures
        ({
            let next = step_spec(v, records, event_for(action, detect, translate));
            &&& consistent(next.0, next.1, next.2)
            &&& next.0.langs == v.langs
            &&& next.0.words == v.words
        }),
{
    let lang = v.langs[v.position as int];
    match action {
        ActionView::Detect(sample) => {
            if detect(sample) == lang {
                lemma_partition_parts(records, lang, v.words);
                assert forall|i: int| 0 <= i < v.needed.len() implies (#[trigger] v.needed[i]).len()
                    > 0 by {
                    assert(v.needed.contains(v.needed[i]));
                    let s = v.needed[i];
                    let n = choose|n: int| 0 <= n < v.words.len() && v.words[n] == s;
                    assert(v.words[n].len() > 0);
                }
                lemma_completed_consistent(v, records, v.needed);
            }
        },
        ActionView::Translate { batch, source, target } => {
            let result = translate(batch, source, target);
            if result.len() == v.needed.len() {
                lemma_completed_consistent(v, records, result);
            }
        },
        _ => {},
    }
}

/// A run with such a provider stays consistent to its end.
pub proof fn lemma_drive_consistent(
    v: RunView,
    records: Seq<Record>,
    action: ActionView,
    detect: spec_fn(Seq<char>) -> Seq<char>,
    translate: spec_fn(Seq<Seq<char>>, Seq<char>, Seq<char>) -> Seq<Seq<char>>,
    fuel: nat,
)
    requires
        consistent(v, records, action),
        answers_without_gaps(translate),
        without_empty(v.words),
    ensures
        ({
            let end = drive(v, records, action, detect, translate, fuel);
            &&& consistent(end.0, end.1, end.2)
            &&& end.0.langs == v.langs
            &&& end.0.words == v.words
        }),
    decreases fuel,
{
    if !(fuel == 0 || action is Finish || action is Abort) {
        let next = step_spec(v, records, event_for(action, detect, translate));
        lemma_step_consistent(v, records, action, detect, translate);
        lemma_drive_consistent(next.0, next.1, next.2, detect, translate, (fuel - 1) as nat);
    }
}

/// Idempotence of a whole run: after a run that finished, with a provider
/// that answers no batch with an empty string and source strings of which
/// none is empty, a second run over the same languages and source strings on
/// the cache that the first left finishes at its first step, without a request
/// to the provider, and leaves the cache as it found it.
pub proof fn lemma_rerun_asks_nothing(
    langs: Seq<Seq<char>>,
    words: Seq<Seq<char>>,
    records: Seq<Record>,
    detect: spec_fn(Seq<char>) -> Seq<char>,
    translate: spec_fn(Seq<Seq<char>>, Seq<char>, Seq<char>) -> Seq<Seq<char>>,
    fuel: nat,
)
    requires
        answers_without_gaps(translate),
        without_empty(words),
        run(langs, words, records, detect, translate, fuel).2 is Finish,
    ensures
        ({
            let end = run(langs, words, records, detect, translate, fuel);
            let again = step_spec(initial(langs, words), end.1, EventView::Start);
            &&& again.2 == ActionView::Finish
            &&& again.1 == end.1
            &&& again.0.phase == Phase::Finished
            &&& forall|j: int|
                0 <= j < langs.len() ==> still_needed(end.1, #[trigger] langs[j], words).len() == 0
        }),
{
    let start = initial(langs, words);
    let first = step_spec(start, records, EventView::Start);
    lemma_advance_consistent(start, records);
    lemma_drive_consistent(first.0, first.1, first.2, detect, translate, fuel);
    let end = run(langs, words, records, detect, translate, fuel);
    lemma_resolved_run_asks_nothing(start, end.1);
}

/// Whether `pairs` are, as a mapping, what the cache holds for `lang`: every
/// source string has a translation there, and `pairs` bind each source string
/// to it and nothing else.
pub open spec fn mirrors(
    pairs: Seq<(Seq<char>, Seq<char>)>,
    records: Seq<Record>,
    lang: Seq<char>,
    words: Seq<Seq<char>>,
) -> bool {
    &&& forall|s: Seq<char>| words.contains(s) ==> (#[trigger] lookup_in(records, lang, s)).len() > 0
    &&& forall|s: Seq<char>, t: Seq<char>| #[trigger]
        binds(pairs, s, t) <==> words.contains(s) && t == lookup_in(records, lang, s)
}

/// Whether the output of a run holds, for each language that is closed and
/// for no other than a target language, what the cache holds for it.
pub open spec fn output_mirrors(v: RunView, records: Seq<Record>) -> bool {
    &&& forall|l: Seq<char>, p: Seq<(Seq<char>, Seq<char>)>| #[trigger]
        binds(v.output, l, p) ==> mirrors(p, records, l, v.words)
    &&& forall|j: int|
        0 <= j < v.position && j < v.langs.len() ==> has_key(v.output, #[trigger] v.langs[j])
    &&& forall|l: Seq<char>| #[trigger] has_key(v.output, l) ==> v.langs.contains(l)
}

/// Where nothing is needed, the resolved part is what the cache holds.
pub proof fn lemma_resolved_mirrors(records: Seq<Record>, lang: Seq<char>, words: Seq<Seq<char>>)
    requires
        still_needed(records, lang, words).len() == 0,
    ensures
        mirrors(resolved(records, lang, words), records, lang, words),
{
    let have = resolved(records, lang, words);
    lemma_nothing_needed(records, lang, words);
    lemma_partition_parts(records, lang, words);
    assert forall|s: Seq<char>, t: Seq<char>| #[trigger]
        binds(have, s, t) <==> words.contains(s) && t == lookup_in(records, lang, s) by {
        lemma_bound_keys(have, s);
        if words.contains(s) && t == lookup_in(records, lang, s) {
            assert(lookup_in(records, lang, s).len() > 0);
            assert(has_key(have, s));
            let v = choose|v: Seq<char>| binds(have, s, v);
            assert(binds(have, s, v));
        }
    }
}

/// Going on to the next language keeps the output in step with the cache.
pub proof fn lemma_advance_mirrors(v: RunView, records: Seq<Record>)
    requires
        output_mirrors(v, records),
    ensures
        output_mirrors(advance(v, records).0, records),
    decreases v.langs.len() - v.position,
{
    if v.position < v.langs.len() {
        let lang = v.langs[v.position as int];
        let have = resolved(records, lang, v.words);
        if still_needed(records, lang, v.words).len() == 0 {
            let next = RunView { position: v.position + 1, output: inserted(v.output, lang, have), ..v };
            lemma_resolved_mirrors(records, lang, v.words);
            lemma_inserted(v.output, lang, have);
            assert(v.langs.contains(lang));
            assert(output_mirrors(next, records));
            lemma_advance_mirrors(next, records);
        }
    }
}

/// Closing a language with an answer that fits its batch and holds no
/// empty string keeps the output in step with the cache.
pub proof fn lemma_completed_mirrors(v: RunView, records: Seq<Record>, result: Seq<Seq<char>>)
    requires
        output_mirrors(v, records),
        holds_partition(v, records),
        result.len() == v.needed.len(),
        forall|i: int| 0 <= i < result.len() ==> (#[trigger] result[i]).len() > 0,
    ensures
        output_mirrors(completed(v, records, result).0, completed(v, records, result).1),
{
    let lang = v.langs[v.position as int];
    let after = stored_all(records, lang, v.needed, result);
    let all = merged(v.current, v.needed, result);
    let next = RunView {
        position: v.position + 1,
        current: Seq::empty(),
        output: inserted(v.output, lang, all),
        ..v
    };
    lemma_second_run(records, lang, v.words, result);
    lemma_stored_all_stable(records, lang, v.needed, result);
    lemma_resolved_mirrors(after, lang, v.words);
    assert(mirrors(all, after, lang, v.words)) by {
        assert forall|s: Seq<char>, t: Seq<char>| #[trigger]
            binds(all, s, t) <==> v.words.contains(s) && t == lookup_in(after, lang, s) by {
            assert(binds(resolved(after, lang, v.words), s, t) <==> binds(all, s, t));
        }
    }
    lemma_inserted(v.output, lang, all);
    assert(v.langs.contains(lang));
    assert forall|l: Seq<char>, p: Seq<(Seq<char>, Seq<char>)>| #[trigger]
        binds(next.output, l, p) implies mirrors(p, after, l, v.words) by {
        if !(l == lang && p == all) {
            assert(binds(v.output, l, p));
            assert(mirrors(p, records, l, v.words));
            assert forall|s: Seq<char>| v.words.contains(s) implies (#[trigger] lookup_in(
                after,
                l,
                s,
            )).len() > 0 by {
                assert(lookup_in(records, l, s).len() > 0);
            }
            assert forall|s: Seq<char>, t: Seq<char>| #[trigger]
                binds(p, s, t) <==> v.words.contains(s) && t == lookup_in(after, l, s) by {
                if v.words.contains(s) {
                    assert(lookup_in(records, l, s).len() > 0);
                }
            }
        }
    }
    assert(output_mirrors(next, after));
    lemma_advance_mirrors(next, after);
}

/// A run with a provider that answers no batch with an empty string keeps
/// its output in step with the cache to its end.
pub proof fn lemma_drive_mirrors(
    v: RunView,
    records: Seq<Record>,
    action: ActionView,
    detect: spec_fn(Seq<char>) -> Seq<char>,
    translate: spec_fn(Seq<Seq<char>>, Seq<char>, Seq<char>) -> Seq<Seq<char>>,
    fuel: nat,
)
    requires
        consistent(v, records, action),
        output_mirrors(v, records),
        answers_without_gaps(translate),
        without_empty(v.words),
    ensures
        ({
            let end = drive(v, records, action, detect, translate, fuel);
            output_mirrors(end.0, end.1)
        }),
    decreases fuel,
{
    if !(fuel == 0 || action is Finish || action is Abort) {
        let next = step_spec(v, records, event_for(action, detect, translate));
        lemma_step_consistent(v, records, action, detect, translate);
        let lang = v.langs[v.position as int];
        match action {
            ActionView::Detect(sample) => {
                if detect(sample) == lang {
                    lemma_partition_parts(records, lang, v.words);
                    assert forall|i: int| 0 <= i < v.needed.len() implies (#[trigger] v.needed[i]).len()
                        > 0 by {
                        assert(v.needed.contains(v.needed[i]));
                        let s = v.needed[i];
                        let n = choose|n: int| 0 <= n < v.words.len() && v.words[n] == s;
                        assert(v.words[n].len() > 0);
                    }
                    lemma_completed_mirrors(v, records, v.needed);
                }
            },
            ActionView::Translate { batch, source, target } => {
                let result = translate(batch, source, target);
                if result.len() == v.needed.len() {
                    lemma_completed_mirrors(v, records, result);
                }
            },
            _ => {},
        }
        assert(output_mirrors(next.0, next.1));
        lemma_drive_mirrors(next.0, next.1, next.2, detect, translate, (fuel - 1) as nat);
    }
}

/// Idempotence of the output: under the conditions of
/// `lemma_rerun_asks_nothing`, the second run's output holds the languages
/// of the first run's, and binds under each language every source string to
/// what the first run bound it to.
pub proof fn lemma_rerun_same_output(
    langs: Seq<Seq<char>>,
    words: Seq<Seq<char>>,
    records: Seq<Record>,
    detect: spec_fn(Seq<char>) -> Seq<char>,
    translate: spec_fn(Seq<Seq<char>>, Seq<char>, Seq<char>) -> Seq<Seq<char>>,
    fuel: nat,
)
    requires
        answers_without_gaps(translate),
        without_empty(words),
        run(langs, words, records, detect, translate, fuel).2 is Finish,
    ensures
        ({
            let end = run(langs, words, records, detect, translate, fuel);
            let again = step_spec(initial(langs, words), end.1, EventView::Start);
            &&& forall|l: Seq<char>| #[trigger]
                has_key(again.0.output, l) <==> has_key(end.0.output, l)
            &&& forall|l: Seq<char>| #[trigger] has_key(end.0.output, l) <==> langs.contains(l)
            &&& forall|
                l: Seq<char>,
                first: Seq<(Seq<char>, Seq<char>)>,
                second: Seq<(Seq<char>, Seq<char>)>,
                s: Seq<char>,
                t: Seq<char>,
            |
                #![trigger binds(end.0.output, l, first), binds(again.0.output, l, second), binds(first, s, t)]
                binds(end.0.output, l, first) && binds(again.0.output, l, second) ==> (binds(
                    first,
                    s,
                    t,
                ) <==> binds(second, s, t))
        }),
{
    let start = initial(langs, words);
    let first = step_spec(start, records, EventView::Start);
    assert(output_mirrors(start, records)) by {
        assert forall|l: Seq<char>| !has_key(start.output, l) by {}
        assert forall|l: Seq<char>, p: Seq<(Seq<char>, Seq<char>)>| !binds(start.output, l, p) by {}
    }
    lemma_advance_consistent(start, records);
    lemma_advance_mirrors(start, records);
    lemma_drive_consistent(first.0, first.1, first.2, detect, translate, fuel);
    lemma_drive_mirrors(first.0, first.1, first.2, detect, translate, fuel);
    let end = run(langs, words, records, detect, translate, fuel);
    let start2 = initial(langs, words);
    assert(output_mirrors(start2, end.1)) by {
        assert forall|l: Seq<char>| !has_key(start2.output, l) by {}
        assert forall|l: Seq<char>, p: Seq<(Seq<char>, Seq<char>)>| !binds(start2.output, l, p) by {}
    }
    lemma_resolved_run_asks_nothing(start2, end.1);
    lemma_advance_consistent(start2, end.1);
    lemma_advance_mirrors(start2, end.1);
    let again = step_spec(start2, end.1, EventView::Start);
    assert forall|l: Seq<char>| langs.contains(l) implies has_key(end.0.output, l) && has_key(
        again.0.output,
        l,
    ) by {
        let j = choose|j: int| 0 <= j < langs.len() && langs[j] == l;
        assert(has_key(end.0.output, end.0.langs[j]));
        assert(has_key(again.0.output, again.0.langs[j]));
    }
}

/// Where the cache holds nothing for a language, every source string is
/// needed: the batch is the list of source strings, if none stands twice in it.
pub proof fn lemma_all_needed(records: Seq<Record>, lang: Seq<char>, words: Seq<Seq<char>>)
    requires
        words.no_duplicates(),
        forall|i: int| 0 <= i < words.len() ==> lookup_in(records, lang, #[trigger] words[i]).len() == 0,
    ensures
        still_needed(records, lang, words) == words,
    decreases words.len(),
{
    if words.len() > 0 {
        let front = words.drop_last();
        assert forall|i: int| 0 <= i < front.len() implies lookup_in(
            records,
            lang,
            #[trigger] front[i],
        ).len() == 0 by {
            assert(front[i] == words[i]);
        }
        lemma_all_needed(records, lang, front);
        assert(!front.contains(words.last())) by {
            if front.contains(words.last()) {
                let i = choose|i: int| 0 <= i < front.len() && front[i] == words.last();
                assert(words[i] == words[words.len() - 1]);
            }
        }
        assert(lookup_in(records, lang, words[words.len() - 1]).len() == 0);
        assert(still_needed(records, lang, words) =~= words);
    } else {
        assert(still_needed(records, lang, words) =~= words);
    }
}

/// Whether the cache holds, for `lang`, either nothing for any source string
/// or each source string as its own translation; and no batch is being
/// translated into `lang`.
pub open spec fn passes_through(v: RunView, records: Seq<Record>, action: ActionView, lang: Seq<char>) -> bool {
    &&& (forall|s: Seq<char>| v.words.contains(s) ==> (#[trigger] lookup_in(records, lang, s)).len() == 0)
        || (forall|s: Seq<char>| v.words.contains(s) ==> #[trigger] lookup_in(records, lang, s) == s)
    &&& action is Translate ==> v.position < v.langs.len() && v.langs[v.position as int] != lang
}

/// A step keeps this, where the provider detects `lang` in the first source
/// string and no source string stands twice.
pub proof fn lemma_step_passes_through(
    v: RunView,
    records: Seq<Record>,
    action: ActionView,
    detect: spec_fn(Seq<char>) -> Seq<char>,
    translate: spec_fn(Seq<Seq<char>>, Seq<char>, Seq<char>) -> Seq<Seq<char>>,
    lang: Seq<char>,
)
    requires
        consistent(v, records, action),
        passes_through(v, records, action, lang),
        action is Detect || action is Translate,
        without_empty(v.words),
        v.words.len() > 0,
        v.words.no_duplicates(),
        detect(v.words[0]) == lang,
    ensures
        ({
            let next = step_spec(v, records, event_for(action, detect, translate));
            passes_through(next.0, next.1, next.2, lang)
        }),
{
    let target = v.langs[v.position as int];
    let next = step_spec(v, records, event_for(action, detect, translate));
    lemma_partition_parts(records, target, v.words);
    assert forall|i: int| 0 <= i < v.needed.len() implies lookup_in(
        records,
        target,
        #[trigger] v.needed[i],
    ).len() == 0 by {
        assert(v.needed.contains(v.needed[i]));
    }
    let fits = match action {
        ActionView::Detect(sample) => detect(sample) == target,
        ActionView::Translate { batch, source, target } => translate(batch, source, target).len()
            == v.needed.len(),
        _ => false,
    };
    let result = match action {
        ActionView::Translate { batch, source, target } => translate(batch, source, target),
        _ => v.needed,
    };
    if fits {
        assert(next == completed(v, records, result));
        let after = stored_all(records, target, v.needed, result);
        let moved = RunView {
            position: v.position + 1,
            current: Seq::empty(),
            output: inserted(v.output, target, merged(v.current, v.needed, result)),
            ..v
        };
        lemma_advance_detects_or_finishes(moved, after);
        lemma_advance_consistent_frame(moved, after);
        lemma_stored_all(records, target, v.needed, result);
        if target == lang {
            assert(action is Detect);
            assert(v.needed.contains(v.needed[0]));
            assert(v.words.contains(v.needed[0]));
            if lookup_in(records, lang, v.needed[0]) == v.needed[0] {
                assert(false);
            }
            assert forall|i: int| 0 <= i < v.words.len() implies lookup_in(
                records,
                lang,
                #[trigger] v.words[i],
            ).len() == 0 by {
                assert(v.words.contains(v.words[i]));
            }
            lemma_all_needed(records, lang, v.words);
            assert forall|s: Seq<char>| v.words.contains(s) implies #[trigger] lookup_in(
                after,
                lang,
                s,
            ) == s by {
                let i = choose|i: int| 0 <= i < v.words.len() && v.words[i] == s;
                assert(lookup_in(after, lang, v.needed[i]) =~= result[i]);
            }
        } else {
            assert forall|s: Seq<char>| #[trigger] lookup_in(after, lang, s) == lookup_in(
                records,
                lang,
                s,
            ) by {}
        }
    } else {
        match action {
            ActionView::Detect(sample) => {
                if target == lang {
                    assert(v.needed.contains(v.needed[0]));
            assert(v.words.contains(v.needed[0]));
                    if lookup_in(records, lang, v.needed[0]) == v.needed[0] {
                        assert(false);
                    }
                    assert forall|i: int| 0 <= i < v.words.len() implies lookup_in(
                        records,
                        lang,
                        #[trigger] v.words[i],
                    ).len() == 0 by {
                        assert(v.words.contains(v.words[i]));
                    }
                    lemma_all_needed(records, lang, v.words);
                    assert(false);
                }
            },
            _ => {},
        }
    }
}

/// Going on to the next language leaves the source strings as they are.
pub proof fn lemma_advance_consistent_frame(v: RunView, records: Seq<Record>)
    ensures
        advance(v, records).0.words == v.words,
        advance(v, records).0.langs == v.langs,
    decreases v.langs.len() - v.position,
{
    if v.position < v.langs.len() {
        let lang = v.langs[v.position as int];
        if still_needed(records, lang, v.words).len() == 0 {
            let next = RunView {
                position: v.position + 1,
                output: inserted(v.output, lang, resolved(records, lang, v.words)),
                ..v
            };
            lemma_advance_consistent_frame(next, records);
        }
    }
}

/// A run keeps this to its end.
pub proof fn lemma_drive_passes_through(
    v: RunView,
    records: Seq<Record>,
    action: ActionView,
    detect: spec_fn(Seq<char>) -> Seq<char>,
    translate: spec_fn(Seq<Seq<char>>, Seq<char>, Seq<char>) -> Seq<Seq<char>>,
    fuel: nat,
    lang: Seq<char>,
)
    requires
        consistent(v, records, action),
        passes_through(v, records, action, lang),
        answers_without_gaps(translate),
        without_empty(v.words),
        v.words.len() > 0,
        v.words.no_duplicates(),
        detect(v.words[0]) == lang,
    ensures
        ({
            let end = drive(v, records, action, detect, translate, fuel);
            passes_through(end.0, end.1, end.2, lang)
        }),
    decreases fuel,
{
    if !(fuel == 0 || action is Finish || action is Abort) {
        let next = step_spec(v, records, event_for(action, detect, translate));
        lemma_step_consistent(v, records, action, detect, translate);
        lemma_step_passes_through(v, records, action, detect, translate, lang);
        lemma_drive_passes_through(next.0, next.1, next.2, detect, translate, (fuel - 1) as nat, lang);
    }
}

/// Pass-through over a whole run: where the provider detects a target
/// language in the first source string, the cache holds nothing for that
/// language, and the source strings are distinct and none is empty, a run that
/// finishes binds under that language every source string to itself and to
/// nothing else.
pub proof fn lemma_run_passes_through(
    langs: Seq<Seq<char>>,
    words: Seq<Seq<char>>,
    records: Seq<Record>,
    detect: spec_fn(Seq<char>) -> Seq<char>,
    translate: spec_fn(Seq<Seq<char>>, Seq<char>, Seq<char>) -> Seq<Seq<char>>,
    fuel: nat,
    lang: Seq<char>,
)
    requires
        answers_without_gaps(translate),
        without_empty(words),
        words.len() > 0,
        words.no_duplicates(),
        langs.contains(lang),
        detect(words[0]) == lang,
        forall|s: Seq<char>| (#[trigger] lookup_in(records, lang, s)).len() == 0,
        run(langs, words, records, detect, translate, fuel).2 is Finish,
    ensures
        ({
            let end = run(langs, words, records, detect, translate, fuel);
            &&& has_key(end.0.output, lang)
            &&& forall|p: Seq<(Seq<char>, Seq<char>)>, s: Seq<char>, t: Seq<char>|
                #![trigger binds(end.0.output, lang, p), binds(p, s, t)]
                binds(end.0.output, lang, p) ==> (binds(p, s, t) <==> words.contains(s) && t == s)
        }),
{
    let start = initial(langs, words);
    let first = step_spec(start, records, EventView::Start);
    assert(output_mirrors(start, records)) by {
        assert forall|l: Seq<char>| !has_key(start.output, l) by {}
        assert forall|l: Seq<char>, p: Seq<(Seq<char>, Seq<char>)>| !binds(start.output, l, p) by {}
    }
    lemma_advance_consistent(start, records);
    lemma_advance_mirrors(start, records);
    lemma_advance_detects_or_finishes(start, records);
    lemma_drive_consistent(first.0, first.1, first.2, detect, translate, fuel);
    lemma_drive_mirrors(first.0, first.1, first.2, detect, translate, fuel);
    lemma_drive_passes_through(first.0, first.1, first.2, detect, translate, fuel, lang);
    let end = run(langs, words, records, detect, translate, fuel);
    let j = choose|j: int| 0 <= j < langs.len() && langs[j] == lang;
    assert(has_key(end.0.output, end.0.langs[j]));
    assert(still_needed(end.1, end.0.langs[j], words).len() == 0);
    lemma_nothing_needed(end.1, lang, words);
    assert(words.contains(words[0]));
    assert(lookup_in(end.1, lang, words[0]).len() > 0);
}

} // verus!
