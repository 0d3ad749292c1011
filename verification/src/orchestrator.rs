//! The orchestrator: for each target language it partitions the source
//! strings against the cache, asks the provider for what is still needed,
//! merges the answer and stores it.
//!
//! The provider is reached over a network, so the orchestrator is a state
//! machine. `step` takes what the provider answered and says what to ask
//! next; the caller performs the request and hands the answer back.

use vstd::prelude::*;
use crate::cache::{Cache, Record, still_needed, resolved, stored};
use crate::ordered::{Translations, Localizations, translation_pairs, localization_pairs, inserted,
    translations_new, translations_insert, localizations_new, localizations_insert};
use crate::template::Failure;
use crate::text::{texts, clone_texts};

verus! {

/// Where a run stands.
#[derive(Clone, Copy, Debug, PartialEq, Eq, Structural)]
pub enum Phase {
    /// Nothing was asked yet.
    Ready,
    /// The language of a sample is being detected.
    Detecting,
    /// A batch is being translated.
    Translating,
    /// Every language is resolved.
    Finished,
    /// The run was aborted.
    Failed,
}

/// What the caller reports to the orchestrator.
pub enum Event {
    /// The run begins.
    Start,
    /// The provider detected this language in the sample.
    Detected(String),
    /// The provider translated the batch into these strings.
    Translated(Vec<String>),
    /// The provider failed.
    ProviderFailed,
}

/// An event as plain data.
pub enum EventView {
    Start,
    Detected(Seq<char>),
    Translated(Seq<Seq<char>>),
    ProviderFailed,
}

impl View for Event {
    type V = EventView;

    open spec fn view(&self) -> EventView {
        match self {
            Event::Start => EventView::Start,
            Event::Detected(lang) => EventView::Detected(lang@),
            Event::Translated(result) => EventView::Translated(texts(result@)),
            Event::ProviderFailed => EventView::ProviderFailed,
        }
    }
}

/// What the orchestrator asks of the caller.
pub enum Action {
    /// Detect the language of this sample.
    Detect(String),
    /// Translate the batch from the source into the target language.
    Translate { batch: Vec<String>, source: String, target: String },
    /// Nothing more: the output is complete.
    Finish,
    /// Nothing more: the run is aborted.
    Abort(Failure),
}

/// An action as plain data.
pub enum ActionView {
    Detect(Seq<char>),
    Translate { batch: Seq<Seq<char>>, source: Seq<char>, target: Seq<char> },
    Finish,
    Abort(Failure),
}

impl View for Action {
    type V = ActionView;

    open spec fn view(&self) -> ActionView {
        match self {
            Action::Detect(sample) => ActionView::Detect(sample@),
            Action::Translate { batch, source, target } => ActionView::Translate {
                batch: texts(batch@),
                source: source@,
                target: target@,
            },
            Action::Finish => ActionView::Finish,
            Action::Abort(failure) => ActionView::Abort(*failure),
        }
    }
}

/// The state of a run as plain data.
pub struct RunView {
    /// The target languages, in the order in which they are resolved.
    pub langs: Seq<Seq<char>>,
    /// The source strings.
    pub words: Seq<Seq<char>>,
    /// The number of languages resolved so far.
    pub position: nat,
    pub phase: Phase,
    /// The batch that the provider is asked about.
    pub needed: Seq<Seq<char>>,
    /// What the cache resolved for the language in progress.
    pub current: Seq<(Seq<char>, Seq<char>)>,
    /// The translations of the languages resolved so far.
    pub output: Seq<(Seq<char>, Seq<(Seq<char>, Seq<char>)>)>,
}

/// The state in which a run begins.
pub open spec fn initial(langs: Seq<Seq<char>>, words: Seq<Seq<char>>) -> RunView {
    RunView {
        langs,
        words,
        position: 0,
        phase: Phase::Ready,
        needed: Seq::empty(),
        current: Seq::empty(),
        output: Seq::empty(),
    }
}

/// The entries after each string of `needed` is inserted with the string
/// that `result` holds at its position, front to back.
pub open spec fn merged(
    pairs: Seq<(Seq<char>, Seq<char>)>,
    needed: Seq<Seq<char>>,
    result: Seq<Seq<char>>,
) -> Seq<(Seq<char>, Seq<char>)>
    decreases needed.len(),
{
    if needed.len() == 0 || result.len() == 0 {
        pairs
    } else {
        inserted(merged(pairs, needed.drop_last(), result.drop_last()), needed.last(), result.last())
    }
}

/// The records after each string of `needed` is stored for `lang` with the
/// string that `result` holds at its position, front to back.
pub open spec fn stored_all(
    records: Seq<Record>,
    lang: Seq<char>,
    needed: Seq<Seq<char>>,
    result: Seq<Seq<char>>,
) -> Seq<Record>
    decreases needed.len(),
{
    if needed.len() == 0 || result.len() == 0 {
        records
    } else {
        stored(
            stored_all(records, lang, needed.drop_last(), result.drop_last()),
            lang,
            needed.last(),
            result.last(),
        )
    }
}

/// Resolves languages from the cache alone, from the one in progress on,
/// until one needs the provider or none is left. A language that needs the
/// provider starts with the detection of its first needed string.
pub open spec fn advance(v: RunView, records: Seq<Record>) -> (RunView, ActionView)
    decreases v.langs.len() - v.position,
{
    if v.position >= v.langs.len() {
        (
            RunView { phase: Phase::Finished, needed: Seq::empty(), current: Seq::empty(), ..v },
            ActionView::Finish,
        )
    } else {
        let lang = v.langs[v.position as int];
        let need = still_needed(records, lang, v.words);
        let have = resolved(records, lang, v.words);
        if need.len() == 0 {
            advance(
                RunView { position: v.position + 1, output: inserted(v.output, lang, have), ..v },
                records,
            )
        } else {
            (
                RunView { phase: Phase::Detecting, needed: need, current: have, ..v },
                ActionView::Detect(need[0]),
            )
        }
    }
}

/// Closes the language in progress with `result` as the translations of the
/// needed strings: they are merged into what the cache resolved and stored in
/// the cache, and the run goes on with the next language.
pub open spec fn completed(v: RunView, records: Seq<Record>, result: Seq<Seq<char>>) -> (
    RunView,
    Seq<Record>,
    ActionView,
) {
    let lang = v.langs[v.position as int];
    let after = stored_all(records, lang, v.needed, result);
    let next = advance(
        RunView {
            position: v.position + 1,
            current: Seq::empty(),
            output: inserted(v.output, lang, merged(v.current, v.needed, result)),
            ..v
        },
        after,
    );
    (next.0, after, next.1)
}

/// Whether the run, in its phase, waits for this event.
pub open spec fn expects(v: RunView, event: EventView) -> bool {
    match event {
        EventView::Start => v.phase == Phase::Ready,
        EventView::Detected(_) => v.phase == Phase::Detecting && v.position < v.langs.len(),
        EventView::Translated(result) => v.phase == Phase::Translating && v.position
            < v.langs.len() && result.len() == v.needed.len(),
        EventView::ProviderFailed => false,
    }
}

/// One step of a run: the next state, the cache's records and the action.
///
/// A detected language that is the target language closes the language with
/// the needed strings as their own translations, and nothing is sent for
/// translation. An event that the run does not wait for, a failure of the
/// provider and an answer of another length than the batch abort the run.
pub open spec fn step_spec(v: RunView, records: Seq<Record>, event: EventView) -> (
    RunView,
    Seq<Record>,
    ActionView,
) {
    if !expects(v, event) {
        (RunView { phase: Phase::Failed, ..v }, records, ActionView::Abort(Failure::Provider))
    } else {
        match event {
            EventView::Detected(source) => {
                let target = v.langs[v.position as int];
                if source == target {
                    completed(v, records, v.needed)
                } else {
                    (
                        RunView { phase: Phase::Translating, ..v },
                        records,
                        ActionView::Translate { batch: v.needed, source, target },
                    )
                }
            },
            EventView::Translated(result) => completed(v, records, result),
            _ => {
                let next = advance(v, records);
                (next.0, records, next.1)
            },
        }
    }
}

/// A run over a list of target languages and a list of source strings.
pub struct Orchestrator {
    langs: Vec<String>,
    words: Vec<String>,
    position: usize,
    phase: Phase,
    needed: Vec<String>,
    current: Translations,
    output: Localizations,
}

impl View for Orchestrator {
    type V = RunView;

    closed spec fn view(&self) -> RunView {
        RunView {
            langs: texts(self.langs@),
            words: texts(self.words@),
            position: self.position as nat,
            phase: self.phase,
            needed: texts(self.needed@),
            current: translation_pairs(self.current),
            output: localization_pairs(self.output),
        }
    }
}

impl Orchestrator {
    /// A run that has not begun.
    pub fn new(langs: Vec<String>, words: Vec<String>) -> (run: Orchestrator)
        ensures
            run@ == initial(texts(langs@), texts(words@)),
    {
        let run = Orchestrator {
            langs,
            words,
            position: 0,
            phase: Phase::Ready,
            needed: Vec::new(),
            current: translations_new(),
            output: localizations_new(),
        };
        assert(texts(run.needed@) =~= Seq::<Seq<char>>::empty());
        run
    }

    /// Where the run stands.
    pub fn phase(&self) -> (phase: Phase)
        ensures
            phase == self@.phase,
    {
        self.phase
    }

    /// The translations of the languages resolved so far.
    pub fn output(&self) -> (output: &Localizations)
        ensures
            localization_pairs(*output) == self@.output,
    {
        &self.output
    }

    /// Ends the run and hands out the translations of the languages resolved.
    pub fn into_output(self) -> (output: Localizations)
        ensures
            localization_pairs(output) == self@.output,
    {
        self.output
    }

    fn advance(&mut self, cache: &Cache) -> (action: Action)
        ensures
            (final(self)@, action@) == advance(old(self)@, cache@),
    {
        let ghost start = self@;
        loop
            invariant
                start == old(self)@,
                advance(self@, cache@) == advance(start, cache@),
            decreases self.langs.len() - self.position,
        {
            if self.position >= self.langs.len() {
                self.phase = Phase::Finished;
                self.needed = Vec::new();
                self.current = translations_new();
                assert(texts(self.needed@) =~= Seq::<Seq<char>>::empty());
                return Action::Finish;
            }
            let lang = self.langs[self.position].clone();
            assert(lang@ == self@.langs[self.position as int]);
            let parts = cache.get_untranslated_translated(lang.as_str(), clone_texts(&self.words));
            let need = parts.0;
            let have = parts.1;
            if need.len() == 0 {
                assert(texts(need@).len() == 0);
                localizations_insert(&mut self.output, lang, have);
                self.position = self.position + 1;
            } else {
                assert(texts(need@).len() > 0);
                let sample = need[0].clone();
                assert(sample@ == texts(need@)[0]);
                self.phase = Phase::Detecting;
                self.needed = need;
                self.current = have;
                return Action::Detect(sample);
            }
        }
    }

    fn complete(&mut self, cache: &mut Cache, result: Vec<String>) -> (action: Action)
        requires
            old(self)@.position < old(self)@.langs.len(),
            result.len() == old(self)@.needed.len(),
        ensures
            (final(self)@, final(cache)@, action@) == completed(
                old(self)@,
                old(cache)@,
                texts(result@),
            ),
    {
        let ghost start = self@;
        let ghost records = cache@;
        let ghost given = texts(result@);
        let lang = self.langs[self.position].clone();
        assert(lang@ == start.langs[start.position as int]);
        let mut current = translations_new();
        core::mem::swap(&mut current, &mut self.current);
        let mut i: usize = 0;
        assert(start.needed.take(0) =~= Seq::<Seq<char>>::empty());
        while i < self.needed.len()
            invariant
                i <= self.needed.len(),
                self.needed.len() == result.len(),
                self@ == (RunView { current: Seq::empty(), ..start }),
                start.position < start.langs.len(),
                lang@ == start.langs[start.position as int],
                texts(self.needed@) == start.needed,
                texts(result@) == given,
                translation_pairs(current) == merged(
                    start.current,
                    start.needed.take(i as int),
                    given.take(i as int),
                ),
                cache@ == stored_all(
                    records,
                    lang@,
                    start.needed.take(i as int),
                    given.take(i as int),
                ),
            decreases self.needed.len() - i,
        {
            proof {
                let n = start.needed.take(i + 1);
                let g = given.take(i + 1);
                assert(n.drop_last() =~= start.needed.take(i as int));
                assert(g.drop_last() =~= given.take(i as int));
                assert(n.last() == self.needed@[i as int]@);
                assert(g.last() == result@[i as int]@);
            }
            translations_insert(&mut current, self.needed[i].clone(), result[i].clone());
            cache.add_to_cache(self.needed[i].as_str(), lang.as_str(), result[i].as_str());
            i += 1;
        }
        proof {
            assert(start.needed.take(i as int) =~= start.needed);
            assert(given.take(i as int) =~= given);
        }
        assert(texts(self.langs@).len() == self.langs.len());
        localizations_insert(&mut self.output, lang, current);
        self.position = self.position + 1;
        self.advance(cache)
    }

    /// Takes an event and says what to do next.
    pub fn step(&mut self, cache: &mut Cache, event: Event) -> (action: Action)
        ensures
            (final(self)@, final(cache)@, action@) == step_spec(old(self)@, old(cache)@, event@),
    {
        match event {
            Event::Start => {
                if self.phase == Phase::Ready {
                    return self.advance(cache);
                }
            },
            Event::Detected(source) => {
                if self.phase == Phase::Detecting && self.position < self.langs.len() {
                    let target = self.langs[self.position].clone();
                    assert(target@ == self@.langs[self.position as int]);
                    if source == target {
                        let result = clone_texts(&self.needed);
                        assert(texts(result@).len() == texts(self.needed@).len());
                        return self.complete(cache, result);
                    }
                    self.phase = Phase::Translating;
                    return Action::Translate { batch: clone_texts(&self.needed), source, target };
                }
            },
            Event::Translated(result) => {
                if self.phase == Phase::Translating && self.position < self.langs.len()
                    && result.len() == self.needed.len() {
                    assert(texts(result@).len() == texts(self.needed@).len());
                    return self.complete(cache, result);
                }
                assert(texts(result@).len() == result.len());
                assert(texts(self.needed@).len() == self.needed.len());
            },
            Event::ProviderFailed => {},
        }
        self.phase = Phase::Failed;
        Action::Abort(Failure::Provider)
    }
}

} // verus!
