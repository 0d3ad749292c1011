use f10n::cache::Cache;
use f10n::ordered::Localizations;
use f10n::orchestrator::{Action, Event, Orchestrator, Phase};
use f10n::template::{create_l10n_files, lhm_from_template, to_be_translated_words, Failure, Template, TemplateValue};

const SAMPLE: &str = "{\"greeting\": \"Hello\", \"@greeting\": {\"description\": \"said first\"}, \"farewell\": \"Goodbye\"}";

fn strings(items: &[&str]) -> Vec<String> {
    items.iter().map(|s| s.to_string()).collect()
}

fn to_spanish(text: &str) -> String {
    match text {
        "Hello" => "Hola".to_string(),
        "Goodbye" => "Adiós".to_string(),
        other => format!("{}!", other),
    }
}

/// Runs to the end against a provider that detects English and translates
/// with `to_spanish`; counts the requests it was sent.
fn run(cache: &mut Cache, langs: &[&str], words: Vec<String>) -> (Localizations, usize, usize) {
    let mut o = Orchestrator::new(strings(langs), words);
    let mut detections = 0;
    let mut translations = 0;
    let mut action = o.step(cache, Event::Start);
    loop {
        action = match action {
            Action::Detect(_) => {
                detections += 1;
                o.step(cache, Event::Detected("en".to_string()))
            }
            Action::Translate { batch, source, target: _ } => {
                assert_eq!("en", source);
                translations += 1;
                o.step(cache, Event::Translated(batch.iter().map(|s| to_spanish(s)).collect()))
            }
            Action::Finish => break,
            Action::Abort(f) => panic!("aborted: {:?}", f),
        };
    }
    assert_eq!(Phase::Finished, o.phase());
    (o.into_output(), detections, translations)
}

fn pairs(all: &Localizations, lang: &str) -> Vec<(String, String)> {
    all.get(lang).unwrap().iter().map(|(k, v)| (k.clone(), v.clone())).collect()
}

fn text_at(t: &Template, i: usize) -> String {
    match &t.entries[i].value {
        TemplateValue::Text(s) => s.clone(),
        TemplateValue::Opaque(v) => panic!("no text at {}: {}", i, v),
    }
}

#[test]
fn test_create_l10n_files() {
    let mut c = Cache::new();
    let linked_arb = lhm_from_template(SAMPLE.as_bytes()).unwrap();
    let to_be_tled = to_be_translated_words(&linked_arb);
    let mut o = Orchestrator::new(strings(&["es"]), to_be_tled);

    match o.step(&mut c, Event::Start) {
        Action::Detect(sample) => assert_eq!("Hello", sample),
        _ => panic!("the first string is to be detected"),
    }
    assert_eq!(Phase::Detecting, o.phase());
    match o.step(&mut c, Event::Detected("en".to_string())) {
        Action::Translate { batch, source, target } => {
            assert_eq!(strings(&["Hello", "Goodbye"]), batch);
            assert_eq!("en", source);
            assert_eq!("es", target);
        }
        _ => panic!("the batch is to be translated"),
    }
    assert_eq!(Phase::Translating, o.phase());
    match o.step(&mut c, Event::Translated(strings(&["Hola", "Adiós"]))) {
        Action::Finish => {}
        _ => panic!("the run is to finish"),
    }
    assert_eq!(Phase::Finished, o.phase());

    assert_eq!(2, c.len());
    assert_eq!("Hola", c.find_cache_content("Hello", "es"));
    assert_eq!("Adiós", c.find_cache_content("Goodbye", "es"));
    assert_eq!(("es", "Hello", "Hola"), (c.entry(0).lang.as_str(), c.entry(0).source.as_str(), c.entry(0).translated.as_str()));
    assert_eq!(("es", "Goodbye", "Adiós"), (c.entry(1).lang.as_str(), c.entry(1).source.as_str(), c.entry(1).translated.as_str()));

    let files = create_l10n_files(o.output(), &linked_arb).ok().unwrap();
    assert_eq!(1, files.len());
    assert_eq!("app_es.arb", files[0].name);
    let out = &files[0].template;
    let keys: Vec<&str> = out.entries.iter().map(|e| e.key.as_str()).collect();
    assert_eq!(vec!["greeting", "@greeting", "farewell"], keys);
    assert_eq!("Hola", text_at(out, 0));
    assert_eq!("Adiós", text_at(out, 2));
    match (&out.entries[1].value, &linked_arb.entries[1].value) {
        (TemplateValue::Opaque(a), TemplateValue::Opaque(b)) => assert_eq!(a, b),
        _ => panic!("metadata is kept as it is"),
    }
}

#[test]
fn second_run_is_served_by_the_cache() {
    let mut c = Cache::new();
    let template = lhm_from_template(SAMPLE.as_bytes()).unwrap();
    let words = to_be_translated_words(&template);
    let (first, detections, translations) = run(&mut c, &["es"], words.clone());
    assert_eq!((1, 1), (detections, translations));
    let (second, detections, translations) = run(&mut c, &["es"], words);
    assert_eq!((0, 0), (detections, translations));
    assert_eq!(2, c.len());
    assert_eq!(first.get("es").unwrap(), second.get("es").unwrap());
    let a = create_l10n_files(&first, &template).ok().unwrap();
    let b = create_l10n_files(&second, &template).ok().unwrap();
    assert_eq!(text_at(&a[0].template, 0), text_at(&b[0].template, 0));
    assert_eq!(text_at(&a[0].template, 2), text_at(&b[0].template, 2));
    assert_eq!("Hola", text_at(&b[0].template, 0));
}

#[test]
fn cache_hits_come_first_then_new_entries() {
    let mut c = Cache::new();
    c.add_to_cache("b", "es", "B");
    let (out, detections, translations) = run(&mut c, &["es"], strings(&["a", "b", "c", "a"]));
    assert_eq!((1, 1), (detections, translations));
    assert_eq!(
        vec![
            ("b".to_string(), "B".to_string()),
            ("a".to_string(), "a!".to_string()),
            ("c".to_string(), "c!".to_string())
        ],
        pairs(&out, "es")
    );
    assert_eq!(3, c.len());
}

#[test]
fn languages_are_resolved_in_their_order() {
    let mut c = Cache::new();
    c.add_to_cache("a", "fr", "A");
    let (out, detections, translations) = run(&mut c, &["fr", "es", "fr"], strings(&["a"]));
    assert_eq!((1, 1), (detections, translations));
    let langs: Vec<&str> = out.keys().map(|k| k.as_str()).collect();
    assert_eq!(vec!["es", "fr"], langs);
    assert_eq!(vec![("a".to_string(), "A".to_string())], pairs(&out, "fr"));
    assert_eq!(vec![("a".to_string(), "a!".to_string())], pairs(&out, "es"));
}

#[test]
fn no_languages_or_no_words_finish_at_once() {
    let mut c = Cache::new();
    let (out, detections, translations) = run(&mut c, &[], strings(&["a"]));
    assert!(out.is_empty());
    assert_eq!((0, 0), (detections, translations));
    let (out, detections, translations) = run(&mut c, &["es"], Vec::new());
    assert_eq!((0, 0), (detections, translations));
    assert!(out.get("es").unwrap().is_empty());
    assert_eq!(0, c.len());
}

#[test]
fn a_language_match_passes_the_strings_through() {
    let mut c = Cache::new();
    let mut o = Orchestrator::new(strings(&["en", "es"]), strings(&["Hello", "Goodbye"]));
    match o.step(&mut c, Event::Start) {
        Action::Detect(sample) => assert_eq!("Hello", sample),
        _ => panic!("the first string is to be detected"),
    }
    // English is the target: nothing is sent for translation, Spanish is next
    match o.step(&mut c, Event::Detected("en".to_string())) {
        Action::Detect(sample) => assert_eq!("Hello", sample),
        _ => panic!("the next language is to begin"),
    }
    assert_eq!(
        vec![
            ("Hello".to_string(), "Hello".to_string()),
            ("Goodbye".to_string(), "Goodbye".to_string())
        ],
        pairs(o.output(), "en")
    );
    assert_eq!("Hello", c.find_cache_content("Hello", "en"));
    assert_eq!("", c.find_cache_content("Hello", "es"));
}

#[test]
fn a_provider_failure_aborts_the_run() {
    let mut c = Cache::new();
    let mut o = Orchestrator::new(strings(&["es", "fr"]), strings(&["Hello"]));
    o.step(&mut c, Event::Start);
    o.step(&mut c, Event::Detected("en".to_string()));
    o.step(&mut c, Event::Translated(strings(&["Hola"])));
    // Spanish is stored, French fails
    match o.step(&mut c, Event::ProviderFailed) {
        Action::Abort(f) => assert_eq!(Failure::Provider, f),
        _ => panic!("the run is to abort"),
    }
    assert_eq!(Phase::Failed, o.phase());
    assert_eq!("Hola", c.find_cache_content("Hello", "es"));
    assert_eq!(1, c.len());
    assert_eq!(1, o.output().len());
    match o.step(&mut c, Event::Start) {
        Action::Abort(f) => assert_eq!(Failure::Provider, f),
        _ => panic!("an aborted run stays aborted"),
    }
}

#[test]
fn an_answer_of_another_length_aborts_the_run() {
    let mut c = Cache::new();
    let mut o = Orchestrator::new(strings(&["es"]), strings(&["Hello", "Goodbye"]));
    o.step(&mut c, Event::Start);
    o.step(&mut c, Event::Detected("en".to_string()));
    match o.step(&mut c, Event::Translated(strings(&["Hola"]))) {
        Action::Abort(f) => assert_eq!(Failure::Provider, f),
        _ => panic!("the run is to abort"),
    }
    assert_eq!(0, c.len());
    assert!(o.output().is_empty());
}

#[test]
fn an_event_out_of_turn_aborts_the_run() {
    let mut c = Cache::new();
    let mut o = Orchestrator::new(strings(&["es"]), strings(&["Hello"]));
    match o.step(&mut c, Event::Translated(strings(&["Hola"]))) {
        Action::Abort(f) => assert_eq!(Failure::Provider, f),
        _ => panic!("the run is to abort"),
    }
    assert_eq!(Phase::Failed, o.phase());
}

#[test]
fn an_empty_translation_is_asked_for_again() {
    let mut c = Cache::new();
    let mut o = Orchestrator::new(strings(&["es"]), strings(&["Hello"]));
    o.step(&mut c, Event::Start);
    o.step(&mut c, Event::Detected("en".to_string()));
    o.step(&mut c, Event::Translated(strings(&[""])));
    assert_eq!(vec![("Hello".to_string(), "".to_string())], pairs(o.output(), "es"));
    assert_eq!(0, c.len());
    let (_, detections, translations) = run(&mut c, &["es"], strings(&["Hello"]));
    assert_eq!((1, 1), (detections, translations));
}
