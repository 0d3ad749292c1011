use f10n::ordered::{Localizations, Translations};
use f10n::template::{
    create_l10n_files, file_name, lhm_from_template, localize, render_template,
    to_be_translated_words, Failure, Template, TemplateEntry, TemplateValue,
};
use f10n::text::{clone_texts, contains_text, is_metadata_key};

const SAMPLE: &str = "{\"greeting\": \"Hello\", \"@greeting\": {\"description\": \"said first\"}, \"farewell\": \"Goodbye\", \"@@locale\": \"en\", \"count\": 3}";

fn sample() -> Template {
    lhm_from_template(SAMPLE.as_bytes()).unwrap()
}

fn spanish() -> Translations {
    let mut m = Translations::new();
    m.insert("Hello".to_string(), "Hola".to_string());
    m.insert("Goodbye".to_string(), "Adiós".to_string());
    m
}

fn text_at(t: &Template, i: usize) -> String {
    match &t.entries[i].value {
        TemplateValue::Text(s) => s.clone(),
        TemplateValue::Opaque(v) => panic!("no text at {}: {}", i, v),
    }
}

fn opaque_at(t: &Template, i: usize) -> serde_json::Value {
    match &t.entries[i].value {
        TemplateValue::Text(s) => panic!("text at {}: {}", i, s),
        TemplateValue::Opaque(v) => v.clone(),
    }
}

#[test]
fn test_arb() {
    let linked_arb = sample();
    assert_ne!(0, linked_arb.entries.len());
}

#[test]
fn parse_keeps_the_order_of_the_text() {
    let t = sample();
    let keys: Vec<&str> = t.entries.iter().map(|e| e.key.as_str()).collect();
    assert_eq!(vec!["greeting", "@greeting", "farewell", "@@locale", "count"], keys);
    assert_eq!("Hello", text_at(&t, 0));
    assert_eq!("Goodbye", text_at(&t, 2));
    assert_eq!("en", text_at(&t, 3));
    assert_eq!(serde_json::Value::from(3), opaque_at(&t, 4));
    assert!(opaque_at(&t, 1).is_object());
}

#[test]
fn parse_refuses_what_is_no_object() {
    assert!(lhm_from_template(b"[1, 2]").is_none());
    assert!(lhm_from_template(b"{\"a\": ").is_none());
    assert!(lhm_from_template(b"").is_none());
}

#[test]
fn metadata_keys_start_with_the_prefix() {
    assert!(is_metadata_key("@greeting"));
    assert!(is_metadata_key("@@locale"));
    assert!(is_metadata_key("@"));
    assert!(!is_metadata_key("greeting"));
    assert!(!is_metadata_key("gree@ting"));
    assert!(!is_metadata_key(""));
}

#[test]
fn words_are_the_translatable_strings_in_order() {
    let words = to_be_translated_words(&sample());
    assert_eq!(vec!["Hello".to_string(), "Goodbye".to_string()], words);
    assert!(to_be_translated_words(&Template { entries: Vec::new() }).is_empty());
}

#[test]
fn localize_replaces_translatable_strings_only() {
    let orig = sample();
    let out = localize(&orig, &spanish()).ok().unwrap();
    let keys: Vec<&str> = out.entries.iter().map(|e| e.key.as_str()).collect();
    assert_eq!(vec!["greeting", "@greeting", "farewell", "@@locale", "count"], keys);
    assert_eq!("Hola", text_at(&out, 0));
    assert_eq!(opaque_at(&orig, 1), opaque_at(&out, 1));
    assert_eq!("Adiós", text_at(&out, 2));
    assert_eq!("en", text_at(&out, 3));
    assert_eq!(opaque_at(&orig, 4), opaque_at(&out, 4));
}

#[test]
fn metadata_is_the_same_in_every_language() {
    let orig = sample();
    let mut german = Translations::new();
    german.insert("Hello".to_string(), "Hallo".to_string());
    german.insert("Goodbye".to_string(), "Tschüss".to_string());
    let es = localize(&orig, &spanish()).ok().unwrap();
    let de = localize(&orig, &german).ok().unwrap();
    assert_eq!(opaque_at(&es, 1), opaque_at(&de, 1));
    assert_eq!(opaque_at(&orig, 1), opaque_at(&de, 1));
    assert_eq!(text_at(&es, 3), text_at(&de, 3));
    assert_eq!("Hallo", text_at(&de, 0));
}

#[test]
fn a_missing_translation_is_a_consistency_failure() {
    let mut partial = Translations::new();
    partial.insert("Hello".to_string(), "Hola".to_string());
    match localize(&sample(), &partial) {
        Err(e) => assert_eq!(Failure::Consistency, e),
        Ok(_) => panic!("a translation is missing"),
    }
    let mut all = Localizations::new();
    all.insert("es".to_string(), spanish());
    all.insert("fr".to_string(), partial);
    match create_l10n_files(&all, &sample()) {
        Err(e) => assert_eq!(Failure::Consistency, e),
        Ok(_) => panic!("a translation is missing"),
    }
}

#[test]
fn a_translation_is_looked_up_by_the_string_itself() {
    let orig = lhm_from_template("{\"quote\": \"say \\\"hi\\\"\"}".as_bytes()).unwrap();
    let mut m = Translations::new();
    m.insert("say \"hi\"".to_string(), "di \"hola\"".to_string());
    let out = localize(&orig, &m).ok().unwrap();
    assert_eq!("di \"hola\"", text_at(&out, 0));
}

#[test]
fn file_names_carry_the_language() {
    assert_eq!("app_es.arb", file_name("es"));
    assert_eq!("app_pt-BR.arb", file_name("pt-BR"));
    assert_eq!("app_.arb", file_name(""));
}

#[test]
fn files_come_in_the_order_of_the_languages() {
    let mut german = Translations::new();
    german.insert("Hello".to_string(), "Hallo".to_string());
    german.insert("Goodbye".to_string(), "Tschüss".to_string());
    let mut all = Localizations::new();
    all.insert("es".to_string(), spanish());
    all.insert("de".to_string(), german);
    let files = create_l10n_files(&all, &sample()).ok().unwrap();
    assert_eq!(2, files.len());
    assert_eq!("app_es.arb", files[0].name);
    assert_eq!("app_de.arb", files[1].name);
    assert_eq!("Hola", text_at(&files[0].template, 0));
    assert_eq!("Tschüss", text_at(&files[1].template, 2));
    assert!(create_l10n_files(&Localizations::new(), &sample()).ok().unwrap().is_empty());
}

#[test]
fn rendering_is_indented_and_ordered() {
    let t = Template {
        entries: vec![
            TemplateEntry { key: "greeting".to_string(), value: TemplateValue::Text("Hola".to_string()) },
            TemplateEntry {
                key: "@greeting".to_string(),
                value: TemplateValue::Opaque(serde_json::Value::from(7)),
            },
        ],
    };
    assert_eq!(
        "{\n  \"greeting\": \"Hola\",\n  \"@greeting\": 7\n}",
        render_template(&t).unwrap()
    );
    let again = lhm_from_template(render_template(&sample()).unwrap().as_bytes()).unwrap();
    assert_eq!(5, again.entries.len());
    assert_eq!("Goodbye", text_at(&again, 2));
}

#[test]
fn string_lists() {
    let v = vec!["a".to_string(), "b".to_string()];
    assert!(contains_text(&v, &"b".to_string()));
    assert!(!contains_text(&v, &"c".to_string()));
    assert!(!contains_text(&Vec::new(), &"a".to_string()));
    assert_eq!(v, clone_texts(&v));
}

#[test]
fn a_repeated_key_is_read_once() {
    let t = lhm_from_template("{\"a\": \"x\", \"b\": 1, \"a\": \"y\"}".as_bytes()).unwrap();
    let keys: Vec<&str> = t.entries.iter().map(|e| e.key.as_str()).collect();
    assert_eq!(vec!["a", "b"], keys);
    assert_eq!("y", text_at(&t, 0));
}

#[test]
fn rendering_twice_gives_the_same_text() {
    let t = sample();
    let first = render_template(&t);
    let second = render_template(&t);
    assert!(first.is_ok());
    assert_eq!(first, second);
}
