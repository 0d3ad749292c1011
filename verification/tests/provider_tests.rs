use f10n::provider::{first_language, translated_texts};

#[test]
fn the_first_detected_language_counts() {
    let found = vec![Some("de".to_string()), Some("en".to_string())];
    assert_eq!("de", first_language(Some(found)));
    assert_eq!("", first_language(Some(vec![None, Some("en".to_string())])));
    assert_eq!("", first_language(Some(Vec::new())));
    assert_eq!("", first_language(None));
}

#[test]
fn translated_strings_keep_their_order() {
    let given = vec![Some("Suche".to_string()), Some("Keine Artikel verfügbar".to_string())];
    assert_eq!(
        Some(vec!["Suche".to_string(), "Keine Artikel verfügbar".to_string()]),
        translated_texts(Some(given))
    );
    assert_eq!(Some(Vec::new()), translated_texts(None));
    assert_eq!(Some(Vec::new()), translated_texts(Some(Vec::new())));
    assert_eq!(None, translated_texts(Some(vec![Some("Suche".to_string()), None])));
}
