use f10n::cache::Cache;

fn strings(items: &[&str]) -> Vec<String> {
    items.iter().map(|s| s.to_string()).collect()
}

#[test]
fn test_insert_cache() {
    let mut c = Cache::new();
    c.add_to_cache("hello", "en", "hello");
    c.add_to_cache("hello", "es", "hola");

    assert_eq!("hola".to_string(), c.find_cache_content("hello", "es"));
}

#[test]
fn test_get_untrans() {
    let mut c = Cache::new();
    c.add_to_cache("hello", "en", "hello");
    c.add_to_cache("hello", "es", "hola");

    let res = c.get_untranslated_translated("fr", vec!["hello".to_string()]);
    assert_eq!(1, res.0.len());
}

#[test]
fn lookup_of_a_missing_entry_is_empty() {
    let mut c = Cache::new();
    assert_eq!("", c.find_cache_content("hello", "es"));
    c.add_to_cache("hello", "es", "hola");
    assert_eq!("", c.find_cache_content("hello", "fr"));
    assert_eq!("", c.find_cache_content("bye", "es"));
    // language and source are two parts of the key, not one joined text
    c.add_to_cache("b_c", "a", "first");
    assert_eq!("", c.find_cache_content("c", "a_b"));
}

#[test]
fn first_write_wins() {
    let mut c = Cache::new();
    c.add_to_cache("hello", "es", "hola");
    c.add_to_cache("hello", "es", "buenas");
    assert_eq!("hola", c.find_cache_content("hello", "es"));
    assert_eq!(1, c.len());
    assert_eq!("es", c.entry(0).lang);
    assert_eq!("hello", c.entry(0).source);
    assert_eq!("hola", c.entry(0).translated);
}

#[test]
fn empty_translation_counts_as_absent() {
    let mut c = Cache::new();
    c.add_to_cache("hello", "es", "");
    assert_eq!("", c.find_cache_content("hello", "es"));
    assert_eq!(0, c.len());
    let parts = c.get_untranslated_translated("es", strings(&["hello"]));
    assert_eq!(strings(&["hello"]), parts.0);
    c.add_to_cache("hello", "es", "hola");
    assert_eq!("hola", c.find_cache_content("hello", "es"));
}

#[test]
fn partition_keeps_first_appearance_order() {
    let mut c = Cache::new();
    c.add_to_cache("b", "de", "B");
    c.add_to_cache("d", "de", "D");
    let parts = c.get_untranslated_translated("de", strings(&["e", "d", "a", "b", "a", "d", "c", "e"]));
    assert_eq!(strings(&["e", "a", "c"]), parts.0);
    let resolved: Vec<(String, String)> =
        parts.1.iter().map(|(k, v)| (k.clone(), v.clone())).collect();
    assert_eq!(
        vec![("d".to_string(), "D".to_string()), ("b".to_string(), "B".to_string())],
        resolved
    );
}

#[test]
fn partition_covers_the_input_without_overlap() {
    let mut c = Cache::new();
    c.add_to_cache("one", "it", "uno");
    c.add_to_cache("three", "it", "tre");
    c.add_to_cache("two", "fr", "deux");
    let input = strings(&["one", "two", "three", "two", "four"]);
    let parts = c.get_untranslated_translated("it", input.clone());
    for s in input.iter() {
        let needed = parts.0.contains(s);
        let held = parts.1.contains_key(s);
        assert!(needed != held);
    }
    for s in parts.0.iter() {
        assert!(input.contains(s));
    }
    for (k, v) in parts.1.iter() {
        assert!(input.contains(k));
        assert_eq!(c.find_cache_content(k, "it"), *v);
    }
    assert_eq!(2, parts.0.len());
    assert_eq!(2, parts.1.len());
}

#[test]
fn partition_of_nothing_is_empty() {
    let c = Cache::new();
    let parts = c.get_untranslated_translated("es", Vec::new());
    assert!(parts.0.is_empty());
    assert!(parts.1.is_empty());
}
