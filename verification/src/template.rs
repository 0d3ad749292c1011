//! The template: an ordered list of keyed entries, and its reconstruction
//! per language with the translated strings in place.

use vstd::prelude::*;
use vstd::string::*;
use crate::ordered::{Translations, Localizations, translation_pairs, localization_pairs, has_key,
    distinct_keys,
    value_of, keys_of, lemma_value_of, translations_get, localizations_get,
    localizations_keys};
use crate::text::{texts, is_metadata, is_metadata_key};

verus! {

/// A JSON value of `serde_json`, opaque to the verifier.
#[verifier::external_type_specification]
#[verifier::external_body]
pub struct ExJsonValue(serde_json::Value);

/// The error of `serde_json`, opaque to the verifier.
#[verifier::external_type_specification]
#[verifier::external_body]
pub struct ExJsonError(serde_json::Error);

/// `Clone` of `serde_json::Value`, which it derives: the copy equals the value copied.
pub assume_specification[ <serde_json::Value as Clone>::clone ](v: &serde_json::Value) -> (res:
    serde_json::Value)
    ensures
        res == *v,
;

/// What `serde_json::from_slice` makes of a text: the entries of the JSON
/// object that it holds, in the order in which they stand there, or nothing
/// where the text is no JSON object.
pub uninterp spec fn parsed_entries(bytes: Seq<u8>) -> Option<Seq<EntryView>>;

/// What `serde_json::to_string_pretty` makes of an object with these
/// entries: the text that it writes, or nothing where it reports an error.
pub uninterp spec fn rendered_text(entries: Seq<EntryView>) -> Option<Seq<char>>;

/// What a run can fail with.
#[derive(Clone, Copy, Debug, PartialEq, Eq)]
pub enum Failure {
    /// The provider failed, or answered with another number of strings than it was sent.
    Provider,
    /// A translatable string of the template has no translation.
    Consistency,
    /// A template could not be written as text.
    Serialization,
}

/// The value of a template entry.
pub enum TemplateValue {
    /// A string, translated unless its key marks it as metadata.
    Text(String),
    /// Any other value, never translated.
    Opaque(serde_json::Value),
}

/// A template value as plain data.
pub enum ValueView {
    Text(Seq<char>),
    Opaque(serde_json::Value),
}

/// A template entry as plain data: its key and its value.
pub type EntryView = (Seq<char>, ValueView);

impl View for TemplateValue {
    type V = ValueView;

    open spec fn view(&self) -> ValueView {
        match self {
            TemplateValue::Text(s) => ValueView::Text(s@),
            TemplateValue::Opaque(v) => ValueView::Opaque(*v),
        }
    }
}

/// One keyed entry of a template.
pub struct TemplateEntry {
    pub key: String,
    pub value: TemplateValue,
}

impl View for TemplateEntry {
    type V = EntryView;

    open spec fn view(&self) -> EntryView {
        (self.key@, self.value@)
    }
}

/// An ordered list of keyed entries.
pub struct Template {
    pub entries: Vec<TemplateEntry>,
}

impl View for Template {
    type V = Seq<EntryView>;

    open spec fn view(&self) -> Seq<EntryView> {
        Seq::new(self.entries@.len(), |i: int| self.entries@[i]@)
    }
}

/// The entries of an optional template.
pub open spec fn entries_of(t: Option<Template>) -> Option<Seq<EntryView>> {
    match t {
        Some(t) => Some(t@),
        None => None,
    }
}

/// The text of an optional rendering.
pub open spec fn text_of(r: Result<String, serde_json::Error>) -> Option<Seq<char>> {
    match r {
        Ok(s) => Some(s@),
        Err(_) => None,
    }
}

/// `serde_json::from_slice`, read as a `serde_json::Value`: the entries of the
/// object in the text, a string value as text and any other as it is; nothing
/// where the text does not parse or holds no object. A JSON object of
/// `serde_json` is a map, so no key stands in two entries.
#[verifier::external_body]
fn parse_object(bytes: &[u8]) -> (res: Option<Template>)
    ensures
        entries_of(res) == parsed_entries(bytes@),
        res matches Some(t) ==> distinct_keys(t@),
{
    let parsed: serde_json::Value = serde_json::from_slice(bytes).ok()?;
    let mut entries = Vec::new();
    for (k, v) in parsed.as_object()? {
        let value = match v {
            serde_json::Value::String(s) => TemplateValue::Text(s.clone()),
            other => TemplateValue::Opaque(other.clone()),
        };
        entries.push(TemplateEntry { key: k.clone(), value });
    }
    Some(Template { entries })
}

/// `serde_json::to_string_pretty` on the object with the template's entries:
/// the text that it writes, or the error that it reports.
#[verifier::external_body]
fn render_object(t: &Template) -> (res: Result<String, serde_json::Error>)
    ensures
        text_of(res) == rendered_text(t@),
{
    let mut object = serde_json::Map::new();
    for e in t.entries.iter() {
        let value = match &e.value {
            TemplateValue::Text(s) => serde_json::Value::String(s.clone()),
            TemplateValue::Opaque(v) => v.clone(),
        };
        object.insert(e.key.clone(), value);
    }
    serde_json::to_string_pretty(&object)
}

/// Reads a template from the text of a JSON object. Gives nothing where the
/// text is no JSON object. No key stands twice in the template read.
pub fn lhm_from_template(bytes: &[u8]) -> (res: Option<Template>)
    ensures
        entries_of(res) == parsed_entries(bytes@),
        res matches Some(t) ==> distinct_keys(t@),
{
    parse_object(bytes)
}

/// Writes a template as the indented text of a JSON object: the text that
/// the serializer writes for its entries. Fails where the serializer reports
/// an error, and only there.
pub fn render_template(t: &Template) -> (res: Result<String, Failure>)
    ensures
        res is Ok <==> rendered_text(t@) is Some,
        res matches Ok(text) ==> rendered_text(t@) == Some(text@),
        res matches Err(e) ==> e == Failure::Serialization,
{
    match render_object(t) {
        Ok(text) => Ok(text),
        Err(_) => Err(Failure::Serialization),
    }
}

/// Whether an entry is translated: its value is a string and its key is no
/// metadata key.
pub open spec fn translatable(e: EntryView) -> bool {
    !is_metadata(e.0) && e.1 is Text
}

/// The strings of the translatable entries, in the template's order.
pub open spec fn source_texts(entries: Seq<EntryView>) -> Seq<Seq<char>>
    decreases entries.len(),
{
    if entries.len() == 0 {
        Seq::empty()
    } else if translatable(entries.last()) {
        source_texts(entries.drop_last()).push(entries.last().1->Text_0)
    } else {
        source_texts(entries.drop_last())
    }
}

/// Whether `pairs` hold a translation for every translatable entry.
pub open spec fn localizable(entries: Seq<EntryView>, pairs: Seq<(Seq<char>, Seq<char>)>) -> bool {
    forall|i: int|
        0 <= i < entries.len() && translatable(#[trigger] entries[i]) ==> has_key(
            pairs,
            entries[i].1->Text_0,
        )
}

/// An entry with its string replaced by the translation, where it is translatable.
pub open spec fn localized_entry(e: EntryView, pairs: Seq<(Seq<char>, Seq<char>)>) -> EntryView {
    if translatable(e) {
        (e.0, ValueView::Text(value_of(pairs, e.1->Text_0)))
    } else {
        e
    }
}

/// The template for one language: the same keys in the same order, each
/// translatable string replaced by its translation.
pub open spec fn localized(entries: Seq<EntryView>, pairs: Seq<(Seq<char>, Seq<char>)>) -> Seq<EntryView> {
    Seq::new(entries.len(), |i: int| localized_entry(entries[i], pairs))
}

/// The name of the file that holds the template for `lang`.
pub open spec fn file_name_of(lang: Seq<char>) -> Seq<char> {
    "app_"@ + lang + ".arb"@
}

/// The keys of a per-language template are the template's keys, in the same order.
pub proof fn lemma_order_preserved(entries: Seq<EntryView>, pairs: Seq<(Seq<char>, Seq<char>)>)
    ensures
        keys_of(localized(entries, pairs)) == keys_of(entries),
{
    assert(keys_of(localized(entries, pairs)) =~= keys_of(entries));
}

/// A per-language template of a template without repeated keys has none.
pub proof fn lemma_keys_stay_distinct(entries: Seq<EntryView>, pairs: Seq<(Seq<char>, Seq<char>)>)
    requires
        distinct_keys(entries),
    ensures
        distinct_keys(localized(entries, pairs)),
{
    let out = localized(entries, pairs);
    assert forall|i: int, j: int| 0 <= i < j < out.len() implies (#[trigger] out[i]).0
        != (#[trigger] out[j]).0 by {
        assert(out[i].0 == entries[i].0);
        assert(out[j].0 == entries[j].0);
    }
}

/// A metadata entry stands unchanged in the template of every language.
pub proof fn lemma_metadata_passthrough(
    entries: Seq<EntryView>,
    first: Seq<(Seq<char>, Seq<char>)>,
    second: Seq<(Seq<char>, Seq<char>)>,
    i: int,
)
    requires
        0 <= i < entries.len(),
        is_metadata(entries[i].0),
    ensures
        localized(entries, first)[i] == entries[i],
        localized(entries, second)[i] == entries[i],
{
}

/// The template of one language, under the name of its file.
pub struct LocalizedFile {
    pub name: String,
    pub template: Template,
}

/// The name of the file that holds the template for `lang`.
pub fn file_name(lang: &str) -> (name: String)
    ensures
        name@ == file_name_of(lang@),
{
    let mut name = String::from_str("app_");
    name.append(lang);
    name.append(".arb");
    name
}

/// The strings of the template that are to be translated, in its order.
pub fn to_be_translated_words(m: &Template) -> (words: Vec<String>)
    ensures
        texts(words@) == source_texts(m@),
{
    let mut words: Vec<String> = Vec::new();
    let mut i: usize = 0;
    assert(m@.take(0) =~= Seq::<EntryView>::empty());
    assert(texts(words@) =~= Seq::<Seq<char>>::empty());
    while i < m.entries.len()
        invariant
            i <= m.entries.len(),
            m@.len() == m.entries.len(),
            texts(words@) == source_texts(m@.take(i as int)),
        decreases m.entries.len() - i,
    {
        let e = &m.entries[i];
        proof {
            let t = m@.take(i + 1);
            assert(t.last() == e@);
            assert(t.drop_last() =~= m@.take(i as int));
        }
        if !is_metadata_key(e.key.as_str()) {
            if let TemplateValue::Text(s) = &e.value {
                let ghost before = texts(words@);
                words.push(s.clone());
                assert(texts(words@) =~= before.push(s@));
            }
        }
        i += 1;
    }
    assert(m@.take(m.entries.len() as int) =~= m@);
    words
}

/// Rebuilds the template for one language. Fails where a translatable string
/// has no translation, and only there.
pub fn localize(orig: &Template, translations: &Translations) -> (res: Result<Template, Failure>)
    ensures
        res is Ok <==> localizable(orig@, translation_pairs(*translations)),
        res matches Ok(t) ==> t@ == localized(orig@, translation_pairs(*translations)),
        res matches Ok(t) ==> (distinct_keys(orig@) ==> distinct_keys(t@)),
        res matches Err(e) ==> e == Failure::Consistency,
{
    let ghost pairs = translation_pairs(*translations);
    proof {
        if distinct_keys(orig@) {
            lemma_keys_stay_distinct(orig@, pairs);
        }
    }
    let mut out: Vec<TemplateEntry> = Vec::new();
    let mut i: usize = 0;
    while i < orig.entries.len()
        invariant
            i <= orig.entries.len(),
            orig@.len() == orig.entries.len(),
            pairs == translation_pairs(*translations),
            out.len() == i,
            forall|j: int| 0 <= j < i ==> (#[trigger] out@[j])@ == localized_entry(orig@[j], pairs),
            forall|j: int|
                0 <= j < i && translatable(#[trigger] orig@[j]) ==> has_key(pairs, orig@[j].1->Text_0),
        decreases orig.entries.len() - i,
    {
        let e = &orig.entries[i];
        assert(orig@[i as int] == e@);
        let metadata = is_metadata_key(e.key.as_str());
        let value = match &e.value {
            TemplateValue::Text(s) => {
                if metadata {
                    TemplateValue::Text(s.clone())
                } else {
                    match translations_get(translations, s) {
                        Some(v) => {
                            proof {
                                lemma_value_of(pairs, s@, v@);
                            }
                            TemplateValue::Text(v.clone())
                        },
                        None => {
                            return Err(Failure::Consistency);
                        },
                    }
                }
            },
            TemplateValue::Opaque(v) => TemplateValue::Opaque(v.clone()),
        };
        out.push(TemplateEntry { key: e.key.clone(), value });
        i += 1;
    }
    let t = Template { entries: out };
    assert(t@ =~= localized(orig@, pairs));
    Ok(t)
}

/// Rebuilds the template for every language of `translations`, in their
/// order, each under the name of its file. Fails where some language lacks a
/// translation of a translatable string, and only there.
pub fn create_l10n_files(translations: &Localizations, orig: &Template) -> (res: Result<
    Vec<LocalizedFile>,
    Failure,
>)
    ensures
        res is Ok <==> (forall|j: int|
            0 <= j < localization_pairs(*translations).len() ==> localizable(
                orig@,
                (#[trigger] localization_pairs(*translations)[j]).1,
            )),
        res matches Ok(files) ==> files.len() == localization_pairs(*translations).len()
            && forall|j: int|
            0 <= j < files.len() ==> (#[trigger] files[j]).name@ == file_name_of(
                localization_pairs(*translations)[j].0,
            ) && files[j].template@ == localized(orig@, localization_pairs(*translations)[j].1),
        res matches Ok(files) ==> (distinct_keys(orig@) ==> forall|j: int|
            0 <= j < files.len() ==> distinct_keys((#[trigger] files[j]).template@)),
        res matches Err(e) ==> e == Failure::Consistency,
{
    let ghost outer = localization_pairs(*translations);
    let langs = localizations_keys(translations);
    let mut files: Vec<LocalizedFile> = Vec::new();
    let mut i: usize = 0;
    assert(langs.len() == outer.len()) by {
        assert(texts(langs@).len() == keys_of(outer).len());
    }
    while i < langs.len()
        invariant
            i <= langs.len(),
            langs.len() == outer.len(),
            outer == localization_pairs(*translations),
            texts(langs@) == keys_of(outer),
            files.len() == i,
            forall|j: int| 0 <= j < i ==> localizable(orig@, (#[trigger] outer[j]).1),
            forall|j: int|
                0 <= j < i ==> (#[trigger] files[j]).name@ == file_name_of(outer[j].0)
                    && files[j].template@ == localized(orig@, outer[j].1),
            forall|j: int|
                0 <= j < i && distinct_keys(orig@) ==> distinct_keys((#[trigger] files[j]).template@),
        decreases langs.len() - i,
    {
        let lang = &langs[i];
        assert(lang@ == outer[i as int].0) by {
            assert(texts(langs@)[i as int] == keys_of(outer)[i as int]);
        }
        match localizations_get(translations, lang) {
            Some(v) => {
                assert(outer[i as int].1 == translation_pairs(*v));
                match localize(orig, v) {
                    Ok(template) => {
                        files.push(LocalizedFile { name: file_name(lang.as_str()), template });
                    },
                    Err(e) => {
                        return Err(e);
                    },
                }
            },
            None => {
                assert(false);
                return Err(Failure::Consistency);
            },
        }
        i += 1;
    }
    Ok(files)
}

} // verus!
