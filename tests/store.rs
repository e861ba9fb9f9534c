use rusty_words::model::{
    Auxiliary, Conjugation, Sentence, StorageError, Tag, Translation, Word, WordType, NEW_TAG_ID,
};
use rusty_words::relations::Child;
use rusty_words::store::Tables;

fn s(x: &str) -> String {
    x.to_string()
}

fn bare(headword: &str, word_type: WordType) -> Word {
    Word {
        id: None,
        dutch_word: s(headword),
        word_type,
        definite_article: None,
        preposition: None,
        source: None,
        translations: vec![],
        conjugation: None,
        sentences: vec![],
        notes: vec![],
        tags: vec![],
    }
}

fn new_tag(name: &str) -> Tag {
    Tag { id: NEW_TAG_ID, name: s(name) }
}

fn tr(text: &str, language: &str) -> Translation {
    Translation { translation: s(text), language: s(language) }
}

fn conjugation() -> Conjugation {
    Conjugation {
        present_ik: s("loop"),
        present_jij: s("loopt"),
        present_u: s("loopt"),
        present_hij_zij_het: s("loopt"),
        present_plural: s("lopen"),
        imperfectum_singular: s("liep"),
        imperfectum_plural: s("liepen"),
        perfectum: Some(s("gelopen")),
        perfectum_auxiliary_verb: Some(Auxiliary::Hebben),
    }
}

fn full_noun() -> Word {
    let mut w = bare("huis", WordType::Noun);
    w.definite_article = Some(s("het"));
    w.source = Some(s("lesson 1"));
    w.translations = vec![tr("house", "en"), tr("بيت", "ar"), tr("maison", "fr"), tr("home", "en")];
    w.sentences = vec![Sentence { sentence: s("Het huis is groot."), meaning: s("The house is big.") }];
    w.notes = vec![s("neuter noun"), s("plural: huizen")];
    w.tags = vec![new_tag("A1"), new_tag("home")];
    w
}

#[test]
fn empty_catalog_lists_nothing() {
    let t = Tables::new();
    assert!(t.is_well_formed());
    assert_eq!(t.list_all_entries().len(), 0);
    assert_eq!(t.list_all_tags().len(), 0);
}

#[test]
fn round_trip_of_a_full_entry() {
    let mut t = Tables::new();
    let e = full_noun();
    assert_eq!(t.save_entry(&e), Ok(()));
    let all = t.list_all_entries();
    assert_eq!(all.len(), 1);
    let back = &all[0];
    assert_eq!(back.id, Some(1));
    assert_eq!(back.dutch_word, "huis");
    assert_eq!(back.word_type, WordType::Noun);
    assert_eq!(back.definite_article, Some(s("het")));
    assert_eq!(back.preposition, None);
    assert_eq!(back.source, Some(s("lesson 1")));
    let langs: Vec<&str> = back.translations.iter().map(|x| x.language.as_str()).collect();
    assert_eq!(langs, vec!["fr", "en", "en", "ar"]);
    let texts: Vec<&str> = back.translations.iter().map(|x| x.translation.as_str()).collect();
    assert_eq!(texts, vec!["maison", "house", "home", "بيت"]);
    assert!(back.conjugation.is_none());
    assert_eq!(back.sentences.len(), 1);
    assert_eq!(back.sentences[0].sentence, "Het huis is groot.");
    assert_eq!(back.sentences[0].meaning, "The house is big.");
    assert_eq!(back.notes, vec![s("neuter noun"), s("plural: huizen")]);
    assert_eq!(back.tags.len(), 2);
    assert_eq!(back.tags[0].name, "A1");
    assert_eq!(back.tags[1].name, "home");
    assert_eq!(back.tags[0].id, 1);
    assert_eq!(back.tags[1].id, 2);
    assert!(t.is_well_formed());
}

#[test]
fn verb_round_trip_keeps_conjugation() {
    let mut t = Tables::new();
    let mut e = bare("lopen", WordType::Verb);
    e.conjugation = Some(conjugation());
    assert_eq!(t.save_entry(&e), Ok(()));
    let back = &t.list_all_entries()[0];
    let c = back.conjugation.as_ref().unwrap();
    assert_eq!(c.present_ik, "loop");
    assert_eq!(c.imperfectum_plural, "liepen");
    assert_eq!(c.perfectum, Some(s("gelopen")));
    assert_eq!(c.perfectum_auxiliary_verb, Some(Auxiliary::Hebben));
}

#[test]
fn verb_without_conjugation_reads_back_none() {
    let mut t = Tables::new();
    assert_eq!(t.save_entry(&bare("zijn", WordType::SeparableVerb)), Ok(()));
    assert!(t.list_all_entries()[0].conjugation.is_none());
}

#[test]
fn bad_conjugation_leaves_store_untouched() {
    let mut t = Tables::new();
    assert_eq!(t.save_entry(&bare("kat", WordType::Noun)), Ok(()));
    let mut e = full_noun();
    e.word_type = WordType::Verb;
    let mut c = conjugation();
    c.present_plural = s("");
    e.conjugation = Some(c);
    assert_eq!(t.save_entry(&e), Err(StorageError::ConstraintViolation));
    assert_eq!(t.words.len(), 1);
    assert_eq!(t.translations.len(), 0);
    assert_eq!(t.conjugations.len(), 0);
    assert_eq!(t.sentences.len(), 0);
    assert_eq!(t.notes.len(), 0);
    assert_eq!(t.tags.len(), 0);
    assert_eq!(t.word_tags.len(), 0);
    assert_eq!(t.list_all_entries().len(), 1);
}

#[test]
fn tag_named_twice_is_created_once() {
    let mut t = Tables::new();
    let mut a = bare("huis", WordType::Noun);
    a.tags = vec![new_tag("A1")];
    let mut b = bare("kat", WordType::Noun);
    b.tags = vec![new_tag("A1")];
    assert_eq!(t.save_entry(&a), Ok(()));
    assert_eq!(t.save_entry(&b), Ok(()));
    let tags = t.list_all_tags();
    assert_eq!(tags.len(), 1);
    assert_eq!(tags[0].name, "A1");
    assert_eq!(t.word_tags.len(), 2);
    assert_eq!(t.word_tags[0].body, Some(tags[0].id));
    assert_eq!(t.word_tags[1].body, Some(tags[0].id));
    let all = t.list_all_entries();
    assert_eq!(all[0].tags[0].name, "A1");
    assert_eq!(all[1].tags[0].name, "A1");
}

#[test]
fn duplicate_headword_is_refused() {
    let mut t = Tables::new();
    assert_eq!(t.save_entry(&bare("huis", WordType::Noun)), Ok(()));
    let mut again = bare("huis", WordType::Adjective);
    again.notes = vec![s("second")];
    assert_eq!(t.save_entry(&again), Err(StorageError::ConstraintViolation));
    let all = t.list_all_entries();
    assert_eq!(all.len(), 1);
    assert_eq!(all[0].dutch_word, "huis");
    assert_eq!(all[0].word_type, WordType::Noun);
    assert_eq!(t.notes.len(), 0);
}

#[test]
fn headword_uniqueness_is_case_sensitive() {
    let mut t = Tables::new();
    assert_eq!(t.save_entry(&bare("huis", WordType::Noun)), Ok(()));
    assert_eq!(t.save_entry(&bare("Huis", WordType::Noun)), Ok(()));
    assert_eq!(t.list_all_entries().len(), 2);
}

#[test]
fn noun_with_conjugation_is_stored() {
    let mut t = Tables::new();
    let mut e = bare("huis", WordType::Noun);
    e.conjugation = Some(conjugation());
    assert_eq!(t.save_entry(&e), Ok(()));
    assert_eq!(t.conjugations.len(), 1);
    assert_eq!(t.conjugations[0].word_id, 1);
    assert_eq!(t.conjugations[0].body.as_ref().unwrap().present_ik, "loop");
    assert!(t.list_all_entries()[0].conjugation.is_none());
}

#[test]
fn blank_texts_are_refused() {
    let mut t = Tables::new();
    assert_eq!(t.save_entry(&bare("", WordType::Noun)), Err(StorageError::ConstraintViolation));
    let mut e = bare("huis", WordType::Noun);
    e.translations = vec![tr("house", "")];
    assert_eq!(t.save_entry(&e), Err(StorageError::ConstraintViolation));
    let mut e = bare("huis", WordType::Noun);
    e.sentences = vec![Sentence { sentence: s("x"), meaning: s("") }];
    assert_eq!(t.save_entry(&e), Err(StorageError::ConstraintViolation));
    let mut e = bare("huis", WordType::Noun);
    e.notes = vec![s("")];
    assert_eq!(t.save_entry(&e), Err(StorageError::ConstraintViolation));
    let mut e = bare("huis", WordType::Noun);
    e.tags = vec![new_tag("")];
    assert_eq!(t.save_entry(&e), Err(StorageError::ConstraintViolation));
    assert_eq!(t.words.len(), 0);
}

#[test]
fn unknown_tag_id_is_not_found() {
    let mut t = Tables::new();
    let mut e = bare("huis", WordType::Noun);
    e.tags = vec![Tag { id: 7, name: s("B2") }];
    assert_eq!(t.save_entry(&e), Err(StorageError::NotFound));
    assert_eq!(t.words.len(), 0);
}

#[test]
fn existing_tag_is_used_by_id() {
    let mut t = Tables::new();
    let mut a = bare("huis", WordType::Noun);
    a.tags = vec![new_tag("A1"), new_tag("B1")];
    assert_eq!(t.save_entry(&a), Ok(()));
    let mut b = bare("kat", WordType::Noun);
    b.tags = vec![Tag { id: 2, name: s("B1") }, new_tag("C1")];
    assert_eq!(t.save_entry(&b), Ok(()));
    assert_eq!(t.list_all_tags().len(), 3);
    let back = &t.list_all_entries()[1];
    assert_eq!(back.tags.len(), 2);
    assert_eq!(back.tags[0].id, 2);
    assert_eq!(back.tags[0].name, "B1");
    assert_eq!(back.tags[1].id, 3);
    assert_eq!(back.tags[1].name, "C1");
}

#[test]
fn same_tag_twice_in_one_entry_is_refused() {
    let mut t = Tables::new();
    let mut a = bare("huis", WordType::Noun);
    a.tags = vec![new_tag("A1")];
    assert_eq!(t.save_entry(&a), Ok(()));
    let mut b = bare("kat", WordType::Noun);
    b.tags = vec![Tag { id: 1, name: s("A1") }, new_tag("A1")];
    assert_eq!(t.save_entry(&b), Err(StorageError::ConstraintViolation));
    let mut c = bare("kat", WordType::Noun);
    c.tags = vec![new_tag("X"), new_tag("X")];
    assert_eq!(t.save_entry(&c), Err(StorageError::ConstraintViolation));
    assert_eq!(t.words.len(), 1);
    assert_eq!(t.tags.len(), 1);
}

#[test]
fn exhausted_word_ids_are_a_storage_fault() {
    let mut t = Tables::new();
    t.words.push(rusty_words::relations::WordRow {
        id: i64::MAX,
        dutch_word: s("laatste"),
        word_type: WordType::NotGiven,
        definite_article: None,
        preposition: None,
        source: None,
    });
    assert!(t.is_well_formed());
    assert_eq!(t.save_entry(&bare("huis", WordType::Noun)), Err(StorageError::ConnectivityFault));
    assert_eq!(t.words.len(), 1);
}

#[test]
fn malformed_child_row_empties_only_that_collection() {
    let mut t = Tables::new();
    let e = full_noun();
    assert_eq!(t.save_entry(&e), Ok(()));
    t.sentences.push(Child { word_id: 1, body: None });
    assert!(t.is_well_formed());
    let back = &t.list_all_entries()[0];
    assert_eq!(back.sentences.len(), 0);
    assert_eq!(back.translations.len(), 4);
    assert_eq!(back.notes.len(), 2);
    assert_eq!(back.tags.len(), 2);
}

#[test]
fn orphan_rows_break_well_formedness() {
    let mut t = Tables::new();
    t.notes.push(Child { word_id: 5, body: Some(s("lost")) });
    assert!(!t.is_well_formed());
}

#[test]
fn children_attach_to_their_own_entry() {
    let mut t = Tables::new();
    let mut a = bare("huis", WordType::Noun);
    a.notes = vec![s("a")];
    let mut b = bare("kat", WordType::Noun);
    b.notes = vec![s("b1"), s("b2")];
    assert_eq!(t.save_entry(&a), Ok(()));
    assert_eq!(t.save_entry(&b), Ok(()));
    let all = t.list_all_entries();
    assert_eq!(all[0].notes, vec![s("a")]);
    assert_eq!(all[1].notes, vec![s("b1"), s("b2")]);
    assert_eq!(all[1].id, Some(2));
}

#[test]
fn word_type_names_round_trip() {
    let kinds = [
        WordType::Noun,
        WordType::Verb,
        WordType::SeparableVerb,
        WordType::Adjective,
        WordType::Adverb,
        WordType::Pronoun,
        WordType::Preposition,
        WordType::Conjunction,
        WordType::Interjection,
        WordType::NotGiven,
    ];
    for k in kinds {
        assert_eq!(WordType::parse(&k.name()), Some(k));
    }
    assert_eq!(WordType::SeparableVerb.name(), "separable verb");
    assert_eq!(WordType::parse("Noun"), None);
    assert_eq!(WordType::parse(""), None);
    assert!(WordType::Verb.is_verb());
    assert!(!WordType::Adverb.is_verb());
}

#[test]
fn auxiliary_names_round_trip() {
    assert_eq!(Auxiliary::parse("hebben"), Some(Auxiliary::Hebben));
    assert_eq!(Auxiliary::parse("zijn"), Some(Auxiliary::Zijn));
    assert_eq!(Auxiliary::parse("have"), None);
    assert_eq!(Auxiliary::Zijn.name(), "zijn");
}

#[test]
fn error_messages_are_descriptive() {
    assert_eq!(StorageError::ConstraintViolation.message(), "constraint violation");
    assert!(!StorageError::NotFound.message().is_empty());
    assert!(!StorageError::ConnectivityFault.message().is_empty());
    assert!(!StorageError::MalformedRow.message().is_empty());
}

#[test]
fn dangling_tag_reference_breaks_well_formedness() {
    let mut t = Tables::new();
    assert_eq!(t.save_entry(&bare("huis", WordType::Noun)), Ok(()));
    t.word_tags.push(Child { word_id: 1, body: Some(9) });
    assert!(!t.is_well_formed());
}

#[test]
fn saving_leaves_earlier_entries_as_they_read() {
    let mut t = Tables::new();
    let e = full_noun();
    assert_eq!(t.save_entry(&e), Ok(()));
    let before = t.list_all_entries();
    let mut other = bare("kat", WordType::Noun);
    other.notes = vec![s("c")];
    other.tags = vec![new_tag("A1"), new_tag("dier")];
    assert_eq!(t.save_entry(&other), Ok(()));
    let after = t.list_all_entries();
    assert_eq!(after.len(), 2);
    assert_eq!(after[0].notes, before[0].notes);
    assert_eq!(after[0].tags.len(), before[0].tags.len());
    assert_eq!(after[0].translations.len(), before[0].translations.len());
    assert_eq!(after[1].tags[0].id, 1);
    assert_eq!(after[1].tags[1].id, 3);
}
