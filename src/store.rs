//! The relational store (six relations and the tag catalog) and the reader
//! that turns its rows back into aggregates.
use vstd::prelude::*;
use crate::model::{copy_all, copy_text, Conjugation, Duplicate, Tag, Word};
use crate::relations::{
    by_language_desc, collect_for, collection, find_tag_id, sort_by_language_desc, tags_for, tags_for_ids,
    Child, WordRow,
};

verus! {

/// The contents of the store, each relation in its natural (insertion)
/// order.
pub struct Tables {
    pub words: Vec<WordRow>,
    pub translations: Vec<Child<crate::model::Translation>>,
    pub conjugations: Vec<Child<Conjugation>>,
    pub sentences: Vec<Child<crate::model::Sentence>>,
    pub notes: Vec<Child<String>>,
    pub tags: Vec<Tag>,
    pub word_tags: Vec<Child<i64>>,
}

/// Whether some word row has id `id`.
pub open spec fn has_word(words: Seq<WordRow>, id: i64) -> bool {
    exists|j: int| 0 <= j < words.len() && #[trigger] words[j].id == id
}

/// Whether every row of `rows` belongs to an existing word.
pub open spec fn owned_by_words<T>(rows: Seq<Child<T>>, words: Seq<WordRow>) -> bool {
    forall|i: int| 0 <= i < rows.len() ==> has_word(words, #[trigger] rows[i].word_id)
}

/// Whether some catalog tag has id `id`.
pub open spec fn has_tag(tags: Seq<Tag>, id: i64) -> bool {
    exists|j: int| 0 <= j < tags.len() && #[trigger] tags[j].id == id
}

/// Whether every decoded word-tag row refers to a catalog tag.
pub open spec fn refs_known(rows: Seq<Child<i64>>, tags: Seq<Tag>) -> bool {
    forall|i: int| 0 <= i < rows.len() && (#[trigger] rows[i]).body is Some ==> has_tag(tags, rows[i].body->0)
}

/// The conjugation read back for a word row: only verb kinds carry one, and
/// it is the first conjugation row of the word.
pub open spec fn conjugation_read(t: Tables, row: WordRow) -> Option<Conjugation> {
    let c = collection(t.conjugations@, row.id);
    if row.word_type.spec_is_verb() && c.len() > 0 {
        Some(c[0])
    } else {
        None
    }
}

/// Whether `e` is the aggregate that a read builds from word row `row`.
pub open spec fn entry_read(t: Tables, row: WordRow, e: Word) -> bool {
    &&& e.id == Some(row.id)
    &&& e.dutch_word == row.dutch_word
    &&& e.word_type == row.word_type
    &&& e.definite_article == row.definite_article
    &&& e.preposition == row.preposition
    &&& e.source == row.source
    &&& e.translations@ == by_language_desc(collection(t.translations@, row.id))
    &&& e.conjugation == conjugation_read(t, row)
    &&& e.sentences@ == collection(t.sentences@, row.id)
    &&& e.notes@ == collection(t.notes@, row.id)
    &&& e.tags@ == tags_for(t.tags@, collection(t.word_tags@, row.id))
}

/// Whether some word row has id `id`.
fn word_id_exists(words: &Vec<WordRow>, id: i64) -> (r: bool)
    ensures
        r == has_word(words@, id),
{
    let mut i: usize = 0;
    while i < words.len()
        invariant
            i <= words@.len(),
            forall|j: int| 0 <= j < i ==> (#[trigger] words@[j]).id != id,
        decreases words@.len() - i,
    {
        if words[i].id == id {
            return true;
        }
        i = i + 1;
    }
    false
}

/// Whether every row of `rows` belongs to an existing word.
fn all_owned<T>(rows: &Vec<Child<T>>, words: &Vec<WordRow>) -> (r: bool)
    ensures
        r == owned_by_words(rows@, words@),
{
    let mut i: usize = 0;
    while i < rows.len()
        invariant
            i <= rows@.len(),
            forall|j: int| 0 <= j < i ==> has_word(words@, #[trigger] rows@[j].word_id),
        decreases rows@.len() - i,
    {
        if !word_id_exists(words, rows[i].word_id) {
            return false;
        }
        i = i + 1;
    }
    true
}

/// Whether every decoded word-tag row refers to a catalog tag.
fn all_refs_known(rows: &Vec<Child<i64>>, tags: &Vec<Tag>) -> (r: bool)
    ensures
        r == refs_known(rows@, tags@),
{
    let mut i: usize = 0;
    while i < rows.len()
        invariant
            i <= rows@.len(),
            forall|j: int| 0 <= j < i && (#[trigger] rows@[j]).body is Some ==> has_tag(tags@, rows@[j].body->0),
        decreases rows@.len() - i,
    {
        match rows[i].body {
            Some(tid) => {
                match find_tag_id(tags, tid) {
                    Some(_) => {},
                    None => {
                        proof {
                            crate::save::lemma_tag_index(tags@, tid);
                        }
                        return false;
                    },
                }
            },
            None => {},
        }
        i = i + 1;
    }
    true
}

/// Whether word ids and headwords are pairwise distinct.
fn words_distinct(words: &Vec<WordRow>) -> (r: bool)
    ensures
        r == (forall|i: int, j: int|
            0 <= i < j < words@.len() ==> #[trigger] words@[i].id != #[trigger] words@[j].id
                && words@[i].dutch_word@ != words@[j].dutch_word@),
{
    let mut j: usize = 0;
    while j < words.len()
        invariant
            j <= words@.len(),
            forall|a: int, b: int|
                0 <= a < b < j ==> #[trigger] words@[a].id != #[trigger] words@[b].id
                    && words@[a].dutch_word@ != words@[b].dutch_word@,
        decreases words@.len() - j,
    {
        let mut i: usize = 0;
        while i < j
            invariant
                j < words@.len(),
                i <= j,
                forall|a: int, b: int|
                    0 <= a < b < j ==> #[trigger] words@[a].id != #[trigger] words@[b].id
                        && words@[a].dutch_word@ != words@[b].dutch_word@,
                forall|a: int|
                    0 <= a < i ==> #[trigger] words@[a].id != words@[j as int].id
                        && words@[a].dutch_word@ != words@[j as int].dutch_word@,
            decreases j - i,
        {
            if words[i].id == words[j].id || words[i].dutch_word == words[j].dutch_word {
                return false;
            }
            assert(words@[i as int].id != words@[j as int].id && words@[i as int].dutch_word@ != words@[j as int].dutch_word@);
            i = i + 1;
        }
        assert forall|a: int, b: int| 0 <= a < b < j + 1 implies #[trigger] words@[a].id != #[trigger] words@[b].id
            && words@[a].dutch_word@ != words@[b].dutch_word@ by {
            if b == j {
                assert(words@[a].id != words@[j as int].id);
            }
        }
        j = j + 1;
    }
    true
}

/// Whether tag ids and tag names are pairwise distinct.
fn tags_distinct(tags: &Vec<Tag>) -> (r: bool)
    ensures
        r == (forall|i: int, j: int|
            0 <= i < j < tags@.len() ==> #[trigger] tags@[i].id != #[trigger] tags@[j].id
                && tags@[i].name@ != tags@[j].name@),
{
    let mut j: usize = 0;
    while j < tags.len()
        invariant
            j <= tags@.len(),
            forall|a: int, b: int|
                0 <= a < b < j ==> #[trigger] tags@[a].id != #[trigger] tags@[b].id
                    && tags@[a].name@ != tags@[b].name@,
        decreases tags@.len() - j,
    {
        let mut i: usize = 0;
        while i < j
            invariant
                j < tags@.len(),
                i <= j,
                forall|a: int, b: int|
                    0 <= a < b < j ==> #[trigger] tags@[a].id != #[trigger] tags@[b].id
                        && tags@[a].name@ != tags@[b].name@,
                forall|a: int|
                    0 <= a < i ==> #[trigger] tags@[a].id != tags@[j as int].id
                        && tags@[a].name@ != tags@[j as int].name@,
            decreases j - i,
        {
            if tags[i].id == tags[j].id || tags[i].name == tags[j].name {
                return false;
            }
            assert(tags@[i as int].id != tags@[j as int].id && tags@[i as int].name@ != tags@[j as int].name@);
            i = i + 1;
        }
        assert forall|a: int, b: int| 0 <= a < b < j + 1 implies #[trigger] tags@[a].id != #[trigger] tags@[b].id
            && tags@[a].name@ != tags@[b].name@ by {
            if b == j {
                assert(tags@[a].id != tags@[j as int].id);
            }
        }
        j = j + 1;
    }
    true
}

impl Tables {
    /// The store's invariant: word ids and headwords are unique, every child
    /// row belongs to an existing word, every word-tag row refers to an
    /// existing tag, tag ids and tag names are unique.
    pub open spec fn wf(self) -> bool {
        &&& forall|i: int, j: int|
            0 <= i < j < self.words@.len() ==> #[trigger] self.words@[i].id != #[trigger] self.words@[j].id
                && self.words@[i].dutch_word@ != self.words@[j].dutch_word@
        &&& owned_by_words(self.translations@, self.words@)
        &&& owned_by_words(self.conjugations@, self.words@)
        &&& owned_by_words(self.sentences@, self.words@)
        &&& owned_by_words(self.notes@, self.words@)
        &&& owned_by_words(self.word_tags@, self.words@)
        &&& refs_known(self.word_tags@, self.tags@)
        &&& forall|i: int, j: int|
            0 <= i < j < self.tags@.len() ==> #[trigger] self.tags@[i].id != #[trigger] self.tags@[j].id
                && self.tags@[i].name@ != self.tags@[j].name@
    }

    /// Whether the store meets its invariant, as rows loaded from elsewhere
    /// must before a save.
    pub fn is_well_formed(&self) -> (r: bool)
        ensures
            r == self.wf(),
    {
        words_distinct(&self.words) && all_owned(&self.translations, &self.words) && all_owned(
            &self.conjugations,
            &self.words,
        ) && all_owned(&self.sentences, &self.words) && all_owned(&self.notes, &self.words)
            && all_owned(&self.word_tags, &self.words) && all_refs_known(&self.word_tags, &self.tags)
            && tags_distinct(&self.tags)
    }

    /// A store with no rows.
    pub fn new() -> (r: Tables)
        ensures
            r.wf(),
            r.words@.len() == 0,
            r.translations@.len() == 0,
            r.conjugations@.len() == 0,
            r.sentences@.len() == 0,
            r.notes@.len() == 0,
            r.tags@.len() == 0,
            r.word_tags@.len() == 0,
    {
        Tables {
            words: Vec::new(),
            translations: Vec::new(),
            conjugations: Vec::new(),
            sentences: Vec::new(),
            notes: Vec::new(),
            tags: Vec::new(),
            word_tags: Vec::new(),
        }
    }

    /// The aggregate of the `i`-th word row, with all of its children.
    pub fn read_entry(&self, i: usize) -> (r: Word)
        requires
            i < self.words@.len(),
        ensures
            entry_read(*self, self.words@[i as int], r),
    {
        let row = &self.words[i];
        let translations = collect_for(&self.translations, row.id);
        let conjugation = if row.word_type.is_verb() {
            let c = collect_for(&self.conjugations, row.id);
            if c.len() > 0 {
                Some(c[0].duplicate())
            } else {
                None
            }
        } else {
            None
        };
        let tag_ids = collect_for(&self.word_tags, row.id);
        Word {
            id: Some(row.id),
            dutch_word: row.dutch_word.clone(),
            word_type: row.word_type,
            definite_article: copy_text(&row.definite_article),
            preposition: copy_text(&row.preposition),
            source: copy_text(&row.source),
            translations: sort_by_language_desc(&translations),
            conjugation,
            sentences: collect_for(&self.sentences, row.id),
            notes: collect_for(&self.notes, row.id),
            tags: tags_for_ids(&self.tags, &tag_ids),
        }
    }

    /// Every entry of the store, one per word row, in word order.
    pub fn list_all_entries(&self) -> (r: Vec<Word>)
        ensures
            r@.len() == self.words@.len(),
            forall|i: int| 0 <= i < r@.len() ==> entry_read(*self, self.words@[i], #[trigger] r@[i]),
    {
        let mut r: Vec<Word> = Vec::new();
        let mut i: usize = 0;
        while i < self.words.len()
            invariant
                i <= self.words@.len(),
                r@.len() == i,
                forall|k: int| 0 <= k < i ==> entry_read(*self, self.words@[k], #[trigger] r@[k]),
            decreases self.words@.len() - i,
        {
            r.push(self.read_entry(i));
            i = i + 1;
        }
        r
    }

    /// The tag catalog, in catalog order.
    pub fn list_all_tags(&self) -> (r: Vec<Tag>)
        ensures
            r@ == self.tags@,
    {
        copy_all(&self.tags)
    }
}

} // verus!
