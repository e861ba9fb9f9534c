//! The writer: one entry and all of its children, stored all or nothing.
use vstd::prelude::*;
use crate::model::{
    copy_text, Conjugation, Duplicate, Sentence, StorageError, Tag, Translation, Word, NEW_TAG_ID,
};
use crate::relations::{find_tag_id, find_tag_name, name_index, tag_index, Child, WordRow};
use crate::store::{has_tag, has_word, owned_by_words, Tables};

verus! {

pub open spec fn text_ok(s: String) -> bool {
    s@.len() > 0
}

pub open spec fn translation_ok(t: Translation) -> bool {
    text_ok(t.translation) && text_ok(t.language)
}

pub open spec fn conjugation_ok(c: Conjugation) -> bool {
    &&& text_ok(c.present_ik)
    &&& text_ok(c.present_jij)
    &&& text_ok(c.present_u)
    &&& text_ok(c.present_hij_zij_het)
    &&& text_ok(c.present_plural)
    &&& text_ok(c.imperfectum_singular)
    &&& text_ok(c.imperfectum_plural)
}

pub open spec fn sentence_ok(s: Sentence) -> bool {
    text_ok(s.sentence) && text_ok(s.meaning)
}

/// The NOT NULL and CHECK constraints of the schema, on one entry: required
/// texts are non-empty, and so is the name of each tag to be created.
pub open spec fn entry_ok(e: Word) -> bool {
    &&& text_ok(e.dutch_word)
    &&& forall|i: int| 0 <= i < e.translations@.len() ==> translation_ok(#[trigger] e.translations@[i])
    &&& (e.conjugation matches Some(c) ==> conjugation_ok(c))
    &&& forall|i: int| 0 <= i < e.sentences@.len() ==> sentence_ok(#[trigger] e.sentences@[i])
    &&& forall|i: int| 0 <= i < e.notes@.len() ==> text_ok(#[trigger] e.notes@[i])
    &&& forall|i: int|
        0 <= i < e.tags@.len() && (#[trigger] e.tags@[i]).id == NEW_TAG_ID ==> text_ok(e.tags@[i].name)
}

/// Whether some word row already has headword `h`.
pub open spec fn headword_taken(words: Seq<WordRow>, h: Seq<char>) -> bool {
    exists|i: int| 0 <= i < words.len() && #[trigger] words[i].dutch_word@ == h
}

/// The largest word id, or 0 for no words.
pub open spec fn max_word_id(words: Seq<WordRow>) -> i64
    decreases words.len(),
{
    if words.len() == 0 {
        0
    } else {
        let m = max_word_id(words.drop_last());
        if words.last().id > m {
            words.last().id
        } else {
            m
        }
    }
}

/// The largest tag id, or 0 for no tags.
pub open spec fn max_tag_id(tags: Seq<Tag>) -> i64
    decreases tags.len(),
{
    if tags.len() == 0 {
        0
    } else {
        let m = max_tag_id(tags.drop_last());
        if tags.last().id > m {
            tags.last().id
        } else {
            m
        }
    }
}

/// No id is left for the new word, or for as many new tags as `e` names.
pub open spec fn ids_exhausted(t: Tables, e: Word) -> bool {
    max_word_id(t.words@) == i64::MAX || max_tag_id(t.tags@) + e.tags@.len() > i64::MAX
}

/// Some tag of `tags` refers by id to a tag that the catalog lacks.
pub open spec fn missing_tag(cat: Seq<Tag>, tags: Seq<Tag>) -> bool {
    exists|k: int|
        0 <= k < tags.len() && (#[trigger] tags[k]).id != NEW_TAG_ID && tag_index(cat, tags[k].id) is None
}

/// Whether two tag references of one entry resolve to the same tag.
pub open spec fn same_target(cat: Seq<Tag>, a: Tag, b: Tag) -> bool {
    if a.id != NEW_TAG_ID && b.id != NEW_TAG_ID {
        a.id == b.id
    } else if a.id == NEW_TAG_ID && b.id == NEW_TAG_ID {
        a.name@ == b.name@
    } else if a.id != NEW_TAG_ID {
        tag_index(cat, a.id) matches Some(i) && cat[i].name@ == b.name@
    } else {
        tag_index(cat, b.id) matches Some(i) && cat[i].name@ == a.name@
    }
}

/// Two tag references of one entry resolve to the same tag, which the
/// word-tag primary key forbids.
pub open spec fn repeated_tag(cat: Seq<Tag>, tags: Seq<Tag>) -> bool {
    exists|j: int, k: int| 0 <= j < k < tags.len() && same_target(cat, #[trigger] tags[j], #[trigger] tags[k])
}

/// Whether `save_entry` stores `e` into `t`.
pub open spec fn save_allowed(t: Tables, e: Word) -> bool {
    &&& entry_ok(e)
    &&& !headword_taken(t.words@, e.dutch_word@)
    &&& !ids_exhausted(t, e)
    &&& !missing_tag(t.tags@, e.tags@)
    &&& !repeated_tag(t.tags@, e.tags@)
}

/// The error of `save_entry` on a store and an entry that it refuses.
pub open spec fn save_error(t: Tables, e: Word) -> StorageError {
    if !entry_ok(e) || headword_taken(t.words@, e.dutch_word@) {
        StorageError::ConstraintViolation
    } else if ids_exhausted(t, e) {
        StorageError::ConnectivityFault
    } else if missing_tag(t.tags@, e.tags@) {
        StorageError::NotFound
    } else {
        StorageError::ConstraintViolation
    }
}

/// The word row stored for `e` under id `id`.
pub open spec fn row_of(e: Word, id: i64) -> WordRow {
    WordRow {
        id,
        dutch_word: e.dutch_word,
        word_type: e.word_type,
        definite_article: e.definite_article,
        preposition: e.preposition,
        source: e.source,
    }
}

/// The rows of a child relation that hold `s` for entry `id`.
pub open spec fn children<T>(s: Seq<T>, id: i64) -> Seq<Child<T>> {
    s.map_values(|x: T| Child { word_id: id, body: Some(x) })
}

/// Tag `t` of an entry resolves to tag id `id` in catalog `all`.
pub open spec fn resolves(all: Seq<Tag>, t: Tag, id: i64) -> bool {
    exists|i: int|
        0 <= i < all.len() && #[trigger] all[i].id == id && (t.id == NEW_TAG_ID ==> all[i].name@
            == t.name@) && (t.id != NEW_TAG_ID ==> id == t.id)
}

/// `created` are the tags that a save adds to catalog `cat` for the tag
/// references `tags`: fresh ascending ids, distinct names not yet in the
/// catalog, each the name of a reference to a new tag.
pub open spec fn created_tags(cat: Seq<Tag>, created: Seq<Tag>, tags: Seq<Tag>) -> bool {
    &&& forall|m: int| 0 <= m < created.len() ==> #[trigger] created[m].id == max_tag_id(cat) + 1 + m
    &&& forall|m: int| 0 <= m < created.len() ==> name_index(cat, #[trigger] created[m].name@) is None
    &&& forall|m1: int, m2: int|
        0 <= m1 < m2 < created.len() ==> #[trigger] created[m1].name@ != #[trigger] created[m2].name@
    &&& forall|m: int| 0 <= m < created.len() ==> new_tag_named(tags, #[trigger] created[m].name@)
}

/// Some reference of `tags` asks for a new tag named `name`.
pub open spec fn new_tag_named(tags: Seq<Tag>, name: Seq<char>) -> bool {
    exists|k: int| 0 <= k < tags.len() && (#[trigger] tags[k]).id == NEW_TAG_ID && tags[k].name@ == name
}

/// What a successful save of `e` makes of store `old`: the word row under
/// the next id, every child appended in input order, new tags appended to the
/// catalog, and one word-tag row per tag reference, in input order.
pub open spec fn saved(old: Tables, new: Tables, e: Word) -> bool {
    let id = (max_word_id(old.words@) + 1) as i64;
    let n = old.tags@.len();
    let m = old.word_tags@.len();
    &&& new.words@ == old.words@.push(row_of(e, id))
    &&& new.translations@ == old.translations@ + children(e.translations@, id)
    &&& new.conjugations@ == old.conjugations@ + match e.conjugation {
        Some(c) => seq![Child { word_id: id, body: Some(c) }],
        None => Seq::<Child<Conjugation>>::empty(),
    }
    &&& new.sentences@ == old.sentences@ + children(e.sentences@, id)
    &&& new.notes@ == old.notes@ + children(e.notes@, id)
    &&& n <= new.tags@.len()
    &&& new.tags@.take(n as int) == old.tags@
    &&& created_tags(old.tags@, new.tags@.skip(n as int), e.tags@)
    &&& new.word_tags@.len() == m + e.tags@.len()
    &&& new.word_tags@.take(m as int) == old.word_tags@
    &&& forall|k: int|
        0 <= k < e.tags@.len() ==> {
            let c = #[trigger] new.word_tags@[m + k];
            c.word_id == id && c.body is Some && resolves(new.tags@, e.tags@[k], c.body->0)
        }
}

pub proof fn lemma_max_word_id(words: Seq<WordRow>)
    ensures
        max_word_id(words) >= 0,
        forall|i: int| 0 <= i < words.len() ==> (#[trigger] words[i]).id <= max_word_id(words),
    decreases words.len(),
{
    if words.len() > 0 {
        lemma_max_word_id(words.drop_last());
        assert forall|i: int| 0 <= i < words.len() implies (#[trigger] words[i]).id <= max_word_id(
            words,
        ) by {
            if i < words.len() - 1 {
                assert(words.drop_last()[i] == words[i]);
            }
        }
    }
}

pub proof fn lemma_max_tag_id(tags: Seq<Tag>)
    ensures
        max_tag_id(tags) >= 0,
        forall|i: int| 0 <= i < tags.len() ==> (#[trigger] tags[i]).id <= max_tag_id(tags),
    decreases tags.len(),
{
    if tags.len() > 0 {
        lemma_max_tag_id(tags.drop_last());
        assert forall|i: int| 0 <= i < tags.len() implies (#[trigger] tags[i]).id <= max_tag_id(
            tags,
        ) by {
            if i < tags.len() - 1 {
                assert(tags.drop_last()[i] == tags[i]);
            }
        }
    }
}

pub proof fn lemma_tag_index(cat: Seq<Tag>, id: i64)
    ensures
        tag_index(cat, id) matches Some(i) ==> 0 <= i < cat.len() && cat[i].id == id,
        tag_index(cat, id) is None ==> forall|i: int| 0 <= i < cat.len() ==> (#[trigger] cat[i]).id != id,
    decreases cat.len(),
{
    if cat.len() > 0 {
        lemma_tag_index(cat.drop_last(), id);
        assert forall|i: int| 0 <= i < cat.len() - 1 implies (#[trigger] cat[i]) == cat.drop_last()[i] by {}
    }
}

pub proof fn lemma_name_index(cat: Seq<Tag>, name: Seq<char>)
    ensures
        name_index(cat, name) matches Some(i) ==> 0 <= i < cat.len() && cat[i].name@ == name,
        name_index(cat, name) is None ==> forall|i: int| 0 <= i < cat.len() ==> (#[trigger] cat[i]).name@ != name,
    decreases cat.len(),
{
    if cat.len() > 0 {
        lemma_name_index(cat.drop_last(), name);
        assert forall|i: int| 0 <= i < cat.len() - 1 implies (#[trigger] cat[i]) == cat.drop_last()[i] by {}
    }
}

fn is_blank(s: &String) -> (r: bool)
    ensures
        r == (s@.len() == 0),
{
    s.as_str().is_empty()
}

fn conjugation_is_valid(c: &Conjugation) -> (r: bool)
    ensures
        r == conjugation_ok(*c),
{
    !is_blank(&c.present_ik) && !is_blank(&c.present_jij) && !is_blank(&c.present_u)
        && !is_blank(&c.present_hij_zij_het) && !is_blank(&c.present_plural)
        && !is_blank(&c.imperfectum_singular) && !is_blank(&c.imperfectum_plural)
}

/// Whether `e` meets the schema's NOT NULL and CHECK constraints.
pub fn entry_is_valid(e: &Word) -> (r: bool)
    ensures
        r == entry_ok(*e),
{
    if is_blank(&e.dutch_word) {
        return false;
    }
    let mut i: usize = 0;
    while i < e.translations.len()
        invariant
            i <= e.translations@.len(),
            forall|j: int| 0 <= j < i ==> translation_ok(#[trigger] e.translations@[j]),
        decreases e.translations@.len() - i,
    {
        let t = &e.translations[i];
        if is_blank(&t.translation) || is_blank(&t.language) {
            return false;
        }
        i = i + 1;
    }
    match &e.conjugation {
        Some(c) => {
            if !conjugation_is_valid(c) {
                return false;
            }
        },
        None => {},
    }
    let mut i: usize = 0;
    while i < e.sentences.len()
        invariant
            i <= e.sentences@.len(),
            forall|j: int| 0 <= j < i ==> sentence_ok(#[trigger] e.sentences@[j]),
        decreases e.sentences@.len() - i,
    {
        let s = &e.sentences[i];
        if is_blank(&s.sentence) || is_blank(&s.meaning) {
            return false;
        }
        i = i + 1;
    }
    let mut i: usize = 0;
    while i < e.notes.len()
        invariant
            i <= e.notes@.len(),
            forall|j: int| 0 <= j < i ==> text_ok(#[trigger] e.notes@[j]),
        decreases e.notes@.len() - i,
    {
        if is_blank(&e.notes[i]) {
            return false;
        }
        i = i + 1;
    }
    let mut i: usize = 0;
    while i < e.tags.len()
        invariant
            i <= e.tags@.len(),
            forall|j: int|
                0 <= j < i && (#[trigger] e.tags@[j]).id == NEW_TAG_ID ==> text_ok(e.tags@[j].name),
        decreases e.tags@.len() - i,
    {
        if e.tags[i].id == NEW_TAG_ID && is_blank(&e.tags[i].name) {
            return false;
        }
        i = i + 1;
    }
    true
}

/// Whether some word row has headword `h`.
fn headword_in_use(words: &Vec<WordRow>, h: &String) -> (r: bool)
    ensures
        r == headword_taken(words@, h@),
{
    let mut i: usize = 0;
    while i < words.len()
        invariant
            i <= words@.len(),
            forall|j: int| 0 <= j < i ==> (#[trigger] words@[j]).dutch_word@ != h@,
        decreases words@.len() - i,
    {
        if words[i].dutch_word == *h {
            return true;
        }
        i = i + 1;
    }
    false
}

fn largest_word_id(words: &Vec<WordRow>) -> (r: i64)
    ensures
        r == max_word_id(words@),
{
    let mut m: i64 = 0;
    let mut i: usize = 0;
    while i < words.len()
        invariant
            i <= words@.len(),
            m == max_word_id(words@.take(i as int)),
        decreases words@.len() - i,
    {
        assert(words@.take(i + 1).drop_last() =~= words@.take(i as int));
        if words[i].id > m {
            m = words[i].id;
        }
        i = i + 1;
    }
    assert(words@.take(words@.len() as int) =~= words@);
    m
}

fn largest_tag_id(tags: &Vec<Tag>) -> (r: i64)
    ensures
        r == max_tag_id(tags@),
{
    let mut m: i64 = 0;
    let mut i: usize = 0;
    while i < tags.len()
        invariant
            i <= tags@.len(),
            m == max_tag_id(tags@.take(i as int)),
        decreases tags@.len() - i,
    {
        assert(tags@.take(i + 1).drop_last() =~= tags@.take(i as int));
        if tags[i].id > m {
            m = tags[i].id;
        }
        i = i + 1;
    }
    assert(tags@.take(tags@.len() as int) =~= tags@);
    m
}

fn has_missing_tag(cat: &Vec<Tag>, tags: &Vec<Tag>) -> (r: bool)
    ensures
        r == missing_tag(cat@, tags@),
{
    let mut k: usize = 0;
    while k < tags.len()
        invariant
            k <= tags@.len(),
            forall|j: int|
                0 <= j < k && (#[trigger] tags@[j]).id != NEW_TAG_ID ==> tag_index(cat@, tags@[j].id) is Some,
        decreases tags@.len() - k,
    {
        if tags[k].id != NEW_TAG_ID && find_tag_id(cat, tags[k].id).is_none() {
            return true;
        }
        k = k + 1;
    }
    false
}

fn same_target_exec(cat: &Vec<Tag>, a: &Tag, b: &Tag) -> (r: bool)
    ensures
        r == same_target(cat@, *a, *b),
{
    if a.id != NEW_TAG_ID && b.id != NEW_TAG_ID {
        a.id == b.id
    } else if a.id == NEW_TAG_ID && b.id == NEW_TAG_ID {
        a.name == b.name
    } else if a.id != NEW_TAG_ID {
        match find_tag_id(cat, a.id) {
            Some(i) => cat[i].name == b.name,
            None => false,
        }
    } else {
        match find_tag_id(cat, b.id) {
            Some(i) => cat[i].name == a.name,
            None => false,
        }
    }
}

fn has_repeated_tag(cat: &Vec<Tag>, tags: &Vec<Tag>) -> (r: bool)
    ensures
        r == repeated_tag(cat@, tags@),
{
    let mut k: usize = 0;
    while k < tags.len()
        invariant
            k <= tags@.len(),
            forall|j1: int, j2: int|
                0 <= j1 < j2 < k ==> !same_target(cat@, #[trigger] tags@[j1], #[trigger] tags@[j2]),
        decreases tags@.len() - k,
    {
        let mut j: usize = 0;
        while j < k
            invariant
                k < tags@.len(),
                j <= k,
                forall|j1: int, j2: int|
                    0 <= j1 < j2 < k ==> !same_target(cat@, #[trigger] tags@[j1], #[trigger] tags@[j2]),
                forall|j1: int| 0 <= j1 < j ==> !same_target(cat@, #[trigger] tags@[j1], tags@[k as int]),
            decreases k - j,
        {
            if same_target_exec(cat, &tags[j], &tags[k]) {
                return true;
            }
            j = j + 1;
        }
        k = k + 1;
    }
    false
}

/// Appends one child row for entry `id` per item, in order.
fn append_children<T: Duplicate>(rows: &mut Vec<Child<T>>, items: &Vec<T>, id: i64)
    ensures
        final(rows)@ == old(rows)@ + children(items@, id),
{
    let mut i: usize = 0;
    while i < items.len()
        invariant
            i <= items@.len(),
            rows@ == old(rows)@ + children(items@.take(i as int), id),
        decreases items@.len() - i,
    {
        rows.push(Child { word_id: id, body: Some(items[i].duplicate()) });
        i = i + 1;
        assert(children(items@.take(i as int), id) =~= children(items@.take(i - 1), id).push(
            Child { word_id: id, body: Some(items@[i - 1]) },
        ));
    }
    assert(items@.take(items@.len() as int) =~= items@);
}

proof fn lemma_owned_extend<T>(rows: Seq<Child<T>>, extra: Seq<Child<T>>, words: Seq<WordRow>, row: WordRow)
    requires
        owned_by_words(rows, words),
        forall|i: int| 0 <= i < extra.len() ==> (#[trigger] extra[i]).word_id == row.id,
    ensures
        owned_by_words(rows + extra, words.push(row)),
{
    let all = rows + extra;
    let ws = words.push(row);
    assert forall|i: int| 0 <= i < all.len() implies has_word(ws, #[trigger] all[i].word_id) by {
        if i < rows.len() {
            assert(all[i] == rows[i]);
            let j = choose|j: int| 0 <= j < words.len() && #[trigger] words[j].id == rows[i].word_id;
            assert(ws[j] == words[j]);
        } else {
            assert(all[i] == extra[i - rows.len()]);
            assert(ws[words.len() as int] == row);
        }
    }
}

/// A successful save keeps the store's invariant.
pub proof fn lemma_save_keeps_wf(old: Tables, new: Tables, e: Word)
    requires
        old.wf(),
        save_allowed(old, e),
        saved(old, new, e),
    ensures
        new.wf(),
{
    let id = (max_word_id(old.words@) + 1) as i64;
    let row = row_of(e, id);
    lemma_max_word_id(old.words@);
    lemma_max_tag_id(old.tags@);
    let ws = new.words@;
    assert forall|i: int, j: int| 0 <= i < j < ws.len() implies #[trigger] ws[i].id != #[trigger] ws[j].id
        && ws[i].dutch_word@ != ws[j].dutch_word@ by {
        assert(ws[i] == old.words@[i]);
        if j < old.words@.len() {
            assert(ws[j] == old.words@[j]);
        } else {
            assert(ws[j] == row);
            assert(old.words@[i].id <= max_word_id(old.words@));
        }
    }
    lemma_owned_extend(old.translations@, children(e.translations@, id), old.words@, row);
    lemma_owned_extend(old.sentences@, children(e.sentences@, id), old.words@, row);
    lemma_owned_extend(old.notes@, children(e.notes@, id), old.words@, row);
    let conj_extra = match e.conjugation {
        Some(c) => seq![Child { word_id: id, body: Some(c) }],
        None => Seq::<Child<Conjugation>>::empty(),
    };
    lemma_owned_extend(old.conjugations@, conj_extra, old.words@, row);
    let m = old.word_tags@.len();
    let wt_extra = new.word_tags@.skip(m as int);
    assert forall|i: int| 0 <= i < wt_extra.len() implies (#[trigger] wt_extra[i]).word_id == row.id by {
        assert(wt_extra[i] == new.word_tags@[m + i]);
    }
    assert(new.word_tags@ =~= old.word_tags@ + wt_extra);
    lemma_owned_extend(old.word_tags@, wt_extra, old.words@, row);
    let n = old.tags@.len();
    let ts = new.tags@;
    assert forall|i: int| 0 <= i < new.word_tags@.len() && (#[trigger] new.word_tags@[i]).body is Some implies has_tag(
        ts,
        new.word_tags@[i].body->0,
    ) by {
        let tid = new.word_tags@[i].body->0;
        if i < m {
            assert(new.word_tags@[i] == old.word_tags@[i]);
            assert(has_tag(old.tags@, tid));
            let j = choose|j: int| 0 <= j < old.tags@.len() && #[trigger] old.tags@[j].id == tid;
            assert(ts.take(n as int)[j] == ts[j]);
        } else {
            let k = i - m;
            assert(new.word_tags@[m + k] == new.word_tags@[i]);
            assert(resolves(ts, e.tags@[k], tid));
        }
    }
    assert(crate::store::refs_known(new.word_tags@, new.tags@));
    let created = ts.skip(n as int);
    assert forall|i: int, j: int| 0 <= i < j < ts.len() implies #[trigger] ts[i].id != #[trigger] ts[j].id
        && ts[i].name@ != ts[j].name@ by {
        if j < n {
            assert(ts[i] == old.tags@[i]);
            assert(ts[j] == old.tags@[j]);
        } else if i < n {
            assert(ts[i] == old.tags@[i]);
            assert(ts[j] == created[j - n]);
            assert(old.tags@[i].id <= max_tag_id(old.tags@));
            lemma_name_index(old.tags@, created[j - n].name@);
        } else {
            assert(ts[i] == created[i - n]);
            assert(ts[j] == created[j - n]);
        }
    }
}

impl Tables {
    /// Stores entry `e` (its id is ignored) with all of its children, as one
    /// all-or-nothing write. Each tag reference with `NEW_TAG_ID` names a tag
    /// that is reused when the catalog has that name and created otherwise;
    /// any other id is used as it is.
    pub fn save_entry(&mut self, e: &Word) -> (r: Result<(), StorageError>)
        requires
            old(self).wf(),
        ensures
            final(self).wf(),
            r is Ok <==> save_allowed(*old(self), *e),
            r is Ok ==> saved(*old(self), *final(self), *e),
            r matches Err(err) ==> err == save_error(*old(self), *e) && *final(self) == *old(self),
    {
        if !entry_is_valid(e) || headword_in_use(&self.words, &e.dutch_word) {
            return Err(StorageError::ConstraintViolation);
        }
        let max_w = largest_word_id(&self.words);
        let base = largest_tag_id(&self.tags);
        proof {
            lemma_max_tag_id(self.tags@);
        }
        if max_w == i64::MAX || (e.tags.len() as u64) > ((i64::MAX - base) as u64) {
            return Err(StorageError::ConnectivityFault);
        }
        if has_missing_tag(&self.tags, &e.tags) {
            return Err(StorageError::NotFound);
        }
        if has_repeated_tag(&self.tags, &e.tags) {
            return Err(StorageError::ConstraintViolation);
        }
        let ghost cat = self.tags@;
        let n = self.tags.len();
        let mut created: Vec<Tag> = Vec::new();
        let mut ids: Vec<i64> = Vec::new();
        let mut k: usize = 0;
        while k < e.tags.len()
            invariant
                cat == self.tags@,
                n == cat.len(),
                base == max_tag_id(cat),
                base >= 0,
                base + e.tags@.len() <= i64::MAX,
                !missing_tag(cat, e.tags@),
                k <= e.tags@.len(),
                ids@.len() == k,
                created@.len() <= k,
                forall|m: int| 0 <= m < created@.len() ==> #[trigger] created@[m].id == base + 1 + m,
                forall|m: int| 0 <= m < created@.len() ==> name_index(cat, #[trigger] created@[m].name@) is None,
                forall|m1: int, m2: int|
                    0 <= m1 < m2 < created@.len() ==> #[trigger] created@[m1].name@ != #[trigger] created@[m2].name@,
                forall|m: int|
                    0 <= m < created@.len() ==> exists|j: int|
                        0 <= j < k && (#[trigger] e.tags@[j]).id == NEW_TAG_ID && e.tags@[j].name@
                            == (#[trigger] created@[m]).name@,
                forall|j: int| 0 <= j < k ==> resolves(cat + created@, #[trigger] e.tags@[j], ids@[j]),
            decreases e.tags@.len() - k,
        {
            let t = &e.tags[k];
            let ghost all = cat + created@;
            let tid: i64;
            if t.id != NEW_TAG_ID {
                tid = t.id;
                proof {
                    if tag_index(cat, t.id) is None {
                        assert(missing_tag(cat, e.tags@));
                    }
                    lemma_tag_index(cat, t.id);
                    let i = tag_index(cat, t.id)->0;
                    assert(all[i] == cat[i]);
                    assert(resolves(all, *t, tid));
                }
            } else {
                match find_tag_name(&self.tags, &t.name) {
                    Some(i) => {
                        tid = self.tags[i].id;
                        proof {
                            assert(all[i as int] == cat[i as int]);
                            assert(resolves(all, *t, tid));
                        }
                    },
                    None => {
                        match find_tag_name(&created, &t.name) {
                            Some(i) => {
                                tid = created[i].id;
                                proof {
                                    assert(all[n + i] == created@[i as int]);
                                    assert(resolves(all, *t, tid));
                                }
                            },
                            None => {
                                tid = base + 1 + created.len() as i64;
                                proof {
                                    lemma_name_index(created@, t.name@);
                                }
                                created.push(Tag { id: tid, name: t.name.clone() });
                                proof {
                                    let all2 = cat + created@;
                                    assert(all2 =~= all.push(created@.last()));
                                    let idx = n + created@.len() - 1;
                                    assert(all2[idx] == created@.last());
                                    assert(all2[idx].id == tid);
                                    assert(all2[idx].name@ == t.name@);
                                    assert(resolves(all2, *t, tid));
                                }
                            },
                        }
                    },
                }
            }
            proof {
                let all2 = cat + created@;
                assert forall|j: int| 0 <= j < k implies resolves(all2, #[trigger] e.tags@[j], ids@[j]) by {
                    assert(resolves(all, e.tags@[j], ids@[j]));
                    let i = choose|i: int|
                        0 <= i < all.len() && #[trigger] all[i].id == ids@[j] && (e.tags@[j].id
                            == NEW_TAG_ID ==> all[i].name@ == e.tags@[j].name@) && (e.tags@[j].id
                            != NEW_TAG_ID ==> ids@[j] == e.tags@[j].id);
                    assert(all2[i] == all[i]);
                }
            }
            ids.push(tid);
            k = k + 1;
        }
        proof {
            assert forall|m: int| 0 <= m < created@.len() implies new_tag_named(e.tags@, #[trigger] created@[m].name@) by {
                let j = choose|j: int|
                    0 <= j < k && (#[trigger] e.tags@[j]).id == NEW_TAG_ID && e.tags@[j].name@
                        == created@[m].name@;
                assert(e.tags@[j].name@ == created@[m].name@);
                assert(0 <= j < e.tags@.len());
            }
            assert(created_tags(cat, created@, e.tags@));
        }
        let id = max_w + 1;
        self.words.push(
            WordRow {
                id,
                dutch_word: e.dutch_word.clone(),
                word_type: e.word_type,
                definite_article: copy_text(&e.definite_article),
                preposition: copy_text(&e.preposition),
                source: copy_text(&e.source),
            },
        );
        append_children(&mut self.translations, &e.translations, id);
        match &e.conjugation {
            Some(c) => {
                self.conjugations.push(Child { word_id: id, body: Some(c.duplicate()) });
            },
            None => {},
        }
        append_children(&mut self.sentences, &e.sentences, id);
        append_children(&mut self.notes, &e.notes, id);
        let ghost created_v = created@;
        self.tags.append(&mut created);
        let ghost m = old(self).word_tags@.len();
        append_children(&mut self.word_tags, &ids, id);
        proof {
            assert(self.tags@.take(n as int) =~= cat);
            assert(self.tags@.skip(n as int) =~= created_v);
            assert(self.word_tags@.take(m as int) =~= old(self).word_tags@);
            if e.conjugation is None {
                assert(self.conjugations@ =~= old(self).conjugations@ + Seq::<Child<Conjugation>>::empty());
            }
            assert forall|j: int| 0 <= j < e.tags@.len() implies {
                let c = #[trigger] self.word_tags@[m + j];
                c.word_id == id && c.body is Some && resolves(self.tags@, e.tags@[j], c.body->0)
            } by {
                assert(self.word_tags@[m + j] == children(ids@, id)[j]);
                assert(resolves(cat + created_v, e.tags@[j], ids@[j]));
            }
            assert(self.conjugations@ == old(self).conjugations@ + match e.conjugation {
                Some(c) => seq![Child { word_id: id, body: Some(c) }],
                None => Seq::<Child<Conjugation>>::empty(),
            });
            assert(created_tags(old(self).tags@, self.tags@.skip(n as int), e.tags@));
            assert(saved(*old(self), *self, *e));
            lemma_save_keeps_wf(*old(self), *self, *e);
        }
        Ok(())
    }
}

} // verus!
