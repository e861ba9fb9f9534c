//! What holds across a save and a later read.
use vstd::prelude::*;
use crate::model::{Conjugation, StorageError, Tag, Word, NEW_TAG_ID};
use crate::relations::{all_decoded, collection, decoded, rows_of, tag_index, tags_for, Child, WordRow};
use crate::save::{
    children, conjugation_ok, headword_taken, lemma_max_word_id, lemma_save_keeps_wf,
    lemma_tag_index, max_word_id, resolves, save_allowed, save_error, saved, same_target,
};
use crate::store::{entry_read, has_tag, has_word, owned_by_words, refs_known, Tables};

verus! {

proof fn lemma_rows_of_concat<T>(a: Seq<Child<T>>, b: Seq<Child<T>>, w: i64)
    ensures
        rows_of(a + b, w) == rows_of(a, w) + rows_of(b, w),
    decreases b.len(),
{
    if b.len() == 0 {
        assert(a + b =~= a);
        assert(rows_of(a, w) + rows_of(b, w) =~= rows_of(a, w));
    } else {
        lemma_rows_of_concat(a, b.drop_last(), w);
        assert((a + b).drop_last() =~= a + b.drop_last());
        assert((a + b).last() == b.last());
        if b.last().word_id == w {
            assert(rows_of(a, w) + rows_of(b.drop_last(), w).push(b.last().body) =~= (rows_of(a, w)
                + rows_of(b.drop_last(), w)).push(b.last().body));
        }
    }
}

proof fn lemma_rows_of_foreign<T>(rows: Seq<Child<T>>, w: i64)
    requires
        forall|i: int| 0 <= i < rows.len() ==> (#[trigger] rows[i]).word_id != w,
    ensures
        rows_of(rows, w) == Seq::<Option<T>>::empty(),
    decreases rows.len(),
{
    if rows.len() > 0 {
        let p = rows.drop_last();
        assert forall|i: int| 0 <= i < p.len() implies (#[trigger] p[i]).word_id != w by {
            assert(p[i] == rows[i]);
        }
        lemma_rows_of_foreign(p, w);
        assert(rows.last() == rows[rows.len() - 1]);
    }
}

proof fn lemma_rows_of_own<T>(s: Seq<T>, w: i64)
    ensures
        rows_of(children(s, w), w) == s.map_values(|x: T| Some(x)),
    decreases s.len(),
{
    if s.len() > 0 {
        lemma_rows_of_own(s.drop_last(), w);
        assert(children(s, w).drop_last() =~= children(s.drop_last(), w));
        assert(s.map_values(|x: T| Some(x)) =~= s.drop_last().map_values(|x: T| Some(x)).push(
            Some(s.last()),
        ));
    }
}

/// The children appended for a fresh entry id are exactly what it reads back.
proof fn lemma_fresh_collection<T>(rows: Seq<Child<T>>, s: Seq<T>, words: Seq<WordRow>, w: i64)
    requires
        owned_by_words(rows, words),
        forall|j: int| 0 <= j < words.len() ==> (#[trigger] words[j]).id < w,
    ensures
        collection(rows + children(s, w), w) == s,
{
    assert forall|i: int| 0 <= i < rows.len() implies (#[trigger] rows[i]).word_id != w by {
        assert(has_word(words, rows[i].word_id));
    }
    lemma_rows_of_foreign(rows, w);
    lemma_rows_of_concat(rows, children(s, w), w);
    lemma_rows_of_own(s, w);
    let m = s.map_values(|x: T| Some(x));
    assert(rows_of(rows + children(s, w), w) =~= m);
    assert(all_decoded(m));
    assert(decoded(m) =~= s);
}

/// With unique ids, the inner join finds, for each id, the one tag that
/// carries it.
proof fn lemma_tags_for_found(cat: Seq<Tag>, ids: Seq<i64>)
    requires
        forall|i: int, j: int| 0 <= i < j < cat.len() ==> #[trigger] cat[i].id != #[trigger] cat[j].id,
        forall|k: int| 0 <= k < ids.len() ==> tag_index(cat, #[trigger] ids[k]) is Some,
    ensures
        tags_for(cat, ids).len() == ids.len(),
        forall|k: int|
            0 <= k < ids.len() ==> #[trigger] tags_for(cat, ids)[k] == cat[tag_index(cat, ids[k])->0],
    decreases ids.len(),
{
    if ids.len() > 0 {
        let p = ids.drop_last();
        assert forall|k: int| 0 <= k < p.len() implies tag_index(cat, #[trigger] p[k]) is Some by {
            assert(p[k] == ids[k]);
        }
        lemma_tags_for_found(cat, p);
        assert(tag_index(cat, ids[ids.len() - 1]) is Some);
        assert forall|k: int| 0 <= k < ids.len() implies #[trigger] tags_for(cat, ids)[k]
            == cat[tag_index(cat, ids[k])->0] by {
            if k < p.len() {
                assert(p[k] == ids[k]);
            }
        }
    }
}

/// In a catalog with unique ids, the tag that carries `id` is at the
/// position `tag_index` gives.
proof fn lemma_tag_index_unique(cat: Seq<Tag>, id: i64, i: int)
    requires
        forall|a: int, b: int| 0 <= a < b < cat.len() ==> #[trigger] cat[a].id != #[trigger] cat[b].id,
        0 <= i < cat.len(),
        cat[i].id == id,
    ensures
        tag_index(cat, id) == Some(i),
{
    lemma_tag_index(cat, id);
    if tag_index(cat, id) is None {
        assert(cat[i].id != id);
    } else {
        let j = tag_index(cat, id)->0;
        if j != i {
            if j < i {
                assert(cat[j].id != cat[i].id);
            } else {
                assert(cat[i].id != cat[j].id);
            }
        }
    }
}

/// Every reference to an existing tag carries that tag's catalog name.
pub open spec fn existing_tags_named(cat: Seq<Tag>, tags: Seq<Tag>) -> bool {
    forall|k: int|
        0 <= k < tags.len() && (#[trigger] tags[k]).id != NEW_TAG_ID ==> (tag_index(cat, tags[k].id) matches Some(
            i,
        ) && cat[i].name@ == tags[k].name@)
}

/// Round trip: after a successful save of a valid entry `e` (one that has a
/// conjugation only if it is of a verb kind, and whose references to existing
/// tags carry their catalog names), a read of the whole catalog holds exactly
/// one entry with `e`'s headword, the last one, and it has `e`'s fields and
/// children, with the translations ordered by language, descending.
pub proof fn law_round_trip(old: Tables, new: Tables, e: Word, list: Seq<Word>)
    requires
        old.wf(),
        save_allowed(old, e),
        saved(old, new, e),
        e.conjugation is Some ==> e.word_type.spec_is_verb(),
        existing_tags_named(old.tags@, e.tags@),
        list.len() == new.words@.len(),
        forall|i: int| 0 <= i < list.len() ==> entry_read(new, new.words@[i], #[trigger] list[i]),
    ensures
        list.len() == old.words@.len() + 1,
        forall|i: int|
            0 <= i < list.len() ==> ((#[trigger] list[i]).dutch_word@ == e.dutch_word@ <==> i
                == old.words@.len()),
        ({
            let back = list[old.words@.len() as int];
            &&& back.dutch_word == e.dutch_word
            &&& back.word_type == e.word_type
            &&& back.definite_article == e.definite_article
            &&& back.preposition == e.preposition
            &&& back.source == e.source
            &&& back.translations@ == crate::relations::by_language_desc(e.translations@)
            &&& back.conjugation == e.conjugation
            &&& back.sentences@ == e.sentences@
            &&& back.notes@ == e.notes@
            &&& back.tags@.len() == e.tags@.len()
            &&& forall|k: int|
                0 <= k < e.tags@.len() ==> (#[trigger] back.tags@[k]).name@ == e.tags@[k].name@ && (
                e.tags@[k].id != NEW_TAG_ID ==> back.tags@[k].id == e.tags@[k].id)
        }),
{
    lemma_save_keeps_wf(old, new, e);
    lemma_max_word_id(old.words@);
    let id = (max_word_id(old.words@) + 1) as i64;
    let n = old.words@.len();
    assert forall|j: int| 0 <= j < old.words@.len() implies (#[trigger] old.words@[j]).id < id by {}
    assert forall|i: int| 0 <= i < list.len() implies ((#[trigger] list[i]).dutch_word@
        == e.dutch_word@ <==> i == n) by {
        assert(entry_read(new, new.words@[i], list[i]));
        if i < n {
            assert(new.words@[i] == old.words@[i]);
            assert(!headword_taken(old.words@, e.dutch_word@));
        }
    }
    let back = list[n as int];
    assert(entry_read(new, new.words@[n as int], back));
    assert(new.words@[n as int].id == id);
    lemma_fresh_collection(old.translations@, e.translations@, old.words@, id);
    lemma_fresh_collection(old.sentences@, e.sentences@, old.words@, id);
    lemma_fresh_collection(old.notes@, e.notes@, old.words@, id);
    let conj_rows = match e.conjugation {
        Some(c) => seq![c],
        None => Seq::<Conjugation>::empty(),
    };
    assert(children(conj_rows, id) =~= match e.conjugation {
        Some(c) => seq![Child { word_id: id, body: Some(c) }],
        None => Seq::<Child<Conjugation>>::empty(),
    });
    lemma_fresh_collection(old.conjugations@, conj_rows, old.words@, id);
    // tags
    let m = old.word_tags@.len();
    let extra = new.word_tags@.skip(m as int);
    let ids = Seq::new(e.tags@.len(), |k: int| new.word_tags@[m + k].body->0);
    assert forall|k: int| 0 <= k < e.tags@.len() implies #[trigger] extra[k] == children(ids, id)[k] by {
        assert(extra[k] == new.word_tags@[m + k]);
    }
    assert(extra =~= children(ids, id));
    assert(new.word_tags@ =~= old.word_tags@ + extra);
    lemma_fresh_collection(old.word_tags@, ids, old.words@, id);
    let cat = new.tags@;
    assert forall|k: int| 0 <= k < ids.len() implies tag_index(cat, #[trigger] ids[k]) is Some by {
        assert(resolves(cat, e.tags@[k], new.word_tags@[m + k].body->0));
        let i = choose|i: int| 0 <= i < cat.len() && #[trigger] cat[i].id == ids[k];
        lemma_tag_index_unique(cat, ids[k], i);
    }
    lemma_tags_for_found(cat, ids);
    assert forall|k: int| 0 <= k < e.tags@.len() implies (#[trigger] back.tags@[k]).name@
        == e.tags@[k].name@ && (e.tags@[k].id != NEW_TAG_ID ==> back.tags@[k].id == e.tags@[k].id) by {
        let c = new.word_tags@[m + k];
        assert(resolves(cat, e.tags@[k], c.body->0));
        let i = choose|i: int|
            0 <= i < cat.len() && #[trigger] cat[i].id == ids[k] && (e.tags@[k].id == NEW_TAG_ID
                ==> cat[i].name@ == e.tags@[k].name@) && (e.tags@[k].id != NEW_TAG_ID ==> ids[k]
                == e.tags@[k].id);
        lemma_tag_index_unique(cat, ids[k], i);
        assert(back.tags@[k] == cat[i]);
        if e.tags@[k].id != NEW_TAG_ID {
            let j = tag_index(old.tags@, e.tags@[k].id)->0;
            lemma_tag_index(old.tags@, e.tags@[k].id);
            assert(new.tags@.take(old.tags@.len() as int)[j] == cat[j]);
            lemma_tag_index_unique(cat, ids[k], j);
        }
    }
}

/// A save whose conjugation breaks a constraint is refused with a constraint
/// violation (and `save_entry` then leaves the store as it was).
pub proof fn law_bad_conjugation_refused(t: Tables, e: Word)
    requires
        e.conjugation matches Some(c) && !conjugation_ok(c),
    ensures
        !save_allowed(t, e),
        save_error(t, e) == StorageError::ConstraintViolation,
{
}

/// A second entry with a headword already stored is refused with a
/// constraint violation (and `save_entry` then leaves the store as it was).
pub proof fn law_duplicate_headword_refused(old: Tables, new: Tables, e1: Word, e2: Word)
    requires
        saved(old, new, e1),
        e2.dutch_word@ == e1.dutch_word@,
    ensures
        !save_allowed(new, e2),
        save_error(new, e2) == StorageError::ConstraintViolation,
{
    let n = old.words@.len() as int;
    assert(new.words@[n].dutch_word@ == e2.dutch_word@);
    assert(headword_taken(new.words@, e2.dutch_word@));
}

proof fn lemma_tags_distinct(t: Tables, i: int, j: int)
    requires
        t.wf(),
        0 <= i < t.tags@.len(),
        0 <= j < t.tags@.len(),
        i != j,
    ensures
        t.tags@[i].id != t.tags@[j].id,
        t.tags@[i].name@ != t.tags@[j].name@,
{
    if i < j {
        assert(t.tags@[i].id != t.tags@[j].id);
    } else {
        assert(t.tags@[j].id != t.tags@[i].id);
    }
}

/// How many rows of `rows` refer to tag `tid`.
pub open spec fn refs_to(rows: Seq<Child<i64>>, tid: i64) -> nat
    decreases rows.len(),
{
    if rows.len() == 0 {
        0
    } else {
        refs_to(rows.drop_last(), tid) + if rows.last().body == Some(tid) {
            1nat
        } else {
            0nat
        }
    }
}

proof fn lemma_refs_concat(a: Seq<Child<i64>>, b: Seq<Child<i64>>, tid: i64)
    ensures
        refs_to(a + b, tid) == refs_to(a, tid) + refs_to(b, tid),
    decreases b.len(),
{
    if b.len() == 0 {
        assert(a + b =~= a);
    } else {
        lemma_refs_concat(a, b.drop_last(), tid);
        assert((a + b).drop_last() =~= a + b.drop_last());
        assert((a + b).last() == b.last());
    }
}

proof fn lemma_refs_none(rows: Seq<Child<i64>>, tid: i64)
    requires
        forall|k: int| 0 <= k < rows.len() ==> (#[trigger] rows[k]).body != Some(tid),
    ensures
        refs_to(rows, tid) == 0,
    decreases rows.len(),
{
    if rows.len() > 0 {
        let p = rows.drop_last();
        assert forall|k: int| 0 <= k < p.len() implies (#[trigger] p[k]).body != Some(tid) by {
            assert(p[k] == rows[k]);
        }
        lemma_refs_none(p, tid);
        assert(rows.last() == rows[rows.len() - 1]);
    }
}

proof fn lemma_refs_one(rows: Seq<Child<i64>>, tid: i64, k0: int)
    requires
        0 <= k0 < rows.len(),
        rows[k0].body == Some(tid),
        forall|k: int| 0 <= k < rows.len() && k != k0 ==> (#[trigger] rows[k]).body != Some(tid),
    ensures
        refs_to(rows, tid) == 1,
{
    let a = rows.take(k0);
    let b = rows.skip(k0 + 1);
    assert forall|k: int| 0 <= k < a.len() implies (#[trigger] a[k]).body != Some(tid) by {
        assert(a[k] == rows[k]);
    }
    assert forall|k: int| 0 <= k < b.len() implies (#[trigger] b[k]).body != Some(tid) by {
        assert(b[k] == rows[k0 + 1 + k]);
    }
    lemma_refs_none(a, tid);
    lemma_refs_none(b, tid);
    let mid = seq![rows[k0]];
    assert(mid.drop_last() =~= Seq::<Child<i64>>::empty());
    assert(refs_to(mid.drop_last(), tid) == 0);
    assert(mid.last() == rows[k0]);
    assert(refs_to(mid, tid) == 1);
    assert(rows =~= (a + mid) + b);
    lemma_refs_concat(a, mid, tid);
    lemma_refs_concat(a + mid, b, tid);
}

/// Within one save, distinct tag references of the entry resolve to
/// distinct tags.
proof fn lemma_resolved_distinct(old: Tables, new: Tables, e: Word, j: int, k: int)
    requires
        old.wf(),
        save_allowed(old, e),
        saved(old, new, e),
        0 <= j < e.tags@.len(),
        0 <= k < e.tags@.len(),
        j != k,
    ensures
        new.word_tags@[old.word_tags@.len() + j].body != new.word_tags@[old.word_tags@.len() + k].body,
{
    lemma_save_keeps_wf(old, new, e);
    let m = old.word_tags@.len();
    let all = new.tags@;
    let cat = old.tags@;
    let ij = new.word_tags@[m + j].body->0;
    let ik = new.word_tags@[m + k].body->0;
    let tj = e.tags@[j];
    let tk = e.tags@[k];
    if ij == ik {
        assert(resolves(all, tj, ij));
        assert(resolves(all, tk, ik));
        let xj = choose|i: int|
            0 <= i < all.len() && #[trigger] all[i].id == ij && (tj.id == NEW_TAG_ID ==> all[i].name@
                == tj.name@) && (tj.id != NEW_TAG_ID ==> ij == tj.id);
        let xk = choose|i: int|
            0 <= i < all.len() && #[trigger] all[i].id == ik && (tk.id == NEW_TAG_ID ==> all[i].name@
                == tk.name@) && (tk.id != NEW_TAG_ID ==> ik == tk.id);
        lemma_tag_index_unique(all, ij, xj);
        lemma_tag_index_unique(all, ik, xk);
        assert(xj == xk);
        if tj.id != NEW_TAG_ID && tk.id == NEW_TAG_ID {
            assert(!crate::save::missing_tag(cat, e.tags@));
            assert(tag_index(cat, tj.id) is Some);
            lemma_tag_index(cat, tj.id);
            let x = tag_index(cat, tj.id)->0;
            assert(all.take(cat.len() as int)[x] == all[x]);
            lemma_tag_index_unique(all, ij, x);
            assert(same_target(cat, tj, tk));
        } else if tj.id == NEW_TAG_ID && tk.id != NEW_TAG_ID {
            assert(!crate::save::missing_tag(cat, e.tags@));
            assert(tag_index(cat, tk.id) is Some);
            lemma_tag_index(cat, tk.id);
            let x = tag_index(cat, tk.id)->0;
            assert(all.take(cat.len() as int)[x] == all[x]);
            lemma_tag_index_unique(all, ik, x);
            assert(same_target(cat, tj, tk));
        } else {
            assert(same_target(cat, tj, tk));
        }
        if j < k {
            assert(crate::save::repeated_tag(cat, e.tags@));
        } else {
            assert(same_target(cat, tk, tj));
            assert(crate::save::repeated_tag(cat, e.tags@));
        }
    }
}

/// One save adds exactly one word-tag row for the tag that reference `k`
/// of the entry resolves to.
proof fn lemma_one_ref_per_save(old: Tables, new: Tables, e: Word, k: int)
    requires
        old.wf(),
        save_allowed(old, e),
        saved(old, new, e),
        0 <= k < e.tags@.len(),
    ensures
        refs_to(new.word_tags@, new.word_tags@[old.word_tags@.len() + k].body->0) == refs_to(
            old.word_tags@,
            new.word_tags@[old.word_tags@.len() + k].body->0,
        ) + 1,
{
    let m = old.word_tags@.len();
    let tid = new.word_tags@[m + k].body->0;
    let extra = new.word_tags@.skip(m as int);
    assert(new.word_tags@ =~= old.word_tags@ + extra);
    assert forall|x: int| 0 <= x < extra.len() && x != k implies (#[trigger] extra[x]).body != Some(tid) by {
        assert(extra[x] == new.word_tags@[m + x]);
        lemma_resolved_distinct(old, new, e, x, k);
    }
    assert(extra[k] == new.word_tags@[m + k]);
    lemma_refs_one(extra, tid, k);
    lemma_refs_concat(old.word_tags@, extra, tid);
}

/// Tag reuse: after two saves that each refer by name to a new tag named
/// `a`, the catalog holds exactly one tag named `a`, and each save added
/// exactly one word-tag row that refers to it.
pub proof fn law_tag_reused(
    t0: Tables,
    t1: Tables,
    t2: Tables,
    e1: Word,
    e2: Word,
    a: Seq<char>,
    k1: int,
    k2: int,
)
    requires
        t0.wf(),
        save_allowed(t0, e1),
        saved(t0, t1, e1),
        save_allowed(t1, e2),
        saved(t1, t2, e2),
        0 <= k1 < e1.tags@.len(),
        e1.tags@[k1].id == NEW_TAG_ID,
        e1.tags@[k1].name@ == a,
        0 <= k2 < e2.tags@.len(),
        e2.tags@[k2].id == NEW_TAG_ID,
        e2.tags@[k2].name@ == a,
    ensures
        exists|i: int|
            0 <= i < t2.tags@.len() && (#[trigger] t2.tags@[i]).name@ == a && (forall|j: int|
                0 <= j < t2.tags@.len() && (#[trigger] t2.tags@[j]).name@ == a ==> j == i) && refs_to(
                t2.word_tags@,
                t2.tags@[i].id,
            ) == refs_to(t0.word_tags@, t2.tags@[i].id) + 2,
{
    lemma_save_keeps_wf(t0, t1, e1);
    lemma_save_keeps_wf(t1, t2, e2);
    let m0 = t0.word_tags@.len();
    let m1 = t1.word_tags@.len();
    let id1 = t1.word_tags@[m0 + k1].body->0;
    let id2 = t2.word_tags@[m1 + k2].body->0;
    assert(resolves(t1.tags@, e1.tags@[k1], id1));
    assert(resolves(t2.tags@, e2.tags@[k2], id2));
    let x1 = choose|i: int|
        0 <= i < t1.tags@.len() && #[trigger] t1.tags@[i].id == id1 && (e1.tags@[k1].id == NEW_TAG_ID
            ==> t1.tags@[i].name@ == e1.tags@[k1].name@) && (e1.tags@[k1].id != NEW_TAG_ID ==> id1
            == e1.tags@[k1].id);
    let x2 = choose|i: int|
        0 <= i < t2.tags@.len() && #[trigger] t2.tags@[i].id == id2 && (e2.tags@[k2].id == NEW_TAG_ID
            ==> t2.tags@[i].name@ == e2.tags@[k2].name@) && (e2.tags@[k2].id != NEW_TAG_ID ==> id2
            == e2.tags@[k2].id);
    assert(t2.tags@.take(t1.tags@.len() as int)[x1] == t2.tags@[x1]);
    if x1 != x2 {
        if x1 < x2 {
            assert(t2.tags@[x1].name@ != t2.tags@[x2].name@);
        } else {
            assert(t2.tags@[x2].name@ != t2.tags@[x1].name@);
        }
    }
    assert(id1 == id2);
    lemma_one_ref_per_save(t0, t1, e1, k1);
    lemma_one_ref_per_save(t1, t2, e2, k2);
    assert forall|j: int| 0 <= j < t2.tags@.len() && (#[trigger] t2.tags@[j]).name@ == a implies j == x2 by {
        if j != x2 {
            lemma_tags_distinct(t2, j, x2);
        }
    }
}

/// The writer does not tie a conjugation to the word kind: whether a save is
/// accepted, and the error when it is not, are the same for every kind.
pub proof fn law_kind_not_checked(t: Tables, e: Word, kind: crate::model::WordType)
    ensures
        save_allowed(t, e) == save_allowed(t, Word { word_type: kind, ..e }),
        save_error(t, e) == save_error(t, Word { word_type: kind, ..e }),
{
    let e2 = Word { word_type: kind, ..e };
    assert(e2.translations@ == e.translations@);
    assert(e2.sentences@ == e.sentences@);
    assert(e2.notes@ == e.notes@);
    assert(e2.tags@ == e.tags@);
}

proof fn lemma_collection_foreign_append<T>(rows: Seq<Child<T>>, extra: Seq<Child<T>>, w: i64)
    requires
        forall|k: int| 0 <= k < extra.len() ==> (#[trigger] extra[k]).word_id != w,
    ensures
        collection(rows + extra, w) == collection(rows, w),
{
    lemma_rows_of_foreign(extra, w);
    lemma_rows_of_concat(rows, extra, w);
    assert(rows_of(rows + extra, w) =~= rows_of(rows, w));
}

proof fn lemma_rows_of_origin<T>(rows: Seq<Child<T>>, w: i64, k: int)
    requires
        0 <= k < rows_of(rows, w).len(),
    ensures
        exists|i: int| 0 <= i < rows.len() && #[trigger] rows[i].body == rows_of(rows, w)[k],
    decreases rows.len(),
{
    let p = rows.drop_last();
    if k < rows_of(p, w).len() {
        lemma_rows_of_origin(p, w, k);
        let i = choose|i: int| 0 <= i < p.len() && #[trigger] p[i].body == rows_of(p, w)[k];
        assert(rows[i] == p[i]);
    } else {
        assert(rows[rows.len() - 1].body == rows_of(rows, w)[k]);
    }
}

/// Every tag id that a stored entry reads back is in the catalog.
proof fn lemma_read_ids_known(t: Tables, w: i64, k: int)
    requires
        t.wf(),
        0 <= k < collection(t.word_tags@, w).len(),
    ensures
        has_tag(t.tags@, collection(t.word_tags@, w)[k]),
{
    let r = rows_of(t.word_tags@, w);
    assert(all_decoded(r));
    assert(collection(t.word_tags@, w)[k] == r[k]->0);
    lemma_rows_of_origin(t.word_tags@, w, k);
    let i = choose|i: int| 0 <= i < t.word_tags@.len() && #[trigger] t.word_tags@[i].body == r[k];
    assert(refs_known(t.word_tags@, t.tags@));
    assert(t.word_tags@[i].body is Some);
}

proof fn lemma_tags_for_same(old_cat: Seq<Tag>, new_cat: Seq<Tag>, ids: Seq<i64>)
    requires
        forall|k: int|
            0 <= k < ids.len() ==> tag_index(new_cat, #[trigger] ids[k]) == tag_index(old_cat, ids[k]),
        forall|k: int|
            0 <= k < ids.len() ==> (tag_index(old_cat, #[trigger] ids[k]) matches Some(x) ==> new_cat[x]
                == old_cat[x]),
    ensures
        tags_for(new_cat, ids) == tags_for(old_cat, ids),
    decreases ids.len(),
{
    if ids.len() > 0 {
        let p = ids.drop_last();
        assert forall|k: int| 0 <= k < p.len() implies tag_index(new_cat, #[trigger] p[k]) == tag_index(
            old_cat,
            p[k],
        ) by {
            assert(p[k] == ids[k]);
        }
        assert forall|k: int| 0 <= k < p.len() implies (tag_index(old_cat, #[trigger] p[k]) matches Some(
            x,
        ) ==> new_cat[x] == old_cat[x]) by {
            assert(p[k] == ids[k]);
        }
        lemma_tags_for_same(old_cat, new_cat, p);
        assert(ids.last() == ids[ids.len() - 1]);
    }
}

/// Saving an entry changes nothing in how the entries already stored read
/// back: no row of the new entry attaches to another one.
pub proof fn law_save_keeps_other_entries(old: Tables, new: Tables, e: Word, i: int, x: Word)
    requires
        old.wf(),
        save_allowed(old, e),
        saved(old, new, e),
        0 <= i < old.words@.len(),
    ensures
        new.words@[i] == old.words@[i],
        entry_read(new, new.words@[i], x) == entry_read(old, old.words@[i], x),
{
    lemma_save_keeps_wf(old, new, e);
    lemma_max_word_id(old.words@);
    let id = (max_word_id(old.words@) + 1) as i64;
    let row = old.words@[i];
    let w = row.id;
    assert(new.words@[i] == row);
    assert(w < id);
    let tx = children(e.translations@, id);
    assert forall|k: int| 0 <= k < tx.len() implies (#[trigger] tx[k]).word_id != w by {}
    lemma_collection_foreign_append(old.translations@, tx, w);
    let sx = children(e.sentences@, id);
    assert forall|k: int| 0 <= k < sx.len() implies (#[trigger] sx[k]).word_id != w by {}
    lemma_collection_foreign_append(old.sentences@, sx, w);
    let nx = children(e.notes@, id);
    assert forall|k: int| 0 <= k < nx.len() implies (#[trigger] nx[k]).word_id != w by {}
    lemma_collection_foreign_append(old.notes@, nx, w);
    let cx = match e.conjugation {
        Some(c) => seq![Child { word_id: id, body: Some(c) }],
        None => Seq::<Child<Conjugation>>::empty(),
    };
    assert forall|k: int| 0 <= k < cx.len() implies (#[trigger] cx[k]).word_id != w by {}
    lemma_collection_foreign_append(old.conjugations@, cx, w);
    let m = old.word_tags@.len();
    let wx = new.word_tags@.skip(m as int);
    assert forall|k: int| 0 <= k < wx.len() implies (#[trigger] wx[k]).word_id != w by {
        assert(wx[k] == new.word_tags@[m + k]);
    }
    assert(new.word_tags@ =~= old.word_tags@ + wx);
    lemma_collection_foreign_append(old.word_tags@, wx, w);
    let ids = collection(old.word_tags@, w);
    let n = old.tags@.len();
    assert forall|k: int| 0 <= k < ids.len() implies tag_index(new.tags@, #[trigger] ids[k]) == tag_index(
        old.tags@,
        ids[k],
    ) && (tag_index(old.tags@, ids[k]) matches Some(z) ==> new.tags@[z] == old.tags@[z]) by {
        lemma_read_ids_known(old, w, k);
        let j = choose|j: int| 0 <= j < old.tags@.len() && #[trigger] old.tags@[j].id == ids[k];
        assert(new.tags@.take(n as int)[j] == new.tags@[j]);
        lemma_tag_index_unique(old.tags@, ids[k], j);
        lemma_tag_index_unique(new.tags@, ids[k], j);
    }
    lemma_tags_for_same(old.tags@, new.tags@, ids);
}

} // verus!
