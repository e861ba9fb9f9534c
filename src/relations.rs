//! The rows of the relational store, and what a read makes of them.
use vstd::prelude::*;
use vstd::string::StrSliceExecFns;
use crate::model::{Duplicate, Tag, Translation, WordType};

verus! {

/// A row of the `word` relation.
pub struct WordRow {
    pub id: i64,
    pub dutch_word: String,
    pub word_type: WordType,
    pub definite_article: Option<String>,
    pub preposition: Option<String>,
    pub source: Option<String>,
}

/// A row of a child relation: the entry it belongs to, and its content, or
/// `None` where the row could not be decoded.
pub struct Child<T> {
    pub word_id: i64,
    pub body: Option<T>,
}

/// The contents, in relation order, of the rows of `rows` that belong to
/// entry `w`.
pub open spec fn rows_of<T>(rows: Seq<Child<T>>, w: i64) -> Seq<Option<T>>
    decreases rows.len(),
{
    if rows.len() == 0 {
        seq![]
    } else {
        let p = rows_of(rows.drop_last(), w);
        if rows.last().word_id == w {
            p.push(rows.last().body)
        } else {
            p
        }
    }
}

pub open spec fn all_decoded<T>(s: Seq<Option<T>>) -> bool {
    forall|i: int| 0 <= i < s.len() ==> s[i] is Some
}

pub open spec fn decoded<T>(s: Seq<Option<T>>) -> Seq<T> {
    s.map_values(|o: Option<T>| o->0)
}

/// An entry's child collection as read back: empty when any of its rows is
/// malformed.
pub open spec fn collection<T>(rows: Seq<Child<T>>, w: i64) -> Seq<T> {
    let s = rows_of(rows, w);
    if all_decoded(s) {
        decoded(s)
    } else {
        seq![]
    }
}

/// Position of the last catalog tag with id `id`.
pub open spec fn tag_index(cat: Seq<Tag>, id: i64) -> Option<int>
    decreases cat.len(),
{
    if cat.len() == 0 {
        None
    } else if cat.last().id == id {
        Some(cat.len() - 1)
    } else {
        tag_index(cat.drop_last(), id)
    }
}

/// Position of the last catalog tag named `name`.
pub open spec fn name_index(cat: Seq<Tag>, name: Seq<char>) -> Option<int>
    decreases cat.len(),
{
    if cat.len() == 0 {
        None
    } else if cat.last().name@ == name {
        Some(cat.len() - 1)
    } else {
        name_index(cat.drop_last(), name)
    }
}

/// The catalog tags that `ids` refer to, in order (an inner join: an id
/// without a tag contributes nothing).
pub open spec fn tags_for(cat: Seq<Tag>, ids: Seq<i64>) -> Seq<Tag>
    decreases ids.len(),
{
    if ids.len() == 0 {
        seq![]
    } else {
        let p = tags_for(cat, ids.drop_last());
        match tag_index(cat, ids.last()) {
            Some(i) => p.push(cat[i]),
            None => p,
        }
    }
}

/// Strict lexicographic order of texts by code point.
pub open spec fn text_less(a: Seq<char>, b: Seq<char>) -> bool
    decreases a.len(),
{
    if a.len() == 0 {
        b.len() > 0
    } else if b.len() == 0 {
        false
    } else if a[0] != b[0] {
        (a[0] as u32) < (b[0] as u32)
    } else {
        text_less(a.drop_first(), b.drop_first())
    }
}

/// Places `x` into `s` before the first translation whose language is
/// smaller than that of `x`.
pub open spec fn insert_by_language(x: Translation, s: Seq<Translation>) -> Seq<Translation>
    decreases s.len(),
{
    if s.len() == 0 {
        seq![x]
    } else if text_less(s[0].language@, x.language@) {
        seq![x] + s
    } else {
        seq![s[0]] + insert_by_language(x, s.drop_first())
    }
}

/// The translations ordered by language, descending; equal languages keep
/// their relative order.
pub open spec fn by_language_desc(s: Seq<Translation>) -> Seq<Translation>
    decreases s.len(),
{
    if s.len() == 0 {
        seq![]
    } else {
        insert_by_language(s.last(), by_language_desc(s.drop_last()))
    }
}

/// The child collection of entry `w` in `rows`.
pub fn collect_for<T: Duplicate>(rows: &Vec<Child<T>>, w: i64) -> (r: Vec<T>)
    ensures
        r@ == collection(rows@, w),
{
    let mut acc: Vec<T> = Vec::new();
    let mut ok = true;
    let mut i: usize = 0;
    while i < rows.len()
        invariant
            i <= rows@.len(),
            ok == all_decoded(rows_of(rows@.take(i as int), w)),
            ok ==> acc@ == decoded(rows_of(rows@.take(i as int), w)),
        decreases rows@.len() - i,
    {
        let ghost before = rows_of(rows@.take(i as int), w);
        assert(rows@.take(i + 1).drop_last() =~= rows@.take(i as int));
        let r = &rows[i];
        if r.word_id == w {
            assert(rows_of(rows@.take(i + 1), w) == before.push(r.body));
            match &r.body {
                Some(b) => {
                    if ok {
                        acc.push(b.duplicate());
                        assert(decoded(before.push(r.body)) =~= decoded(before).push(*b));
                    }
                },
                None => {
                    ok = false;
                },
            }
            assert(all_decoded(before.push(r.body)) == (all_decoded(before) && r.body is Some))
                by {
                if all_decoded(before) && r.body is Some {
                    assert forall|k: int| 0 <= k < before.len() + 1 implies #[trigger] before.push(
                        r.body,
                    )[k] is Some by {
                        if k < before.len() {
                            assert(before.push(r.body)[k] == before[k]);
                        }
                    }
                }
                if all_decoded(before.push(r.body)) {
                    assert forall|k: int| 0 <= k < before.len() implies #[trigger] before[k] is Some by {
                        assert(before.push(r.body)[k] == before[k]);
                    }
                    assert(before.push(r.body)[before.len() as int] == r.body);
                }
            }
        }
        i = i + 1;
    }
    assert(rows@.take(rows@.len() as int) =~= rows@);
    if ok {
        acc
    } else {
        Vec::new()
    }
}

/// Position of the last tag with id `id` in `cat`.
pub fn find_tag_id(cat: &Vec<Tag>, id: i64) -> (r: Option<usize>)
    ensures
        r matches Some(i) ==> tag_index(cat@, id) == Some(i as int) && i < cat@.len() && cat@[i as int].id == id,
        r is None ==> tag_index(cat@, id) is None,
{
    let mut i: usize = cat.len();
    assert(cat@.take(cat@.len() as int) =~= cat@);
    while i > 0
        invariant
            i <= cat@.len(),
            tag_index(cat@, id) == tag_index(cat@.take(i as int), id),
        decreases i,
    {
        assert(cat@.take(i as int).drop_last() =~= cat@.take(i - 1));
        if cat[i - 1].id == id {
            return Some(i - 1);
        }
        i = i - 1;
    }
    None
}

/// Position of the last tag named `name` in `cat`.
pub fn find_tag_name(cat: &Vec<Tag>, name: &String) -> (r: Option<usize>)
    ensures
        r matches Some(i) ==> name_index(cat@, name@) == Some(i as int) && i < cat@.len() && cat@[i as int].name@ == name@,
        r is None ==> name_index(cat@, name@) is None,
{
    let mut i: usize = cat.len();
    assert(cat@.take(cat@.len() as int) =~= cat@);
    while i > 0
        invariant
            i <= cat@.len(),
            name_index(cat@, name@) == name_index(cat@.take(i as int), name@),
        decreases i,
    {
        assert(cat@.take(i as int).drop_last() =~= cat@.take(i - 1));
        if cat[i - 1].name == *name {
            return Some(i - 1);
        }
        i = i - 1;
    }
    None
}

/// The catalog tags that `ids` refer to, in order.
pub fn tags_for_ids(cat: &Vec<Tag>, ids: &Vec<i64>) -> (r: Vec<Tag>)
    ensures
        r@ == tags_for(cat@, ids@),
{
    let mut r: Vec<Tag> = Vec::new();
    let mut i: usize = 0;
    while i < ids.len()
        invariant
            i <= ids@.len(),
            r@ == tags_for(cat@, ids@.take(i as int)),
        decreases ids@.len() - i,
    {
        assert(ids@.take(i + 1).drop_last() =~= ids@.take(i as int));
        match find_tag_id(cat, ids[i]) {
            Some(k) => {
                r.push(cat[k].duplicate());
            },
            None => {},
        }
        i = i + 1;
    }
    assert(ids@.take(ids@.len() as int) =~= ids@);
    r
}

/// Whether `a` sorts strictly before `b`, comparing code points.
pub fn less_text(a: &String, b: &String) -> (r: bool)
    ensures
        r == text_less(a@, b@),
{
    let sa = a.as_str();
    let sb = b.as_str();
    let la = sa.unicode_len();
    let lb = sb.unicode_len();
    let mut i: usize = 0;
    assert(a@.skip(0) =~= a@);
    assert(b@.skip(0) =~= b@);
    while i < la && i < lb
        invariant
            i <= la,
            i <= lb,
            la == a@.len(),
            lb == b@.len(),
            sa@ == a@,
            sb@ == b@,
            text_less(a@, b@) == text_less(a@.skip(i as int), b@.skip(i as int)),
        decreases la - i,
    {
        let ca = sa.get_char(i);
        let cb = sb.get_char(i);
        assert(a@.skip(i as int)[0] == ca);
        assert(b@.skip(i as int)[0] == cb);
        if ca != cb {
            return (ca as u32) < (cb as u32);
        }
        assert(a@.skip(i as int).drop_first() =~= a@.skip(i + 1));
        assert(b@.skip(i as int).drop_first() =~= b@.skip(i + 1));
        i = i + 1;
    }
    i < lb
}

proof fn lemma_insert_after_prefix(x: Translation, s: Seq<Translation>, j: int)
    requires
        0 <= j <= s.len(),
        forall|k: int| 0 <= k < j ==> !text_less(#[trigger] s[k].language@, x.language@),
    ensures
        insert_by_language(x, s) == s.take(j) + insert_by_language(x, s.skip(j)),
    decreases j,
{
    if j == 0 {
        assert(s.skip(0) =~= s);
        assert(s.take(0) + insert_by_language(x, s) =~= insert_by_language(x, s));
    } else {
        let t = s.drop_first();
        assert forall|k: int| 0 <= k < j - 1 implies !text_less(#[trigger] t[k].language@, x.language@) by {
            assert(t[k] == s[k + 1]);
        }
        lemma_insert_after_prefix(x, t, j - 1);
        assert(t.skip(j - 1) =~= s.skip(j));
        assert(seq![s[0]] + t.take(j - 1) =~= s.take(j));
        assert(!text_less(s[0].language@, x.language@));
        assert(insert_by_language(x, s) == seq![s[0]] + insert_by_language(x, t));
        assert(seq![s[0]] + (t.take(j - 1) + insert_by_language(x, t.skip(j - 1))) =~= s.take(j)
            + insert_by_language(x, s.skip(j)));
    }
}

/// Inserts `x` into `v` at the place that `insert_by_language` gives it.
fn insert_translation(v: &mut Vec<Translation>, x: Translation)
    ensures
        final(v)@ == insert_by_language(x, old(v)@),
{
    let mut j: usize = 0;
    while j < v.len() && !less_text(&v[j].language, &x.language)
        invariant
            j <= v@.len(),
            forall|k: int| 0 <= k < j ==> !text_less(#[trigger] v@[k].language@, x.language@),
        decreases v@.len() - j,
    {
        j = j + 1;
    }
    proof {
        lemma_insert_after_prefix(x, v@, j as int);
        if j < v@.len() {
            assert(v@.skip(j as int)[0] == v@[j as int]);
        } else {
            assert(v@.skip(j as int) =~= Seq::<Translation>::empty());
        }
        assert(v@.take(j as int) + insert_by_language(x, v@.skip(j as int)) =~= v@.insert(j as int, x));
    }
    v.insert(j, x);
}

/// The translations ordered by language, descending, ties in input order.
pub fn sort_by_language_desc(v: &Vec<Translation>) -> (r: Vec<Translation>)
    ensures
        r@ == by_language_desc(v@),
{
    let mut r: Vec<Translation> = Vec::new();
    let mut i: usize = 0;
    while i < v.len()
        invariant
            i <= v@.len(),
            r@ == by_language_desc(v@.take(i as int)),
        decreases v@.len() - i,
    {
        assert(v@.take(i + 1).drop_last() =~= v@.take(i as int));
        insert_translation(&mut r, v[i].duplicate());
        i = i + 1;
    }
    assert(v@.take(v@.len() as int) =~= v@);
    r
}

} // verus!
