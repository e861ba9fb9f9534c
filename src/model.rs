//! The vocabulary entry aggregate and its parts, as callers hand them in and
//! receive them back.
use vstd::prelude::*;

verus! {

/// The tag id that marks a tag which does not exist yet and must be created
/// by name.
pub const NEW_TAG_ID: i64 = -1;

/// The grammatical kind of a headword.
#[derive(Clone, Copy, Debug, PartialEq, Eq, Structural)]
pub enum WordType {
    Noun,
    Verb,
    SeparableVerb,
    Adjective,
    Adverb,
    Pronoun,
    Preposition,
    Conjunction,
    Interjection,
    NotGiven,
}

/// The auxiliary verb of the perfect tense ("have" or "be").
#[derive(Clone, Copy, Debug, PartialEq, Eq, Structural)]
pub enum Auxiliary {
    Hebben,
    Zijn,
}

pub struct Translation {
    pub translation: String,
    pub language: String,
}

pub struct Conjugation {
    pub present_ik: String,
    pub present_jij: String,
    pub present_u: String,
    pub present_hij_zij_het: String,
    pub present_plural: String,
    pub imperfectum_singular: String,
    pub imperfectum_plural: String,
    pub perfectum: Option<String>,
    pub perfectum_auxiliary_verb: Option<Auxiliary>,
}

pub struct Sentence {
    pub sentence: String,
    pub meaning: String,
}

/// A tag reference: `id` is `NEW_TAG_ID` for a tag that is to be created
/// (or found) by its name.
pub struct Tag {
    pub id: i64,
    pub name: String,
}

/// A vocabulary entry with all of its owned children.
pub struct Word {
    pub id: Option<i64>,
    pub dutch_word: String,
    pub word_type: WordType,
    pub definite_article: Option<String>,
    pub preposition: Option<String>,
    pub source: Option<String>,
    pub translations: Vec<Translation>,
    pub conjugation: Option<Conjugation>,
    pub sentences: Vec<Sentence>,
    pub notes: Vec<String>,
    pub tags: Vec<Tag>,
}

/// The error kinds of the persistence engine.
#[derive(Clone, Copy, Debug, PartialEq, Eq, Structural)]
pub enum StorageError {
    /// A uniqueness, NOT NULL or CHECK constraint would be broken.
    ConstraintViolation,
    /// A referenced row could not be located.
    NotFound,
    /// The store cannot be opened, locked or written to.
    ConnectivityFault,
    /// A row read from the store cannot be decoded.
    MalformedRow,
}

/// True when `s` equals the literal `lit`.
pub fn text_is(s: &str, lit: &str) -> (r: bool)
    ensures
        r == (s@ == lit@),
{
    let a: String = s.to_owned();
    let b: String = lit.to_owned();
    a == b
}

impl WordType {
    /// The text stored for this kind in the `type` column.
    pub open spec fn spec_name(self) -> Seq<char> {
        match self {
            WordType::Noun => "noun"@,
            WordType::Verb => "verb"@,
            WordType::SeparableVerb => "separable verb"@,
            WordType::Adjective => "adjective"@,
            WordType::Adverb => "adverb"@,
            WordType::Pronoun => "pronoun"@,
            WordType::Preposition => "preposition"@,
            WordType::Conjunction => "conjunction"@,
            WordType::Interjection => "interjection"@,
            WordType::NotGiven => "not given"@,
        }
    }

    pub open spec fn spec_is_verb(self) -> bool {
        self == WordType::Verb || self == WordType::SeparableVerb
    }

    /// Whether entries of this kind carry a conjugation when read back.
    pub fn is_verb(&self) -> (r: bool)
        ensures
            r == self.spec_is_verb(),
    {
        match self {
            WordType::Verb => true,
            WordType::SeparableVerb => true,
            _ => false,
        }
    }

    pub fn name(&self) -> (r: String)
        ensures
            r@ == self.spec_name(),
    {
        let s: &str = match self {
            WordType::Noun => "noun",
            WordType::Verb => "verb",
            WordType::SeparableVerb => "separable verb",
            WordType::Adjective => "adjective",
            WordType::Adverb => "adverb",
            WordType::Pronoun => "pronoun",
            WordType::Preposition => "preposition",
            WordType::Conjunction => "conjunction",
            WordType::Interjection => "interjection",
            WordType::NotGiven => "not given",
        };
        s.to_owned()
    }

    /// Decodes the stored text of a kind; `None` for any other text.
    pub fn parse(s: &str) -> (r: Option<WordType>)
        ensures
            r matches Some(t) ==> t.spec_name() == s@,
            r is None ==> forall|t: WordType| t.spec_name() != s@,
    {
        if text_is(s, "noun") {
            Some(WordType::Noun)
        } else if text_is(s, "verb") {
            Some(WordType::Verb)
        } else if text_is(s, "separable verb") {
            Some(WordType::SeparableVerb)
        } else if text_is(s, "adjective") {
            Some(WordType::Adjective)
        } else if text_is(s, "adverb") {
            Some(WordType::Adverb)
        } else if text_is(s, "pronoun") {
            Some(WordType::Pronoun)
        } else if text_is(s, "preposition") {
            Some(WordType::Preposition)
        } else if text_is(s, "conjunction") {
            Some(WordType::Conjunction)
        } else if text_is(s, "interjection") {
            Some(WordType::Interjection)
        } else if text_is(s, "not given") {
            Some(WordType::NotGiven)
        } else {
            None
        }
    }
}

impl Auxiliary {
    pub open spec fn spec_name(self) -> Seq<char> {
        match self {
            Auxiliary::Hebben => "hebben"@,
            Auxiliary::Zijn => "zijn"@,
        }
    }

    pub fn name(&self) -> (r: String)
        ensures
            r@ == self.spec_name(),
    {
        let s: &str = match self {
            Auxiliary::Hebben => "hebben",
            Auxiliary::Zijn => "zijn",
        };
        s.to_owned()
    }

    /// Decodes the stored text of an auxiliary; `None` for any other text.
    pub fn parse(s: &str) -> (r: Option<Auxiliary>)
        ensures
            r matches Some(a) ==> a.spec_name() == s@,
            r is None ==> forall|a: Auxiliary| a.spec_name() != s@,
    {
        if text_is(s, "hebben") {
            Some(Auxiliary::Hebben)
        } else if text_is(s, "zijn") {
            Some(Auxiliary::Zijn)
        } else {
            None
        }
    }
}

impl StorageError {
    pub open spec fn spec_message(self) -> Seq<char> {
        match self {
            StorageError::ConstraintViolation => "constraint violation"@,
            StorageError::NotFound => "referenced row not found"@,
            StorageError::ConnectivityFault => "the store cannot be written to"@,
            StorageError::MalformedRow => "malformed row"@,
        }
    }

    /// A human-readable description of the error kind.
    pub fn message(&self) -> (r: String)
        ensures
            r@ == self.spec_message(),
    {
        let s: &str = match self {
            StorageError::ConstraintViolation => "constraint violation",
            StorageError::NotFound => "referenced row not found",
            StorageError::ConnectivityFault => "the store cannot be written to",
            StorageError::MalformedRow => "malformed row",
        };
        s.to_owned()
    }
}

/// An exact copy of a value.
pub trait Duplicate: Sized {
    fn duplicate(&self) -> (r: Self)
        ensures
            r == *self,
    ;
}

pub fn copy_text(s: &Option<String>) -> (r: Option<String>)
    ensures
        r == *s,
{
    match s {
        Some(t) => Some(t.clone()),
        None => None,
    }
}

impl Duplicate for String {
    fn duplicate(&self) -> (r: Self) {
        self.clone()
    }
}

impl Duplicate for i64 {
    fn duplicate(&self) -> (r: Self) {
        *self
    }
}

impl Duplicate for Translation {
    fn duplicate(&self) -> (r: Self) {
        Translation { translation: self.translation.clone(), language: self.language.clone() }
    }
}

impl Duplicate for Sentence {
    fn duplicate(&self) -> (r: Self) {
        Sentence { sentence: self.sentence.clone(), meaning: self.meaning.clone() }
    }
}

impl Duplicate for Tag {
    fn duplicate(&self) -> (r: Self) {
        Tag { id: self.id, name: self.name.clone() }
    }
}

impl Duplicate for Conjugation {
    fn duplicate(&self) -> (r: Self) {
        Conjugation {
            present_ik: self.present_ik.clone(),
            present_jij: self.present_jij.clone(),
            present_u: self.present_u.clone(),
            present_hij_zij_het: self.present_hij_zij_het.clone(),
            present_plural: self.present_plural.clone(),
            imperfectum_singular: self.imperfectum_singular.clone(),
            imperfectum_plural: self.imperfectum_plural.clone(),
            perfectum: copy_text(&self.perfectum),
            perfectum_auxiliary_verb: self.perfectum_auxiliary_verb,
        }
    }
}

/// Copies each element of `v`, in order.
pub fn copy_all<T: Duplicate>(v: &Vec<T>) -> (r: Vec<T>)
    ensures
        r@ == v@,
{
    let mut r: Vec<T> = Vec::new();
    let mut i: usize = 0;
    while i < v.len()
        invariant
            i <= v@.len(),
            r@ == v@.take(i as int),
        decreases v@.len() - i,
    {
        r.push(v[i].duplicate());
        i = i + 1;
        assert(r@ =~= v@.take(i as int));
    }
    assert(v@.take(v@.len() as int) =~= v@);
    r
}

} // verus!
