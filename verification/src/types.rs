//! The card data model: identifiers, answer payloads, the closed set of
//! card variants, attribute patterns, and the error type shared by every
//! operation of the core.

use vstd::prelude::*;
use vstd::string::StrSliceExecFns;

verus! {

/// Opaque stable identifier of a card.
#[derive(Clone, Copy, PartialEq, Eq, Structural, Debug, Hash)]
pub struct CardId(pub u64);

/// Opaque stable identifier of an attribute pattern.
#[derive(Clone, Copy, PartialEq, Eq, Structural, Debug, Hash)]
pub struct AttributeId(pub u64);

/// A card's answer: free text or a reference to another card.
#[derive(Debug)]
pub enum BackSide {
    Text(String),
    Card(CardId),
}

/// The closed set of card variants. Every consumer matches exhaustively,
/// so adding a variant forces every consumer to be revisited.
#[derive(Debug)]
pub enum CardType {
    Normal { front: String, back: BackSide },
    Unfinished { front: String },
    Instance { name: String, class: CardId },
    Class { name: String, back: BackSide, parent_class: Option<CardId>, is_event: bool },
    Attribute { attribute: AttributeId, back: BackSide, instance: CardId },
    Statement { front: String },
    Event { front: String },
}

/// A learning item: an identity, a typed payload, and the folder it was
/// filed under. Only `ty` is ever mutated; `id` and `category` are fixed
/// at creation.
#[derive(Debug)]
pub struct Card {
    pub id: CardId,
    pub ty: CardType,
    pub category: String,
}

/// A reusable question template declared on a class. When `back_type` is
/// set, a card answer must be an instance of that class or a descendant,
/// and free text is disallowed.
#[derive(Debug)]
pub struct Attribute {
    pub id: AttributeId,
    pub pattern: String,
    pub class: CardId,
    pub back_type: Option<CardId>,
}

/// Outcome of a rejected operation.
///
/// `UserCancelled` and `InvalidTransition` are local, recoverable notices;
/// `ReferenceNotFound` signals a stale or corrupt id and is propagated.
#[derive(Clone, Copy, PartialEq, Eq, Structural, Debug)]
pub enum CoreError {
    /// The caller declined an input the operation needed; nothing changed.
    UserCancelled,
    /// A precondition of the requested transition failed; nothing changed.
    InvalidTransition,
    /// A supplied id does not resolve in the store.
    ReferenceNotFound,
}

/// The whitespace the core strips and word-splits by.
pub open spec fn is_space(c: char) -> bool {
    c == ' ' || c == '\n' || c == '\t' || c == '\r'
}

/// Whitespace check, as executable code asks it.
pub fn space_char(c: char) -> (r: bool)
    ensures
        r == is_space(c),
{
    c == ' ' || c == '\n' || c == '\t' || c == '\r'
}

/// Nothing but whitespace, if anything at all.
pub open spec fn is_blank(s: Seq<char>) -> bool {
    forall|i: int| 0 <= i < s.len() ==> is_space(#[trigger] s[i])
}

/// Whether a string holds no visible character.
pub fn str_is_blank(s: &str) -> (r: bool)
    ensures
        r == is_blank(s@),
{
    let n = s.unicode_len();
    for i in 0..n
        invariant
            n == s@.len(),
            forall|k: int| 0 <= k < i ==> is_space(#[trigger] s@[k]),
    {
        if !space_char(s.get_char(i)) {
            return false;
        }
    }
    true
}

/// The payload a newly supplied card gets: a blank front is a
/// cancellation, not an error; a blank answer files the card as
/// unfinished; otherwise the card is a plain question and answer.
pub fn new_card_type(front: String, back: String) -> (r: Option<CardType>)
    ensures
        match r {
            None => is_blank(front@),
            Some(ty) => !is_blank(front@) && match ty {
                CardType::Unfinished { front: f } => f@ == front@ && is_blank(back@),
                CardType::Normal { front: f, back: b } => f@ == front@ && !is_blank(back@) && (
                b matches BackSide::Text(t) && t@ == back@),
                _ => false,
            },
        },
{
    if str_is_blank(front.as_str()) {
        None
    } else if str_is_blank(back.as_str()) {
        Some(CardType::Unfinished { front })
    } else {
        Some(CardType::Normal { front, back: BackSide::Text(back) })
    }
}

impl BackSide {
    /// Two answers are the same payload.
    pub open spec fn eq_spec(self, other: BackSide) -> bool {
        match (self, other) {
            (BackSide::Text(a), BackSide::Text(b)) => a@ == b@,
            (BackSide::Card(a), BackSide::Card(b)) => a == b,
            _ => false,
        }
    }
}

impl CardType {
    /// The answer payload a card currently carries, if its variant has one.
    pub open spec fn back_spec(self) -> Option<BackSide> {
        match self {
            CardType::Normal { back, .. } => Some(back),
            CardType::Class { back, .. } => Some(back),
            CardType::Attribute { back, .. } => Some(back),
            CardType::Unfinished { .. } => None,
            CardType::Instance { .. } => None,
            CardType::Statement { .. } => None,
            CardType::Event { .. } => None,
        }
    }

    pub open spec fn is_class_spec(self) -> bool {
        self is Class
    }

    pub open spec fn is_instance_spec(self) -> bool {
        self is Instance
    }

    /// Variant check used by the transition controller.
    pub fn is_class(&self) -> (r: bool)
        ensures
            r == self.is_class_spec(),
    {
        match self {
            CardType::Class { .. } => true,
            _ => false,
        }
    }

    /// Variant check used by the transition controller.
    pub fn is_instance(&self) -> (r: bool)
        ensures
            r == self.is_instance_spec(),
    {
        match self {
            CardType::Instance { .. } => true,
            _ => false,
        }
    }
}

} // verus!
