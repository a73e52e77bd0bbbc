//! The type transition controller: the state machine that retypes a card.
//!
//! States are the card variants; each operation validates its guard once,
//! at the moment of user intent, and either performs the retyping exactly
//! or reports why not. `UserCancelled` and `InvalidTransition` leave the
//! store untouched and are recoverable notices; `ReferenceNotFound` means
//! a supplied id went stale.
//!
//! Interactive choices (which instance, which pattern, which answer card)
//! arrive as parameters: the candidate sets come from the read-only
//! queries, and a missing choice where one is required is a cancellation.

use vstd::prelude::*;

use crate::attributes::{attributes_for, spec_fill};
use crate::hierarchy::{ancestor_chain, instance_qualifies, is_ancestor};
use crate::store::{list_contains, Store};
use crate::types::{AttributeId, BackSide, CardId, CardType, CoreError};

verus! {

/// The name an instance card answers to, when the id resolves to one.
pub open spec fn instance_name_opt(s: Store, id: CardId) -> Option<Seq<char>> {
    if s.valid(id) {
        match s.card_spec(id).ty {
            CardType::Instance { name, .. } => Some(name@),
            _ => None,
        }
    } else {
        None
    }
}

/// The class an instance belongs to; meaningful only for instance cards.
pub open spec fn inst_class(s: Store, id: CardId) -> CardId {
    match s.card_spec(id).ty {
        CardType::Instance { class, .. } => class,
        _ => id,
    }
}

/// The display text a card leads with. An attribute card asks its
/// pattern's question about its instance: each `{}` becomes the instance's
/// name; if the instance id no longer names an instance, the raw pattern
/// stands.
pub open spec fn front_of(s: Store, id: CardId) -> Seq<char> {
    match s.card_spec(id).ty {
        CardType::Normal { front, .. } => front@,
        CardType::Unfinished { front } => front@,
        CardType::Instance { name, .. } => name@,
        CardType::Class { name, .. } => name@,
        CardType::Statement { front } => front@,
        CardType::Event { front } => front@,
        CardType::Attribute { attribute, instance, .. } => if s.valid_attr(attribute) {
            match instance_name_opt(s, instance) {
                Some(nm) => spec_fill(s.attr_spec(attribute).pattern@, nm),
                None => s.attr_spec(attribute).pattern@,
            }
        } else {
            Seq::empty()
        },
    }
}

/// The answer a card currently carries, if its variant has one.
pub open spec fn back_of(s: Store, id: CardId) -> Option<BackSide> {
    s.card_spec(id).ty.back_spec()
}

/// An answer payload obeys a pattern's answer-class constraint: free text
/// is allowed only for unconstrained patterns, and a card answer to a
/// constrained pattern must be an instance of the required class or of a
/// subclass.
pub open spec fn answer_ok(s: Store, attribute: AttributeId, answer: BackSide) -> bool {
    match s.attr_spec(attribute).back_type {
        Some(t) => answer matches BackSide::Card(c) && instance_qualifies(s, t, c),
        None => true,
    }
}

/// A pattern that constrains its answer's class accepts no free text:
/// whatever the text, it is not a legal answer.
pub proof fn lemma_constrained_pattern_rejects_text(s: Store, attribute: AttributeId, t: String)
    requires
        s.attr_spec(attribute).back_type is Some,
    ensures
        !answer_ok(s, attribute, BackSide::Text(t)),
{
}

/// The variants a card may leave for `Instance`.
pub open spec fn instance_source_ok(ty: CardType) -> bool {
    ty is Normal || ty is Unfinished || ty is Statement || ty is Event
}

/// Only the payload of `id` changed; identity, category, every other
/// card, every pattern and every dependency edge are as before.
pub open spec fn only_retyped(s0: Store, s1: Store, id: CardId) -> bool {
    &&& s1.cards@.len() == s0.cards@.len()
    &&& forall|i: int|
        0 <= i < s0.cards@.len() && i != id.0 as int ==> #[trigger] s1.cards@[i]
            == s0.cards@[i]
    &&& s1.card_spec(id).id == s0.card_spec(id).id
    &&& s1.card_spec(id).category == s0.card_spec(id).category
    &&& s1.attrs@ == s0.attrs@
    &&& s1.deps@ == s0.deps@
    &&& s1.dependents@ == s0.dependents@
}

/// The answer a retyping derives from a card: its current one, or empty
/// text for a card without an answer.
pub open spec fn back_matches(b: BackSide, current: Option<BackSide>) -> bool {
    match current {
        Some(x) => b.eq_spec(x),
        None => b matches BackSide::Text(t) && t@ == Seq::<char>::empty(),
    }
}

/// The display text of a card, built for prompts and retypings.
pub fn card_front(s: &Store, id: CardId) -> (r: Option<String>)
    ensures
        match r {
            Some(f) => s.valid(id) && f@ == front_of(*s, id),
            None => !s.valid(id),
        },
{
    let c = match s.load(id) {
        Some(c) => c,
        None => {
            return None;
        },
    };
    match &c.ty {
        CardType::Normal { front, .. } => Some(front.clone()),
        CardType::Unfinished { front } => Some(front.clone()),
        CardType::Instance { name, .. } => Some(name.clone()),
        CardType::Class { name, .. } => Some(name.clone()),
        CardType::Statement { front } => Some(front.clone()),
        CardType::Event { front } => Some(front.clone()),
        CardType::Attribute { attribute, instance, .. } => {
            let attr = match s.load_attribute(*attribute) {
                Some(a) => a,
                None => {
                    return Some(String::new());
                },
            };
            match s.load(*instance) {
                Some(ic) => match &ic.ty {
                    CardType::Instance { name, .. } => Some(
                        crate::attributes::fill_pattern(attr.pattern.as_str(), name.as_str()),
                    ),
                    _ => Some(attr.pattern.clone()),
                },
                None => Some(attr.pattern.clone()),
            }
        },
    }
}

/// A copy of an answer payload.
pub fn clone_back(b: &BackSide) -> (r: BackSide)
    ensures
        r.eq_spec(*b),
{
    match b {
        BackSide::Text(t) => BackSide::Text(t.clone()),
        BackSide::Card(c) => BackSide::Card(*c),
    }
}

/// The answer a card currently carries, copied out.
pub fn card_back(s: &Store, id: CardId) -> (r: Option<BackSide>)
    ensures
        match r {
            Some(b) => s.valid(id) && (back_of(*s, id) matches Some(x) && b.eq_spec(x)),
            None => !s.valid(id) || back_of(*s, id) is None,
        },
{
    let c = match s.load(id) {
        Some(c) => c,
        None => {
            return None;
        },
    };
    match &c.ty {
        CardType::Normal { back, .. } => Some(clone_back(back)),
        CardType::Class { back, .. } => Some(clone_back(back)),
        CardType::Attribute { back, .. } => Some(clone_back(back)),
        _ => None,
    }
}

/// Retype a card into a bare statement of its current front.
pub fn into_statement(s: &mut Store, card: CardId) -> (r: Result<(), CoreError>)
    requires
        old(s).wf(),
    ensures
        final(s).wf(),
        match r {
            Ok(()) => {
                &&& old(s).valid(card)
                &&& only_retyped(*old(s), *final(s), card)
                &&& final(s).card_spec(card).ty matches CardType::Statement { front } && front@
                    == front_of(*old(s), card)
            },
            Err(e) => {
                &&& e == CoreError::ReferenceNotFound
                &&& !old(s).valid(card)
                &&& *final(s) == *old(s)
            },
        },
{
    let front = match card_front(s, card) {
        Some(f) => f,
        None => {
            return Err(CoreError::ReferenceNotFound);
        },
    };
    match s.mutate_type(card, CardType::Statement { front }) {
        Ok(()) => Ok(()),
        Err(e) => {
            proof {
                assert(false);
            }
            Err(e)
        },
    }
}

/// Retype a card into an event of its current front.
pub fn into_event(s: &mut Store, card: CardId) -> (r: Result<(), CoreError>)
    requires
        old(s).wf(),
    ensures
        final(s).wf(),
        match r {
            Ok(()) => {
                &&& old(s).valid(card)
                &&& only_retyped(*old(s), *final(s), card)
                &&& final(s).card_spec(card).ty matches CardType::Event { front } && front@
                    == front_of(*old(s), card)
            },
            Err(e) => {
                &&& e == CoreError::ReferenceNotFound
                &&& !old(s).valid(card)
                &&& *final(s) == *old(s)
            },
        },
{
    let front = match card_front(s, card) {
        Some(f) => f,
        None => {
            return Err(CoreError::ReferenceNotFound);
        },
    };
    match s.mutate_type(card, CardType::Event { front }) {
        Ok(()) => Ok(()),
        Err(e) => {
            proof {
                assert(false);
            }
            Err(e)
        },
    }
}

/// Retype a card into a class named after its current front, keeping its
/// answer (or empty text), with no parent and no event flag.
pub fn into_class(s: &mut Store, card: CardId) -> (r: Result<(), CoreError>)
    requires
        old(s).wf(),
    ensures
        final(s).wf(),
        match r {
            Ok(()) => {
                &&& old(s).valid(card)
                &&& only_retyped(*old(s), *final(s), card)
                &&& final(s).card_spec(card).ty matches CardType::Class {
                    name,
                    back,
                    parent_class,
                    is_event,
                } && name@ == front_of(*old(s), card) && parent_class is None && is_event
                    == false && back_matches(back, back_of(*old(s), card))
            },
            Err(e) => {
                &&& e == CoreError::ReferenceNotFound
                &&& !old(s).valid(card)
                &&& *final(s) == *old(s)
            },
        },
{
    let front = match card_front(s, card) {
        Some(f) => f,
        None => {
            return Err(CoreError::ReferenceNotFound);
        },
    };
    let back = match card_back(s, card) {
        Some(b) => b,
        None => BackSide::Text(String::new()),
    };
    let ty = CardType::Class { name: front, back, parent_class: None, is_event: false };
    match s.mutate_type(card, ty) {
        Ok(()) => Ok(()),
        Err(e) => {
            proof {
                assert(false);
            }
            Err(e)
        },
    }
}

/// Retype a plain, unfinished, statement or event card into an instance
/// of a class: its front becomes the instance's name.
pub fn into_instance(s: &mut Store, card: CardId, class: CardId) -> (r: Result<(), CoreError>)
    requires
        old(s).wf(),
    ensures
        final(s).wf(),
        match r {
            Ok(()) => {
                &&& old(s).valid(card) && old(s).valid(class)
                &&& instance_source_ok(old(s).card_spec(card).ty)
                &&& old(s).card_spec(class).ty is Class
                &&& only_retyped(*old(s), *final(s), card)
                &&& final(s).card_spec(card).ty matches CardType::Instance { name, class: k }
                    && name@ == front_of(*old(s), card) && k == class
            },
            Err(CoreError::ReferenceNotFound) => {
                &&& !old(s).valid(card) || !old(s).valid(class)
                &&& *final(s) == *old(s)
            },
            Err(CoreError::InvalidTransition) => {
                &&& old(s).valid(card) && old(s).valid(class)
                &&& !instance_source_ok(old(s).card_spec(card).ty) || !(old(s).card_spec(
                    class,
                ).ty is Class)
                &&& *final(s) == *old(s)
            },
            Err(_) => false,
        },
{
    if !s.has_card(card) || !s.has_card(class) {
        return Err(CoreError::ReferenceNotFound);
    }
    let source_ok = match s.load(card) {
        Some(c) => match &c.ty {
            CardType::Normal { .. } => true,
            CardType::Unfinished { .. } => true,
            CardType::Statement { .. } => true,
            CardType::Event { .. } => true,
            _ => false,
        },
        None => false,
    };
    let class_ok = match s.load(class) {
        Some(c) => c.ty.is_class(),
        None => false,
    };
    if !source_ok || !class_ok {
        return Err(CoreError::InvalidTransition);
    }
    let front = match card_front(s, card) {
        Some(f) => f,
        None => {
            proof {
                assert(false);
            }
            return Err(CoreError::ReferenceNotFound);
        },
    };
    match s.mutate_type(card, CardType::Instance { name: front, class }) {
        Ok(()) => Ok(()),
        Err(e) => {
            proof {
                assert(false);
            }
            Err(e)
        },
    }
}

/// Set the parent of a class card. Naming the class itself is a silent
/// no-op; the target must name another class card.
pub fn set_parent_class(s: &mut Store, card: CardId, parent: CardId) -> (r: Result<
    (),
    CoreError,
>)
    requires
        old(s).wf(),
    ensures
        final(s).wf(),
        match r {
            Ok(()) => {
                &&& old(s).valid(card)
                &&& old(s).card_spec(card).ty is Class
                &&& if parent == card {
                    *final(s) == *old(s)
                } else {
                    &&& old(s).valid(parent)
                    &&& old(s).card_spec(parent).ty is Class
                    &&& only_retyped(*old(s), *final(s), card)
                    &&& final(s).card_spec(card).ty matches CardType::Class {
                        name,
                        back,
                        parent_class,
                        is_event,
                    } && parent_class == Some(parent) && (old(s).card_spec(card).ty matches
                        CardType::Class {
                        name: n0,
                        back: b0,
                        is_event: e0,
                        ..
                    } && name@ == n0@ && back.eq_spec(b0) && is_event == e0)
                }
            },
            Err(CoreError::ReferenceNotFound) => {
                &&& !old(s).valid(card) || (old(s).card_spec(card).ty is Class && parent != card
                    && !old(s).valid(parent))
                &&& *final(s) == *old(s)
            },
            Err(CoreError::InvalidTransition) => {
                &&& old(s).valid(card)
                &&& (!(old(s).card_spec(card).ty is Class)) || (parent != card && old(s).valid(
                    parent,
                ) && !(old(s).card_spec(parent).ty is Class))
                &&& *final(s) == *old(s)
            },
            Err(_) => false,
        },
{
    let (name, back, is_event) = match s.load(card) {
        Some(c) => match &c.ty {
            CardType::Class { name, back, is_event, .. } => (
                name.clone(),
                clone_back(back),
                *is_event,
            ),
            _ => {
                return Err(CoreError::InvalidTransition);
            },
        },
        None => {
            return Err(CoreError::ReferenceNotFound);
        },
    };
    if parent.0 == card.0 {
        return Ok(());
    }
    let parent_ok = match s.load(parent) {
        Some(c) => c.ty.is_class(),
        None => {
            return Err(CoreError::ReferenceNotFound);
        },
    };
    if !parent_ok {
        return Err(CoreError::InvalidTransition);
    }
    let ty = CardType::Class { name, back, parent_class: Some(parent), is_event };
    match s.mutate_type(card, ty) {
        Ok(()) => Ok(()),
        Err(e) => {
            proof {
                assert(false);
            }
            Err(e)
        },
    }
}

/// The id resolves to an instance card.
pub open spec fn is_instance_card(s: Store, id: CardId) -> bool {
    s.valid(id) && s.card_spec(id).ty is Instance
}

/// The dependencies of a card that are instance cards, in list order.
pub open spec fn instance_deps_rec(s: Store, l: Seq<CardId>) -> Seq<CardId>
    decreases l.len(),
{
    if l.len() == 0 {
        Seq::empty()
    } else {
        let prefix = instance_deps_rec(s, l.drop_last());
        if is_instance_card(s, l.last()) {
            prefix.push(l.last())
        } else {
            prefix
        }
    }
}

pub open spec fn instance_deps(s: Store, card: CardId) -> Seq<CardId> {
    instance_deps_rec(s, s.deps_seq(card))
}

pub proof fn lemma_instance_deps_members(s: Store, l: Seq<CardId>)
    ensures
        forall|k: int|
            0 <= k < instance_deps_rec(s, l).len() ==> is_instance_card(
                s,
                #[trigger] instance_deps_rec(s, l)[k],
            ),
    decreases l.len(),
{
    if l.len() > 0 {
        lemma_instance_deps_members(s, l.drop_last());
        let prefix = instance_deps_rec(s, l.drop_last());
        let full = instance_deps_rec(s, l);
        assert forall|k: int| 0 <= k < full.len() implies is_instance_card(s, full[k]) by {
            if is_instance_card(s, l.last()) {
                assert(full == prefix.push(l.last()));
                if k < prefix.len() {
                    assert(full[k] == prefix[k]);
                    assert(is_instance_card(s, prefix[k]));
                } else {
                    assert(full[k] == l.last());
                }
            } else {
                assert(full == prefix);
                assert(is_instance_card(s, prefix[k]));
            }
        }
    }
}

/// The instance-card dependencies of a card — the candidates for turning
/// it into an attribute answer.
pub fn instance_dependencies(s: &Store, card: CardId) -> (r: Vec<CardId>)
    requires
        s.wf(),
    ensures
        r@ == if s.valid(card) {
            instance_deps(*s, card)
        } else {
            Seq::<CardId>::empty()
        },
{
    let deps = s.dependencies_of(card);
    let mut out: Vec<CardId> = Vec::new();
    let n = deps.len();
    proof {
        assert(deps@.take(0) =~= Seq::<CardId>::empty());
    }
    for k in 0..n
        invariant
            s.wf(),
            n == deps@.len(),
            out@ == instance_deps_rec(*s, deps@.take(k as int)),
    {
        let d = deps[k];
        let inst = match s.load(d) {
            Some(c) => c.ty.is_instance(),
            None => false,
        };
        proof {
            assert(deps@.take(k + 1).drop_last() =~= deps@.take(k as int));
            assert(deps@.take(k + 1).last() == deps@[k as int]);
        }
        if inst {
            out.push(d);
        }
    }
    proof {
        assert(deps@.take(n as int) =~= deps@);
    }
    out
}

/// The guards of a fresh attribute retyping, beyond id resolution: the
/// card is plain or unfinished, the chosen card is an instance, the chosen
/// pattern is declared on that instance's class or an ancestor, and the
/// supplied answer respects the pattern's answer-class constraint.
pub open spec fn fresh_guards_ok(
    s: Store,
    card: CardId,
    instance: CardId,
    attribute: AttributeId,
    answer: BackSide,
) -> bool {
    &&& s.card_spec(card).ty is Normal || s.card_spec(card).ty is Unfinished
    &&& s.card_spec(instance).ty is Instance
    &&& is_ancestor(s, s.attr_spec(attribute).class, inst_class(s, instance))
    &&& answer_ok(s, attribute, answer)
}

/// Retype a plain or unfinished card into an attribute card: the chosen
/// pattern asked about the chosen instance, answered by `answer`. A
/// free-text answer to a pattern with an answer-class constraint is
/// rejected; a constrained card answer must be an instance of that class
/// or a subclass.
pub fn into_attribute_fresh(
    s: &mut Store,
    card: CardId,
    instance: CardId,
    attribute: AttributeId,
    answer: BackSide,
) -> (r: Result<(), CoreError>)
    requires
        old(s).wf(),
    ensures
        final(s).wf(),
        match r {
            Ok(()) => {
                &&& old(s).valid(card) && old(s).valid(instance) && old(s).valid_attr(attribute)
                &&& fresh_guards_ok(*old(s), card, instance, attribute, answer)
                &&& only_retyped(*old(s), *final(s), card)
                &&& final(s).card_spec(card).ty matches CardType::Attribute {
                    attribute: a2,
                    back,
                    instance: i2,
                } && a2 == attribute && i2 == instance && back == answer
            },
            Err(CoreError::ReferenceNotFound) => {
                &&& !old(s).valid(card) || !old(s).valid(instance) || !old(s).valid_attr(
                    attribute,
                )
                &&& *final(s) == *old(s)
            },
            Err(CoreError::InvalidTransition) => {
                &&& old(s).valid(card) && old(s).valid(instance) && old(s).valid_attr(attribute)
                &&& !fresh_guards_ok(*old(s), card, instance, attribute, answer)
                &&& *final(s) == *old(s)
            },
            Err(_) => false,
        },
{
    if !s.has_card(card) || !s.has_card(instance) {
        return Err(CoreError::ReferenceNotFound);
    }
    let (attr_class, back_type) = match s.load_attribute(attribute) {
        Some(a) => (a.class, a.back_type),
        None => {
            return Err(CoreError::ReferenceNotFound);
        },
    };
    let source_ok = match s.load(card) {
        Some(c) => match &c.ty {
            CardType::Normal { .. } => true,
            CardType::Unfinished { .. } => true,
            _ => false,
        },
        None => false,
    };
    let inst_k = match s.load(instance) {
        Some(c) => match &c.ty {
            CardType::Instance { class, .. } => Some(*class),
            _ => None,
        },
        None => None,
    };
    let pattern_reaches = match inst_k {
        Some(k) => {
            let chain = ancestor_chain(s, k);
            list_contains(&chain, attr_class)
        },
        None => false,
    };
    let ans_ok = match back_type {
        None => true,
        Some(t) => match &answer {
            BackSide::Card(c) => {
                let q = match s.load(*c) {
                    Some(cc) => match &cc.ty {
                        CardType::Instance { class, .. } => {
                            let chain = ancestor_chain(s, *class);
                            list_contains(&chain, t)
                        },
                        _ => false,
                    },
                    None => false,
                };
                q
            },
            BackSide::Text(_) => false,
        },
    };
    if !source_ok || inst_k.is_none() || !pattern_reaches || !ans_ok {
        return Err(CoreError::InvalidTransition);
    }
    match s.mutate_type(card, CardType::Attribute { attribute, back: answer, instance }) {
        Ok(()) => Ok(()),
        Err(e) => {
            proof {
                assert(false);
            }
            Err(e)
        },
    }
}

/// The pattern is usable for an instance of class `k`.
pub open spec fn pattern_ok(s: Store, a: AttributeId, k: CardId) -> bool {
    s.valid_attr(a) && is_ancestor(s, s.attr_spec(a).class, k)
}

/// Some pattern is usable for an instance of class `k`.
pub open spec fn any_pattern_for(s: Store, k: CardId) -> bool {
    exists|a: AttributeId| pattern_ok(s, a, k)
}

/// The card's current answer respects the pattern's answer-class
/// constraint.
pub open spec fn answer_back_ok(s: Store, a: AttributeId, card: CardId) -> bool {
    match back_of(s, card) {
        Some(b) => answer_ok(s, a, b),
        None => false,
    }
}

/// Which instance dependency an existing-card retyping uses: the only
/// one, implicitly, when there is exactly one; the caller's explicit
/// choice among them when there are several; a rejection when there is
/// none, and a cancellation when a required choice is missing.
pub open spec fn chosen_instance_of(s: Store, card: CardId, chosen: Option<CardId>) -> Result<
    CardId,
    CoreError,
> {
    let cands = instance_deps(s, card);
    if cands.len() == 0 {
        Err(CoreError::InvalidTransition)
    } else if cands.len() == 1 {
        Ok(cands[0])
    } else {
        match chosen {
            None => Err(CoreError::UserCancelled),
            Some(c) => if cands.contains(c) {
                Ok(c)
            } else {
                Err(CoreError::InvalidTransition)
            },
        }
    }
}

/// The full decision an existing-card attribute retyping makes: which
/// instance and pattern it uses, or exactly why it stops.
pub open spec fn existing_choice(
    s: Store,
    card: CardId,
    chosen_instance: Option<CardId>,
    chosen_attribute: Option<AttributeId>,
) -> Result<(CardId, AttributeId), CoreError> {
    if !s.valid(card) {
        Err(CoreError::ReferenceNotFound)
    } else {
        match chosen_instance_of(s, card, chosen_instance) {
            Err(e) => Err(e),
            Ok(inst) => {
                let k = inst_class(s, inst);
                if !any_pattern_for(s, k) {
                    Err(CoreError::InvalidTransition)
                } else {
                    match chosen_attribute {
                        None => Err(CoreError::UserCancelled),
                        Some(a) => if !pattern_ok(s, a, k) {
                            Err(CoreError::InvalidTransition)
                        } else if back_of(s, card) is None {
                            Err(CoreError::InvalidTransition)
                        } else if !answer_back_ok(s, a, card) {
                            Err(CoreError::InvalidTransition)
                        } else {
                            Ok((inst, a))
                        },
                    }
                }
            },
        }
    }
}

/// How the instance is picked when an existing card becomes an attribute
/// answer: no instance dependency rejects the retyping; exactly one is
/// used implicitly, whatever the caller may have passed; several demand
/// an explicit choice, and a missing one is a cancellation.
pub proof fn lemma_existing_instance_selection(
    s: Store,
    card: CardId,
    chosen: Option<CardId>,
    other: Option<CardId>,
)
    ensures
        instance_deps(s, card).len() == 0 ==> chosen_instance_of(s, card, chosen) == Err::<
            CardId,
            CoreError,
        >(CoreError::InvalidTransition),
        instance_deps(s, card).len() == 1 ==> chosen_instance_of(s, card, chosen) == Ok::<
            CardId,
            CoreError,
        >(instance_deps(s, card)[0]) && chosen_instance_of(s, card, chosen)
            == chosen_instance_of(s, card, other),
        instance_deps(s, card).len() >= 2 && chosen is None ==> chosen_instance_of(
            s,
            card,
            chosen,
        ) == Err::<CardId, CoreError>(CoreError::UserCancelled),
{
}

/// Retype a card that already depends on an instance into an attribute
/// answer about it, keeping the card's current answer. With exactly one
/// instance dependency it is used implicitly; with none the retyping is
/// rejected; with several an explicit selection is required. The chosen
/// pattern must be usable for the instance's class, the card must carry
/// an answer, and that answer must respect the pattern's answer-class
/// constraint.
pub fn into_attribute_existing(
    s: &mut Store,
    card: CardId,
    chosen_instance: Option<CardId>,
    chosen_attribute: Option<AttributeId>,
) -> (r: Result<(), CoreError>)
    requires
        old(s).wf(),
    ensures
        final(s).wf(),
        match r {
            Ok(()) => {
                &&& existing_choice(*old(s), card, chosen_instance, chosen_attribute) matches Ok(
                    (inst, a),
                ) && only_retyped(*old(s), *final(s), card) && (final(s).card_spec(card).ty
                    matches CardType::Attribute {
                    attribute: a2,
                    back,
                    instance: i2,
                } && a2 == a && i2 == inst && back_matches(back, back_of(*old(s), card)))
            },
            Err(e) => {
                &&& existing_choice(*old(s), card, chosen_instance, chosen_attribute) == Err::<
                    (CardId, AttributeId),
                    CoreError,
                >(e)
                &&& *final(s) == *old(s)
            },
        },
{
    if !s.has_card(card) {
        return Err(CoreError::ReferenceNotFound);
    }
    let cands = instance_dependencies(s, card);
    proof {
        lemma_instance_deps_members(*s, old(s).deps_seq(card));
    }
    let inst: CardId;
    if cands.len() == 0 {
        return Err(CoreError::InvalidTransition);
    } else if cands.len() == 1 {
        inst = cands[0];
    } else {
        match chosen_instance {
            None => {
                return Err(CoreError::UserCancelled);
            },
            Some(c) => {
                if list_contains(&cands, c) {
                    inst = c;
                } else {
                    return Err(CoreError::InvalidTransition);
                }
            },
        }
    }
    proof {
        assert(instance_deps(*old(s), card).contains(inst));
        let ki = choose|ki: int|
            0 <= ki < instance_deps(*old(s), card).len() && instance_deps(*old(s), card)[ki]
                == inst;
        assert(is_instance_card(*old(s), inst));
    }
    let k = match s.load(inst) {
        Some(c) => match &c.ty {
            CardType::Instance { class, .. } => *class,
            _ => {
                proof {
                    assert(false);
                }
                return Err(CoreError::InvalidTransition);
            },
        },
        None => {
            proof {
                assert(false);
            }
            return Err(CoreError::InvalidTransition);
        },
    };
    let pats = attributes_for(s, k, inst);
    if pats.len() == 0 {
        proof {
            assert forall|a: AttributeId| !pattern_ok(*old(s), a, k) by {
                assert(!pats@.contains(a));
            }
        }
        return Err(CoreError::InvalidTransition);
    }
    proof {
        assert(pats@.contains(pats@[0]));
        assert(pattern_ok(*old(s), pats@[0], k));
        assert(any_pattern_for(*old(s), k));
    }
    let a = match chosen_attribute {
        None => {
            return Err(CoreError::UserCancelled);
        },
        Some(a) => a,
    };
    if !crate::attributes::attr_list_contains(&pats, a) {
        return Err(CoreError::InvalidTransition);
    }
    let back = match card_back(s, card) {
        Some(b) => b,
        None => {
            return Err(CoreError::InvalidTransition);
        },
    };
    let back_type = match s.load_attribute(a) {
        Some(at) => at.back_type,
        None => {
            proof {
                assert(false);
            }
            return Err(CoreError::InvalidTransition);
        },
    };
    let constraint_ok = match back_type {
        None => true,
        Some(t) => match &back {
            BackSide::Card(c) => {
                let q = match s.load(*c) {
                    Some(cc) => match &cc.ty {
                        CardType::Instance { class, .. } => {
                            let chain = ancestor_chain(s, *class);
                            list_contains(&chain, t)
                        },
                        _ => false,
                    },
                    None => false,
                };
                q
            },
            BackSide::Text(_) => false,
        },
    };
    if !constraint_ok {
        proof {
            assert(!answer_back_ok(*old(s), a, card));
        }
        return Err(CoreError::InvalidTransition);
    }
    proof {
        assert(answer_back_ok(*old(s), a, card));
    }
    match s.mutate_type(card, CardType::Attribute { attribute: a, back, instance: inst }) {
        Ok(()) => Ok(()),
        Err(e) => {
            proof {
                assert(false);
            }
            Err(e)
        },
    }
}

/// Declare a new attribute pattern on the class of the current instance
/// card; the card itself is not retyped.
pub fn new_attribute_pattern(
    s: &mut Store,
    card: CardId,
    pattern: String,
    back_type: Option<CardId>,
) -> (r: Result<AttributeId, CoreError>)
    requires
        old(s).wf(),
    ensures
        final(s).wf(),
        match r {
            Ok(aid) => {
                &&& old(s).valid(card)
                &&& old(s).card_spec(card).ty matches CardType::Instance { class: k, .. }
                    && old(s).valid(k) && old(s).card_spec(k).ty is Class && aid.0 == old(s).attrs@.len() && final(s).attrs@.len() == old(s).attrs@.len() + 1 && final(s).attr_spec(aid).pattern@ == pattern@ && final(s).attr_spec(aid).class == k
                    && final(s).attr_spec(aid).back_type == back_type
                &&& final(s).attrs@.subrange(0, old(s).attrs@.len() as int) == old(s).attrs@
                &&& final(s).cards@ == old(s).cards@
                &&& final(s).deps@ == old(s).deps@
                &&& final(s).dependents@ == old(s).dependents@
            },
            Err(CoreError::ReferenceNotFound) => {
                &&& !old(s).valid(card) || (old(s).card_spec(card).ty matches CardType::Instance {
                    class: k,
                    ..
                } && !old(s).valid(k))
                &&& *final(s) == *old(s)
            },
            Err(CoreError::InvalidTransition) => {
                &&& old(s).valid(card)
                &&& (!(old(s).card_spec(card).ty is Instance)) || (old(s).card_spec(card).ty
                    matches CardType::Instance { class: k, .. } && old(s).valid(k) && !(old(s).card_spec(k).ty is Class))
                &&& *final(s) == *old(s)
            },
            Err(_) => false,
        },
{
    let class = match s.load(card) {
        Some(c) => match &c.ty {
            CardType::Instance { class, .. } => *class,
            _ => {
                return Err(CoreError::InvalidTransition);
            },
        },
        None => {
            return Err(CoreError::ReferenceNotFound);
        },
    };
    s.create_attribute(pattern, class, back_type)
}

} // verus!
