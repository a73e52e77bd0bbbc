//! The in-memory card arena: cards and attribute patterns indexed by id,
//! and the dependency graph with its cached reverse (dependents) index.
//!
//! Ids are issued densely, so a card id is an index into the arena. The
//! well-formedness invariant ties every id to its slot, forbids a class
//! from being its own parent, and keeps the cached dependents index an
//! exact mirror of the forward dependency lists.

use vstd::prelude::*;

use crate::types::{Attribute, AttributeId, Card, CardId, CardType, CoreError};

verus! {

/// A dependency list extended by one target, unless the edge is already
/// present. Adding an edge twice is a no-op by construction.
pub open spec fn with_edge(l: Seq<CardId>, x: CardId) -> Seq<CardId> {
    if l.contains(x) {
        l
    } else {
        l.push(x)
    }
}

pub proof fn lemma_contains_push<A>(l: Seq<A>, x: A, y: A)
    ensures
        l.push(x).contains(y) <==> (l.contains(y) || y == x),
{
    if l.push(x).contains(y) {
        let k = choose|k: int| 0 <= k < l.push(x).len() && l.push(x)[k] == y;
        if k < l.len() {
            assert(l[k] == y);
        }
    }
    if l.contains(y) {
        let k = choose|k: int| 0 <= k < l.len() && l[k] == y;
        assert(l.push(x)[k] == y);
    }
    if y == x {
        assert(l.push(x)[l.len() as int] == y);
    }
}

/// Upserting the same edge a second time changes nothing: the dependency
/// view and the cached dependents view after two identical `add_dependency`
/// calls equal the views after one.
pub proof fn lemma_with_edge_idempotent(l: Seq<CardId>, x: CardId)
    ensures
        with_edge(with_edge(l, x), x) == with_edge(l, x),
{
    if !l.contains(x) {
        lemma_contains_push(l, x, x);
    }
}

/// The arena every query and transition of this crate runs against.
pub struct Store {
    /// Card in slot `i` has id `i`.
    pub cards: Vec<Card>,
    /// Attribute pattern in slot `j` has id `j`.
    pub attrs: Vec<Attribute>,
    /// `deps[i]` lists the cards that card `i` depends on.
    pub deps: Vec<Vec<CardId>>,
    /// Cached reverse index: `dependents[i]` lists the cards depending on `i`.
    pub dependents: Vec<Vec<CardId>>,
}

impl Store {
    pub open spec fn valid(self, id: CardId) -> bool {
        id.0 < self.cards@.len()
    }

    pub open spec fn valid_attr(self, id: AttributeId) -> bool {
        id.0 < self.attrs@.len()
    }

    pub open spec fn card_spec(self, id: CardId) -> Card {
        self.cards@[id.0 as int]
    }

    pub open spec fn attr_spec(self, id: AttributeId) -> Attribute {
        self.attrs@[id.0 as int]
    }

    pub open spec fn deps_seq(self, id: CardId) -> Seq<CardId> {
        self.deps@[id.0 as int]@
    }

    pub open spec fn dependents_seq(self, id: CardId) -> Seq<CardId> {
        self.dependents@[id.0 as int]@
    }

    /// Every id sits in its own slot and the edge vectors run parallel to
    /// the cards.
    pub open spec fn ids_ok(self) -> bool {
        &&& self.deps@.len() == self.cards@.len()
        &&& self.dependents@.len() == self.cards@.len()
        &&& forall|i: int|
            0 <= i < self.cards@.len() ==> (#[trigger] self.cards@[i]).id == CardId(i as u64)
        &&& forall|j: int|
            0 <= j < self.attrs@.len() ==> (#[trigger] self.attrs@[j]).id == AttributeId(j as u64)
    }

    /// No class is its own parent, and a parent reference resolves.
    pub open spec fn parents_ok(self) -> bool {
        forall|i: int|
            0 <= i < self.cards@.len() ==> match (#[trigger] self.cards@[i]).ty {
                CardType::Class { parent_class, .. } => match parent_class {
                    Some(p) => p.0 < self.cards@.len() && p.0 != i,
                    None => true,
                },
                _ => true,
            }
    }

    /// An edge list holds resolvable ids, each at most once.
    pub open spec fn edge_list_ok(self, l: Seq<CardId>) -> bool {
        &&& forall|k: int| 0 <= k < l.len() ==> (#[trigger] l[k]).0 < self.cards@.len()
        &&& forall|k1: int, k2: int| 0 <= k1 < k2 < l.len() ==> l[k1] != l[k2]
    }

    /// Forward lists and the cached reverse index are exact mirrors.
    pub open spec fn deps_ok(self) -> bool {
        &&& forall|i: int|
            0 <= i < self.deps@.len() ==> self.edge_list_ok(#[trigger] self.deps@[i]@)
        &&& forall|i: int|
            0 <= i < self.dependents@.len() ==> self.edge_list_ok(#[trigger] self.dependents@[i]@)
        &&& forall|i: int, j: int|
            0 <= i < self.cards@.len() && 0 <= j < self.cards@.len() ==> (
            (#[trigger] self.deps@[i]@.contains(CardId(j as u64))) <==> (
            #[trigger] self.dependents@[j]@.contains(CardId(i as u64))))
    }

    pub open spec fn wf(self) -> bool {
        self.ids_ok() && self.parents_ok() && self.deps_ok()
    }

    /// Ids the payload points at resolve in this store. Answer references
    /// inside a `BackSide` are deliberately not constrained here: an answer
    /// is data, not structure, and a stale one is tolerated and shown as
    /// missing.
    pub open spec fn ty_refs_valid(self, ty: CardType) -> bool {
        match ty {
            CardType::Instance { class, .. } => self.valid(class),
            CardType::Class { parent_class, .. } => match parent_class {
                Some(p) => self.valid(p),
                None => true,
            },
            CardType::Attribute { attribute, instance, .. } => self.valid_attr(attribute)
                && self.valid(instance),
            _ => true,
        }
    }

    pub fn new() -> (s: Store)
        ensures
            s.wf(),
            s.cards@.len() == 0,
            s.attrs@.len() == 0,
    {
        Store { cards: Vec::new(), attrs: Vec::new(), deps: Vec::new(), dependents: Vec::new() }
    }

    pub fn has_card(&self, id: CardId) -> (r: bool)
        ensures
            r == self.valid(id),
    {
        id.0 < self.cards.len() as u64
    }

    pub fn card_count(&self) -> (r: usize)
        ensures
            r == self.cards@.len(),
    {
        self.cards.len()
    }

    pub fn attr_count(&self) -> (r: usize)
        ensures
            r == self.attrs@.len(),
    {
        self.attrs.len()
    }

    /// `load(id)`: the card behind an id, or nothing for a stale id.
    pub fn load(&self, id: CardId) -> (r: Option<&Card>)
        ensures
            match r {
                Some(c) => self.valid(id) && *c == self.card_spec(id),
                None => !self.valid(id),
            },
    {
        if id.0 < self.cards.len() as u64 {
            Some(&self.cards[id.0 as usize])
        } else {
            None
        }
    }

    /// `load_attribute(id)`: the pattern behind an id, or nothing.
    pub fn load_attribute(&self, id: AttributeId) -> (r: Option<&Attribute>)
        ensures
            match r {
                Some(a) => self.valid_attr(id) && *a == self.attr_spec(id),
                None => !self.valid_attr(id),
            },
    {
        if id.0 < self.attrs.len() as u64 {
            Some(&self.attrs[id.0 as usize])
        } else {
            None
        }
    }

    /// Files a new card and issues its id. The payload's references must
    /// resolve; a dangling one is the caller holding a stale id.
    pub fn create_card(&mut self, ty: CardType, category: String) -> (r: Result<
        CardId,
        CoreError,
    >)
        requires
            old(self).wf(),
        ensures
            final(self).wf(),
            match r {
                Ok(id) => {
                    &&& old(self).ty_refs_valid(ty)
                    &&& id.0 == old(self).cards@.len()
                    &&& final(self).cards@.len() == old(self).cards@.len() + 1
                    &&& final(self).card_spec(id).id == id
                    &&& final(self).card_spec(id).ty == ty
                    &&& final(self).card_spec(id).category@ == category@
                    &&& final(self).cards@.subrange(0, old(self).cards@.len() as int) == old(self).cards@
                    &&& final(self).deps_seq(id) == Seq::<CardId>::empty()
                    &&& final(self).dependents_seq(id) == Seq::<CardId>::empty()
                    &&& forall|i: int|
                        0 <= i < old(self).deps@.len() ==> #[trigger] final(self).deps@[i]
                            == old(self).deps@[i]
                    &&& forall|i: int|
                        0 <= i < old(self).dependents@.len() ==> #[trigger] final(self).dependents@[i] == old(self).dependents@[i]
                    &&& final(self).attrs@ == old(self).attrs@
                },
                Err(e) => {
                    &&& e == CoreError::ReferenceNotFound
                    &&& !old(self).ty_refs_valid(ty)
                    &&& *final(self) == *old(self)
                },
            },
    {
        if !self.ty_refs_ok(&ty) {
            return Err(CoreError::ReferenceNotFound);
        }
        let id = CardId(self.cards.len() as u64);
        self.cards.push(Card { id, ty, category });
        self.deps.push(Vec::new());
        self.dependents.push(Vec::new());
        proof {
            assert(self.cards@.subrange(0, old(self).cards@.len() as int) =~= old(self).cards@);
            assert(self.deps_seq(id) =~= Seq::<CardId>::empty());
            assert(self.dependents_seq(id) =~= Seq::<CardId>::empty());
            assert forall|i: int, j: int|
                0 <= i < self.cards@.len() && 0 <= j < self.cards@.len() implies (
            (#[trigger] self.deps@[i]@.contains(CardId(j as u64))) <==> (
            #[trigger] self.dependents@[j]@.contains(CardId(i as u64)))) by {
                if i < old(self).cards@.len() && j < old(self).cards@.len() {
                    assert(old(self).deps@[i]@.contains(CardId(j as u64)) <==> old(self).dependents@[j]@.contains(CardId(i as u64)));
                }
            }
        }
        Ok(id)
    }

    /// `into_type`: replaces a card's payload, leaving id and category
    /// untouched. Performs no variant validation — that is the transition
    /// controller's job — but refuses dangling references and a class
    /// naming itself as parent, which no store state may hold.
    pub fn mutate_type(&mut self, id: CardId, ty: CardType) -> (r: Result<(), CoreError>)
        requires
            old(self).wf(),
        ensures
            final(self).wf(),
            match r {
                Ok(()) => {
                    &&& old(self).valid(id)
                    &&& old(self).ty_refs_valid(ty)
                    &&& !ty_self_parent(ty, id)
                    &&& final(self).cards@ == old(self).cards@.update(
                        id.0 as int,
                        Card {
                            id,
                            ty,
                            category: old(self).card_spec(id).category,
                        },
                    )
                    &&& final(self).attrs@ == old(self).attrs@
                    &&& final(self).deps@ == old(self).deps@
                    &&& final(self).dependents@ == old(self).dependents@
                },
                Err(CoreError::ReferenceNotFound) => {
                    &&& !old(self).valid(id) || !old(self).ty_refs_valid(ty)
                    &&& *final(self) == *old(self)
                },
                Err(CoreError::InvalidTransition) => {
                    &&& old(self).valid(id) && old(self).ty_refs_valid(ty)
                    &&& ty_self_parent(ty, id)
                    &&& *final(self) == *old(self)
                },
                Err(_) => false,
            },
    {
        if !self.has_card(id) || !self.ty_refs_ok(&ty) {
            return Err(CoreError::ReferenceNotFound);
        }
        match &ty {
            CardType::Class { parent_class: Some(p), .. } => {
                if p.0 == id.0 {
                    return Err(CoreError::InvalidTransition);
                }
            },
            _ => {},
        }
        let ghost ty0 = ty;
        proof {
            assert(self.cards.len() == self.cards@.len());
        }
        let slot = &mut self.cards[id.0 as usize];
        slot.ty = ty;
        proof {
            assert(old(self).cards@[id.0 as int].id == CardId(id.0 as int as u64));
            assert(CardId(id.0 as int as u64) == id);
            assert(self.cards@ == old(self).cards@.update(
                id.0 as int,
                Card { id, ty: ty0, category: old(self).card_spec(id).category },
            ));
            assert forall|i: int| 0 <= i < self.cards@.len() implies match (
            #[trigger] self.cards@[i]).ty {
                CardType::Class { parent_class, .. } => match parent_class {
                    Some(p) => p.0 < self.cards@.len() && p.0 != i,
                    None => true,
                },
                _ => true,
            } by {
                if i != id.0 as int {
                    assert(self.cards@[i] == old(self).cards@[i]);
                }
            }
        }
        Ok(())
    }

    /// Records that `to` depends on `from` and refreshes the cached
    /// dependents index in the same step. Upserting an existing edge is a
    /// no-op; cycles and self-edges are accepted domain outcomes.
    pub fn add_dependency(&mut self, from: CardId, to: CardId) -> (r: Result<(), CoreError>)
        requires
            old(self).wf(),
        ensures
            final(self).wf(),
            match r {
                Ok(()) => {
                    &&& old(self).valid(from) && old(self).valid(to)
                    &&& final(self).deps_seq(to) == with_edge(old(self).deps_seq(to), from)
                    &&& final(self).dependents_seq(from) == with_edge(
                        old(self).dependents_seq(from),
                        to,
                    )
                    &&& forall|i: int|
                        0 <= i < old(self).deps@.len() && i != to.0 as int
                            ==> #[trigger] final(self).deps@[i] == old(self).deps@[i]
                    &&& forall|i: int|
                        0 <= i < old(self).dependents@.len() && i != from.0 as int
                            ==> #[trigger] final(self).dependents@[i] == old(self).dependents@[i]
                    &&& final(self).cards@ == old(self).cards@
                    &&& final(self).attrs@ == old(self).attrs@
                },
                Err(CoreError::ReferenceNotFound) => {
                    &&& !old(self).valid(from) || !old(self).valid(to)
                    &&& *final(self) == *old(self)
                },
                Err(_) => false,
            },
    {
        if !self.has_card(from) || !self.has_card(to) {
            return Err(CoreError::ReferenceNotFound);
        }
        proof {
            assert(self.cards.len() == self.cards@.len());
            assert(self.deps.len() == self.deps@.len());
            assert(self.dependents.len() == self.dependents@.len());
        }
        let ti = to.0 as usize;
        let has_fwd = list_contains(&self.deps[ti], from);
        if !has_fwd {
            let l = &mut self.deps[ti];
            l.push(from);
        }
        let fi = from.0 as usize;
        let has_rev = list_contains(&self.dependents[fi], to);
        if !has_rev {
            let l = &mut self.dependents[fi];
            l.push(to);
        }
        proof {
            let s0 = *old(self);
            let s1 = *self;
            let ti_g = to.0 as int;
            let fi_g = from.0 as int;
            assert(CardId(fi_g as u64) == from);
            assert(CardId(ti_g as u64) == to);
            // The two lists were mirrors before, so the edge was either
            // recorded in both directions or in neither.
            assert(s0.deps@[ti_g]@.contains(CardId(fi_g as u64)) <==> s0.dependents@[fi_g]@.contains(
                CardId(ti_g as u64),
            ));
            assert(s0.deps_seq(to).contains(from) <==> s0.dependents_seq(from).contains(to));
            assert(has_fwd <==> has_rev);
            if !has_fwd {
                lemma_contains_push(s0.deps_seq(to), from, from);
                lemma_contains_push(s0.dependents_seq(from), to, to);
            }
            assert forall|i: int|
                0 <= i < s1.deps@.len() implies s1.edge_list_ok(#[trigger] s1.deps@[i]@) by {
                assert(s0.edge_list_ok(s0.deps@[i]@));
                if i == to.0 as int && !has_fwd {
                    assert forall|k1: int, k2: int|
                        0 <= k1 < k2 < s1.deps@[i]@.len() implies s1.deps@[i]@[k1]
                        != s1.deps@[i]@[k2] by {
                        if k2 == s0.deps@[i]@.len() as int {
                            assert(!s0.deps@[i]@.contains(from));
                            assert(s0.deps@[i]@[k1] != from);
                        }
                    }
                }
            }
            assert forall|i: int|
                0 <= i < s1.dependents@.len() implies s1.edge_list_ok(
                #[trigger] s1.dependents@[i]@) by {
                assert(s0.edge_list_ok(s0.dependents@[i]@));
                if i == from.0 as int && !has_rev {
                    assert forall|k1: int, k2: int|
                        0 <= k1 < k2 < s1.dependents@[i]@.len() implies s1.dependents@[i]@[k1]
                        != s1.dependents@[i]@[k2] by {
                        if k2 == s0.dependents@[i]@.len() as int {
                            assert(!s0.dependents@[i]@.contains(to));
                            assert(s0.dependents@[i]@[k1] != to);
                        }
                    }
                }
            }
            assert forall|i: int, j: int|
                0 <= i < s1.cards@.len() && 0 <= j < s1.cards@.len() implies (
            (#[trigger] s1.deps@[i]@.contains(CardId(j as u64))) <==> (
            #[trigger] s1.dependents@[j]@.contains(CardId(i as u64)))) by {
                assert(s0.deps@[i]@.contains(CardId(j as u64)) <==> s0.dependents@[j]@.contains(
                    CardId(i as u64)));
                if !has_fwd {
                    lemma_contains_push(s0.deps_seq(to), from, CardId(j as u64));
                    lemma_contains_push(s0.dependents_seq(from), to, CardId(i as u64));
                }
            }
        }
        Ok(())
    }

    /// Forward list of what a card depends on; empty for a stale id.
    pub fn dependencies_of(&self, id: CardId) -> (r: Vec<CardId>)
        requires
            self.wf(),
        ensures
            r@ == if self.valid(id) {
                self.deps_seq(id)
            } else {
                Seq::<CardId>::empty()
            },
    {
        if id.0 < self.deps.len() as u64 {
            copy_ids(&self.deps[id.0 as usize])
        } else {
            let empty: Vec<CardId> = Vec::new();
            proof {
                assert(empty@ =~= Seq::<CardId>::empty());
            }
            empty
        }
    }

    /// The cached reverse view: which cards depend on this one.
    pub fn cached_dependents_of(&self, id: CardId) -> (r: Vec<CardId>)
        requires
            self.wf(),
        ensures
            r@ == if self.valid(id) {
                self.dependents_seq(id)
            } else {
                Seq::<CardId>::empty()
            },
    {
        if id.0 < self.dependents.len() as u64 {
            copy_ids(&self.dependents[id.0 as usize])
        } else {
            let empty: Vec<CardId> = Vec::new();
            proof {
                assert(empty@ =~= Seq::<CardId>::empty());
            }
            empty
        }
    }

    /// Every card id, in issue order.
    pub fn all_cards(&self) -> (r: Vec<CardId>)
        ensures
            r@.len() == self.cards@.len(),
            forall|k: int| 0 <= k < r@.len() ==> #[trigger] r@[k] == CardId(k as u64),
    {
        let mut out: Vec<CardId> = Vec::new();
        let n = self.cards.len();
        for i in 0..n
            invariant
                out@.len() == i,
                forall|k: int| 0 <= k < i ==> #[trigger] out@[k] == CardId(k as u64),
        {
            out.push(CardId(i as u64));
        }
        out
    }

    /// Every class card's id, each exactly once.
    pub fn all_classes(&self) -> (r: Vec<CardId>)
        ensures
            forall|x: CardId| #[trigger]
                r@.contains(x) <==> self.valid(x) && self.card_spec(x).ty is Class,
            forall|k1: int, k2: int| 0 <= k1 < k2 < r@.len() ==> r@[k1] != r@[k2],
    {
        let mut out: Vec<CardId> = Vec::new();
        let n = self.cards.len();
        for i in 0..n
            invariant
                n == self.cards@.len(),
                forall|x: CardId| #[trigger]
                    out@.contains(x) <==> x.0 < i && self.card_spec(x).ty is Class,
                forall|k1: int, k2: int| 0 <= k1 < k2 < out@.len() ==> out@[k1] != out@[k2],
                forall|k: int| 0 <= k < out@.len() ==> (#[trigger] out@[k]).0 < i,
        {
            let is_class = self.cards[i].ty.is_class();
            if is_class {
                proof {
                    lemma_contains_push(out@, CardId(i as u64), CardId(i as u64));
                }
                let ghost before = out@;
                out.push(CardId(i as u64));
                proof {
                    assert forall|x: CardId| #[trigger]
                        out@.contains(x) <==> x.0 < i + 1 && self.card_spec(x).ty is Class by {
                        lemma_contains_push(before, CardId(i as u64), x);
                    }
                }
            }
        }
        out
    }

    /// Files a new attribute pattern on a class and issues its id.
    /// Succeeds exactly when `class` resolves to a class card; the optional
    /// answer-class constraint is stored as given.
    pub fn create_attribute(&mut self, pattern: String, class: CardId, back_type: Option<
        CardId,
    >) -> (r: Result<AttributeId, CoreError>)
        requires
            old(self).wf(),
        ensures
            final(self).wf(),
            match r {
                Ok(aid) => {
                    &&& old(self).valid(class)
                    &&& old(self).card_spec(class).ty is Class
                    &&& aid.0 == old(self).attrs@.len()
                    &&& final(self).attrs@.len() == old(self).attrs@.len() + 1
                    &&& final(self).attr_spec(aid).id == aid
                    &&& final(self).attr_spec(aid).pattern@ == pattern@
                    &&& final(self).attr_spec(aid).class == class
                    &&& final(self).attr_spec(aid).back_type == back_type
                    &&& final(self).attrs@.subrange(0, old(self).attrs@.len() as int) == old(self).attrs@
                    &&& final(self).cards@ == old(self).cards@
                    &&& final(self).deps@ == old(self).deps@
                    &&& final(self).dependents@ == old(self).dependents@
                },
                Err(CoreError::ReferenceNotFound) => {
                    &&& !old(self).valid(class)
                    &&& *final(self) == *old(self)
                },
                Err(CoreError::InvalidTransition) => {
                    &&& old(self).valid(class)
                    &&& !(old(self).card_spec(class).ty is Class)
                    &&& *final(self) == *old(self)
                },
                Err(_) => false,
            },
    {
        if !self.has_card(class) {
            return Err(CoreError::ReferenceNotFound);
        }
        proof {
            assert(self.cards.len() == self.cards@.len());
        }
        if !self.cards[class.0 as usize].ty.is_class() {
            return Err(CoreError::InvalidTransition);
        }
        let aid = AttributeId(self.attrs.len() as u64);
        self.attrs.push(Attribute { id: aid, pattern, class, back_type });
        proof {
            assert(self.attrs@.subrange(0, old(self).attrs@.len() as int) =~= old(self).attrs@);
        }
        Ok(aid)
    }

    /// Checks that a payload's references resolve here.
    fn ty_refs_ok(&self, ty: &CardType) -> (r: bool)
        ensures
            r == self.ty_refs_valid(*ty),
    {
        match ty {
            CardType::Instance { class, .. } => class.0 < self.cards.len() as u64,
            CardType::Class { parent_class, .. } => match parent_class {
                Some(p) => p.0 < self.cards.len() as u64,
                None => true,
            },
            CardType::Attribute { attribute, instance, .. } => attribute.0 < self.attrs.len() as u64
                && instance.0 < self.cards.len() as u64,
            _ => true,
        }
    }
}

/// A class payload that names the given card as its own parent.
pub open spec fn ty_self_parent(ty: CardType, id: CardId) -> bool {
    match ty {
        CardType::Class { parent_class, .. } => match parent_class {
            Some(p) => p == id,
            None => false,
        },
        _ => false,
    }
}

/// Membership in an id list.
pub fn list_contains(l: &Vec<CardId>, x: CardId) -> (r: bool)
    ensures
        r == l@.contains(x),
{
    let n = l.len();
    for k in 0..n
        invariant
            n == l@.len(),
            forall|m: int| 0 <= m < k ==> l@[m] != x,
    {
        if l[k] == x {
            return true;
        }
    }
    false
}

/// An element-for-element copy of an id list.
pub fn copy_ids(l: &Vec<CardId>) -> (r: Vec<CardId>)
    ensures
        r@ == l@,
{
    let mut out: Vec<CardId> = Vec::new();
    let n = l.len();
    for k in 0..n
        invariant
            n == l@.len(),
            out@ == l@.subrange(0, k as int),
    {
        out.push(l[k]);
        proof {
            assert(out@ =~= l@.subrange(0, k + 1));
        }
    }
    proof {
        assert(l@.subrange(0, l@.len() as int) =~= l@);
    }
    out
}

} // verus!
