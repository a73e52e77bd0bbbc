//! The class hierarchy index: walking `parent_class` chains and collecting
//! subclass membership.
//!
//! A chain may loop through other nodes — creation does not forbid it — so
//! every walk tracks the ids it has seen and stops on the first repeat.
//! Reachability along parent links is the specification: `nth_ancestor`
//! iterates one `parent_class` step `n` times, and a card is an ancestor
//! exactly when some number of steps lands on it.

use vstd::prelude::*;
use vstd::set_lib::lemma_int_range;
use vstd::set_lib::lemma_len_subset;
use vstd::set_lib::set_int_range;

use crate::store::{list_contains, Store};
use crate::types::{CardId, CardType};

verus! {

/// One step up the hierarchy: the parent of a class card, if any. Stale
/// ids and non-class cards have no parent.
pub open spec fn parent_step(s: Store, id: CardId) -> Option<CardId> {
    if s.valid(id) {
        match s.card_spec(id).ty {
            CardType::Class { parent_class, .. } => parent_class,
            _ => None,
        }
    } else {
        None
    }
}

/// The card reached after exactly `n` parent steps from `id`, if the chain
/// extends that far.
pub open spec fn nth_ancestor(s: Store, id: CardId, n: nat) -> Option<CardId>
    decreases n,
{
    if n == 0 {
        Some(id)
    } else {
        match parent_step(s, id) {
            Some(p) => nth_ancestor(s, p, (n - 1) as nat),
            None => None,
        }
    }
}

/// `anc` lies on `id`'s ancestor chain: some number of parent steps
/// (possibly zero) reaches it.
pub open spec fn is_ancestor(s: Store, anc: CardId, id: CardId) -> bool {
    exists|n: nat| nth_ancestor(s, id, n) == Some(anc)
}

/// A card belongs to `subclass_cards(class)`: it is an instance whose own
/// class has `class` on its ancestor chain.
pub open spec fn instance_qualifies(s: Store, class: CardId, x: CardId) -> bool {
    &&& s.valid(x)
    &&& match s.card_spec(x).ty {
        CardType::Instance { class: k, .. } => is_ancestor(s, class, k),
        _ => false,
    }
}

/// Unfolding `nth_ancestor` at the far end of the walk: one more step
/// applies `parent_step` to wherever `n` steps arrived.
pub proof fn lemma_nth_ancestor_snoc(s: Store, id: CardId, n: nat)
    ensures
        nth_ancestor(s, id, n + 1) == (match nth_ancestor(s, id, n) {
            Some(x) => parent_step(s, x),
            None => None,
        }),
    decreases n,
{
    if n == 0 {
        match parent_step(s, id) {
            Some(p) => {
                assert(nth_ancestor(s, p, 0) == Some(p));
            },
            None => {},
        }
    } else {
        match parent_step(s, id) {
            Some(p) => {
                lemma_nth_ancestor_snoc(s, p, (n - 1) as nat);
            },
            None => {},
        }
    }
}

/// A set of ids closed under parent steps traps the whole walk: whatever
/// `n` steps reach from a member is again a member.
pub proof fn lemma_reachable_in_closed_set(s: Store, start: CardId, ids: Seq<CardId>, n: nat)
    requires
        ids.contains(start),
        forall|y: CardId| #[trigger]
            ids.contains(y) ==> match parent_step(s, y) {
                Some(p) => ids.contains(p),
                None => true,
            },
        nth_ancestor(s, start, n) is Some,
    ensures
        ids.contains(nth_ancestor(s, start, n).unwrap()),
    decreases n,
{
    if n > 0 {
        match parent_step(s, start) {
            Some(p) => {
                lemma_reachable_in_closed_set(s, p, ids, (n - 1) as nat);
            },
            None => {},
        }
    }
}

/// Distinct ids drawn from `n` slots cannot number more than `n`.
pub proof fn lemma_distinct_ids_bound(l: Seq<CardId>, n: nat)
    requires
        forall|k1: int, k2: int| 0 <= k1 < k2 < l.len() ==> l[k1] != l[k2],
        forall|k: int| 0 <= k < l.len() ==> (#[trigger] l[k]).0 < n,
    ensures
        l.len() <= n,
{
    let vals = Seq::new(l.len(), |k: int| l[k].0 as int);
    assert forall|k1: int, k2: int| 0 <= k1 < k2 < vals.len() implies vals[k1] != vals[k2] by {
        assert(l[k1] != l[k2]);
    }
    assert(vals.no_duplicates());
    vals.unique_seq_to_set();
    assert(vals.to_set().subset_of(set_int_range(0, n as int))) by {
        assert forall|v: int| #[trigger]
            vals.to_set().contains(v) implies 0 <= v < n as int by {
            let k = choose|k: int| 0 <= k < vals.len() && vals[k] == v;
            assert(l[k].0 < n);
        }
    }
    lemma_int_range(0, n as int);
    lemma_len_subset(vals.to_set(), set_int_range(0, n as int));
}

/// One parent lookup, as the walk performs it.
pub fn parent_of(s: &Store, id: CardId) -> (r: Option<CardId>)
    ensures
        r == parent_step(*s, id),
{
    match s.load(id) {
        Some(c) => match &c.ty {
            CardType::Class { parent_class, .. } => *parent_class,
            _ => None,
        },
        None => None,
    }
}

/// The ancestor chain of a card: itself, then repeated `parent_class`
/// lookups, each id recorded once. The walk stops at a card without a
/// parent and on the first repeated id, so it terminates even when the
/// chain loops. The result lists exactly the cards some number of parent
/// steps can reach.
pub fn ancestor_chain(s: &Store, start: CardId) -> (r: Vec<CardId>)
    requires
        s.wf(),
    ensures
        r@.len() >= 1,
        r@[0] == start,
        forall|k: int|
            0 <= k < r@.len() ==> nth_ancestor(*s, start, k as nat) == Some(#[trigger] r@[k]),
        forall|k1: int, k2: int| 0 <= k1 < k2 < r@.len() ==> r@[k1] != r@[k2],
        forall|x: CardId| #[trigger] r@.contains(x) == is_ancestor(*s, x, start),
{
    let mut chain: Vec<CardId> = Vec::new();
    chain.push(start);
    let mut cur = start;
    loop
        invariant
            s.wf(),
            1 <= chain@.len() <= s.cards@.len() + 1,
            chain@[0] == start,
            chain@[chain@.len() - 1] == cur,
            forall|k: int|
                0 <= k < chain@.len() ==> nth_ancestor(*s, start, k as nat) == Some(
                    #[trigger] chain@[k],
                ),
            forall|k: int|
                0 <= k < chain@.len() - 1 ==> #[trigger] parent_step(*s, chain@[k]) == Some(
                    chain@[k + 1],
                ),
            forall|k1: int, k2: int| 0 <= k1 < k2 < chain@.len() ==> chain@[k1] != chain@[k2],
            forall|k: int| 1 <= k < chain@.len() ==> (#[trigger] chain@[k]).0 < s.cards@.len(),
        ensures
            match parent_step(*s, cur) {
                Some(p) => chain@.contains(p),
                None => true,
            },
        decreases s.cards@.len() + 1 - chain@.len(),
    {
        let step = parent_of(s, cur);
        match step {
            None => {
                break ;
            },
            Some(p) => {
                if list_contains(&chain, p) {
                    break ;
                }
                proof {
                    lemma_nth_ancestor_snoc(*s, start, (chain@.len() - 1) as nat);
                    lemma_distinct_ids_bound(
                        chain@.push(p).subrange(1, chain@.len() as int + 1),
                        s.cards@.len(),
                    );
                }
                chain.push(p);
                cur = p;
            },
        }
    }
    proof {
        let c = chain@;
        assert forall|y: CardId| #[trigger]
            c.contains(y) implies match parent_step(*s, y) {
                Some(p) => c.contains(p),
                None => true,
            } by {
            let k = choose|k: int| 0 <= k < c.len() && c[k] == y;
            if k < c.len() - 1 {
                assert(parent_step(*s, c[k]) == Some(c[k + 1]));
                assert(c.contains(c[k + 1]));
            } else {
                assert(y == cur);
            }
        }
        assert(c.contains(c[0]));
        assert forall|x: CardId| #[trigger] c.contains(x) == is_ancestor(*s, x, start) by {
            if c.contains(x) {
                let k = choose|k: int| 0 <= k < c.len() && c[k] == x;
                assert(nth_ancestor(*s, start, k as nat) == Some(x));
            }
            if is_ancestor(*s, x, start) {
                let n = choose|n: nat| nth_ancestor(*s, start, n) == Some(x);
                lemma_reachable_in_closed_set(*s, start, c, n);
            }
        }
    }
    chain
}

/// A card belongs to the descendant closure of `class`: it is a class
/// card with `class` on its own ancestor chain. The closure contains the
/// class itself.
pub open spec fn class_descends(s: Store, class: CardId, x: CardId) -> bool {
    &&& s.valid(x)
    &&& s.card_spec(x).ty is Class
    &&& is_ancestor(s, class, x)
}

/// The descendant closure of a class: every class whose ancestor chain
/// passes through `class`, itself included, each id exactly once.
pub fn descendant_classes(s: &Store, class: CardId) -> (r: Vec<CardId>)
    requires
        s.wf(),
    ensures
        forall|x: CardId| #[trigger] r@.contains(x) == class_descends(*s, class, x),
        forall|k1: int, k2: int| 0 <= k1 < k2 < r@.len() ==> r@[k1] != r@[k2],
{
    let mut out: Vec<CardId> = Vec::new();
    let n = s.card_count();
    for i in 0..n
        invariant
            s.wf(),
            n == s.cards@.len(),
            forall|x: CardId| #[trigger]
                out@.contains(x) == (x.0 < i && class_descends(*s, class, x)),
            forall|k1: int, k2: int| 0 <= k1 < k2 < out@.len() ==> out@[k1] != out@[k2],
            forall|k: int| 0 <= k < out@.len() ==> (#[trigger] out@[k]).0 < i,
    {
        let id = CardId(i as u64);
        let mut qualifies = false;
        match s.load(id) {
            Some(c) => {
                if c.ty.is_class() {
                    let chain = ancestor_chain(s, id);
                    qualifies = list_contains(&chain, class);
                }
            },
            None => {},
        }
        proof {
            assert(qualifies == class_descends(*s, class, id));
        }
        let ghost before = out@;
        if qualifies {
            out.push(id);
        }
        proof {
            assert forall|x: CardId| #[trigger]
                out@.contains(x) == (x.0 < i + 1 && class_descends(*s, class, x)) by {
                if qualifies {
                    crate::store::lemma_contains_push(before, id, x);
                } else {
                    if x.0 == i as u64 {
                        assert(!before.contains(x));
                    }
                }
            }
        }
    }
    out
}

/// Every instance whose ancestor chain passes through `class` — the
/// members of the class itself and of every descendant class — each id
/// exactly once, in issue order.
pub fn subclass_cards(s: &Store, class: CardId) -> (r: Vec<CardId>)
    requires
        s.wf(),
    ensures
        forall|x: CardId| #[trigger] r@.contains(x) == instance_qualifies(*s, class, x),
        forall|k1: int, k2: int| 0 <= k1 < k2 < r@.len() ==> r@[k1] != r@[k2],
{
    let mut out: Vec<CardId> = Vec::new();
    let n = s.card_count();
    for i in 0..n
        invariant
            s.wf(),
            n == s.cards@.len(),
            forall|x: CardId| #[trigger]
                out@.contains(x) == (x.0 < i && instance_qualifies(*s, class, x)),
            forall|k1: int, k2: int| 0 <= k1 < k2 < out@.len() ==> out@[k1] != out@[k2],
            forall|k: int| 0 <= k < out@.len() ==> (#[trigger] out@[k]).0 < i,
    {
        let id = CardId(i as u64);
        let mut qualifies = false;
        match s.load(id) {
            Some(c) => match &c.ty {
                CardType::Instance { class: k, .. } => {
                    let chain = ancestor_chain(s, *k);
                    qualifies = list_contains(&chain, class);
                },
                _ => {},
            },
            None => {},
        }
        proof {
            assert(qualifies == instance_qualifies(*s, class, id));
        }
        let ghost before = out@;
        if qualifies {
            out.push(id);
        }
        proof {
            assert forall|x: CardId| #[trigger]
                out@.contains(x) == (x.0 < i + 1 && instance_qualifies(*s, class, x)) by {
                if qualifies {
                    crate::store::lemma_contains_push(before, id, x);
                } else {
                    if x.0 == i as u64 {
                        assert(!before.contains(x));
                    }
                }
            }
        }
    }
    out
}

} // verus!
