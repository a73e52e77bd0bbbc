//! The attribute resolution engine: which question patterns a class offers
//! its instances, which cards may answer a constrained pattern, and the
//! display text a pattern produces for an instance.
//!
//! Instances inherit every pattern declared on an ancestor of their class,
//! so the usable set for a class is the deduplicated union along its
//! ancestor chain.

use vstd::prelude::*;
use vstd::string::StrSliceExecFns;
use vstd::string::StringExecFns;

use crate::hierarchy::{ancestor_chain, instance_qualifies, is_ancestor, subclass_cards};
use crate::store::{lemma_contains_push, list_contains, Store};
use crate::types::{AttributeId, CardId, CoreError};

verus! {

/// Membership in an attribute id list.
pub fn attr_list_contains(l: &Vec<AttributeId>, x: AttributeId) -> (r: bool)
    ensures
        r == l@.contains(x),
{
    let n = l.len();
    for k in 0..n
        invariant
            n == l@.len(),
            forall|m: int| 0 <= m < k ==> l@[m] != x,
    {
        if l[k] == x {
            return true;
        }
    }
    false
}

/// Every pattern usable by an instance of `class`: those declared on the
/// class itself and on each ancestor, each id exactly once. The instance
/// only names who is asking; the candidate set depends on the class alone.
pub fn attributes_for(s: &Store, class: CardId, instance: CardId) -> (r: Vec<AttributeId>)
    requires
        s.wf(),
    ensures
        forall|a: AttributeId| #[trigger]
            r@.contains(a) == (s.valid_attr(a) && is_ancestor(
                *s,
                s.attr_spec(a).class,
                class,
            )),
        forall|k1: int, k2: int| 0 <= k1 < k2 < r@.len() ==> r@[k1] != r@[k2],
{
    let chain = ancestor_chain(s, class);
    let mut out: Vec<AttributeId> = Vec::new();
    let n = s.attr_count();
    for j in 0..n
        invariant
            s.wf(),
            n == s.attrs@.len(),
            forall|x: CardId| #[trigger] chain@.contains(x) == is_ancestor(*s, x, class),
            forall|a: AttributeId| #[trigger]
                out@.contains(a) == (a.0 < j && is_ancestor(*s, s.attr_spec(a).class, class)),
            forall|k1: int, k2: int| 0 <= k1 < k2 < out@.len() ==> out@[k1] != out@[k2],
            forall|k: int| 0 <= k < out@.len() ==> (#[trigger] out@[k]).0 < j,
    {
        let aid = AttributeId(j as u64);
        let qualifies = list_contains(&chain, self_attr_class(s, j));
        let ghost before = out@;
        if qualifies {
            out.push(aid);
        }
        proof {
            assert forall|a: AttributeId| #[trigger]
                out@.contains(a) == (a.0 < j + 1 && is_ancestor(
                    *s,
                    s.attr_spec(a).class,
                    class,
                )) by {
                if qualifies {
                    lemma_contains_push(before, aid, a);
                } else {
                    if a.0 == j as u64 {
                        assert(!before.contains(a));
                    }
                }
            }
        }
    }
    out
}

/// The patterns declared exactly on `class`, without inheritance.
pub fn attributes_for_class_only(s: &Store, class: CardId) -> (r: Vec<AttributeId>)
    requires
        s.wf(),
    ensures
        forall|a: AttributeId| #[trigger]
            r@.contains(a) == (s.valid_attr(a) && s.attr_spec(a).class == class),
        forall|k1: int, k2: int| 0 <= k1 < k2 < r@.len() ==> r@[k1] != r@[k2],
{
    let mut out: Vec<AttributeId> = Vec::new();
    let n = s.attr_count();
    for j in 0..n
        invariant
            s.wf(),
            n == s.attrs@.len(),
            forall|a: AttributeId| #[trigger]
                out@.contains(a) == (a.0 < j && s.attr_spec(a).class == class),
            forall|k1: int, k2: int| 0 <= k1 < k2 < out@.len() ==> out@[k1] != out@[k2],
            forall|k: int| 0 <= k < out@.len() ==> (#[trigger] out@[k]).0 < j,
    {
        let aid = AttributeId(j as u64);
        let qualifies = self_attr_class(s, j).0 == class.0;
        let ghost before = out@;
        if qualifies {
            out.push(aid);
        }
        proof {
            assert(qualifies == (s.attr_spec(aid).class == class));
            assert forall|a: AttributeId| #[trigger]
                out@.contains(a) == (a.0 < j + 1 && s.attr_spec(a).class == class) by {
                if qualifies {
                    lemma_contains_push(before, aid, a);
                } else {
                    if a.0 == j as u64 {
                        assert(!before.contains(a));
                    }
                }
            }
        }
    }
    out
}

/// The class an attribute slot is declared on.
fn self_attr_class(s: &Store, j: usize) -> (r: CardId)
    requires
        j < s.attrs@.len(),
    ensures
        r == s.attrs@[j as int].class,
{
    s.attrs[j].class
}

/// The legal card answers for a pattern. Without an answer-class
/// constraint there is no restriction; with `back_type = Some(t)` the only
/// acceptable card answers are the instances of `t` and of its subclasses,
/// and free text is ruled out altogether.
pub fn resolve_back_candidates(s: &Store, attribute: AttributeId) -> (r: Result<
    Option<Vec<CardId>>,
    CoreError,
>)
    requires
        s.wf(),
    ensures
        match r {
            Ok(cands) => {
                &&& s.valid_attr(attribute)
                &&& match cands {
                    None => s.attr_spec(attribute).back_type is None,
                    Some(v) => {
                        &&& s.attr_spec(attribute).back_type matches Some(t)
                            && (forall|x: CardId| #[trigger]
                            v@.contains(x) == instance_qualifies(*s, t, x))
                        &&& forall|k1: int, k2: int|
                            0 <= k1 < k2 < v@.len() ==> v@[k1] != v@[k2]
                    },
                }
            },
            Err(e) => {
                &&& e == CoreError::ReferenceNotFound
                &&& !s.valid_attr(attribute)
            },
        },
{
    let attr = match s.load_attribute(attribute) {
        Some(a) => a,
        None => {
            return Err(CoreError::ReferenceNotFound);
        },
    };
    match attr.back_type {
        None => Ok(None),
        Some(t) => Ok(Some(subclass_cards(s, t))),
    }
}

/// A pattern with every `{}` placeholder replaced by a name.
pub open spec fn spec_fill(p: Seq<char>, name: Seq<char>) -> Seq<char>
    decreases p.len(),
{
    if p.len() >= 2 && p[0] == '{' && p[1] == '}' {
        name + spec_fill(p.skip(2), name)
    } else if p.len() >= 1 {
        seq![p[0]] + spec_fill(p.skip(1), name)
    } else {
        Seq::empty()
    }
}

/// The question text a pattern poses about a named instance: each `{}` in
/// the pattern becomes the name.
pub fn fill_pattern(pattern: &str, name: &str) -> (r: String)
    ensures
        r@ == spec_fill(pattern@, name@),
{
    let len = pattern.unicode_len();
    let mut out = String::new();
    let mut i: usize = 0;
    proof {
        assert(pattern@.skip(0) =~= pattern@);
        assert(out@ + spec_fill(pattern@, name@) =~= spec_fill(pattern@, name@));
    }
    while i < len
        invariant
            len == pattern@.len(),
            i <= len,
            spec_fill(pattern@, name@) == out@ + spec_fill(pattern@.skip(i as int), name@),
        decreases len - i,
    {
        let ghost rest = pattern@.skip(i as int);
        if i + 1 < len && pattern.get_char(i) == '{' && pattern.get_char(i + 1) == '}' {
            proof {
                assert(rest[0] == '{' && rest[1] == '}');
                assert(rest.skip(2) =~= pattern@.skip(i + 2));
                assert(out@ + (name@ + spec_fill(pattern@.skip(i + 2), name@)) =~= (out@ + name@)
                    + spec_fill(pattern@.skip(i + 2), name@));
            }
            out.append(name);
            i = i + 2;
        } else {
            let piece = pattern.substring_char(i, i + 1);
            proof {
                assert(rest[0] == pattern@[i as int]);
                assert(rest.len() >= 1);
                if rest.len() >= 2 && rest[0] == '{' && rest[1] == '}' {
                    assert(i + 1 < len && pattern@[i as int] == '{' && pattern@[i + 1] == '}');
                }
                assert(rest.skip(1) =~= pattern@.skip(i + 1));
                assert(piece@ =~= seq![pattern@[i as int]]);
                assert(out@ + (seq![rest[0]] + spec_fill(pattern@.skip(i + 1), name@)) =~= (out@
                    + piece@) + spec_fill(pattern@.skip(i + 1), name@));
            }
            out.append(piece);
            i = i + 1;
        }
    }
    proof {
        assert(pattern@.skip(len as int) =~= Seq::<char>::empty());
        assert(out@ + Seq::<char>::empty() =~= out@);
    }
    out
}

} // verus!
