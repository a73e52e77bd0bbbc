//! The command vocabulary of a study session: the short codes a learner
//! types at a card, and their exact reading. Dispatching an action — and
//! everything it needs a terminal for — is the front-end's business.

use vstd::prelude::*;
use vstd::string::StrSliceExecFns;

use crate::types::is_space;

verus! {

/// What a learner can ask of the current card.
#[derive(Clone, Copy, PartialEq, Eq, Structural, Debug)]
pub enum CardAction {
    NewDependency,
    OldDependency,
    NewDependent,
    OldDependent,
    Edit,
    Delete,
    /// Turn the card into an instance of a newly created class.
    NewClass,
    /// Turn the card into an instance of an existing class.
    OldClass,
    NewAttribute,
    OldAttribute,
    FillAttribute,
    SetBackRef,
    /// Set the parent class of the current class.
    ParentClass,
    NewCard,
    IntoStatement,
    IntoAttribute,
    IntoClass,
    IntoInstance,
    IntoEvent,
}

/// A string with its leading whitespace dropped.
pub open spec fn trim_front_spec(s: Seq<char>) -> Seq<char>
    decreases s.len(),
{
    if s.len() > 0 && is_space(s[0]) {
        trim_front_spec(s.skip(1))
    } else {
        s
    }
}

/// A string with its trailing whitespace dropped.
pub open spec fn trim_back_spec(s: Seq<char>) -> Seq<char>
    decreases s.len(),
{
    if s.len() > 0 && is_space(s[s.len() - 1]) {
        trim_back_spec(s.take(s.len() - 1))
    } else {
        s
    }
}

/// A string with whitespace dropped at both ends.
pub open spec fn trimmed(s: Seq<char>) -> Seq<char> {
    trim_back_spec(trim_front_spec(s))
}

/// The reading of a trimmed command: lower case selects an existing
/// card or class where upper case creates one; `i`-prefixed codes retype
/// the card.
pub open spec fn action_of(t: Seq<char>) -> Option<CardAction> {
    if t == "y"@ {
        Some(CardAction::OldDependency)
    } else if t == "Y"@ {
        Some(CardAction::NewDependency)
    } else if t == "t"@ {
        Some(CardAction::OldDependent)
    } else if t == "T"@ {
        Some(CardAction::NewDependent)
    } else if t == "c"@ {
        Some(CardAction::OldClass)
    } else if t == "C"@ {
        Some(CardAction::NewClass)
    } else if t == "p"@ {
        Some(CardAction::ParentClass)
    } else if t == "a"@ {
        Some(CardAction::OldAttribute)
    } else if t == "A"@ {
        Some(CardAction::NewAttribute)
    } else if t == "fa"@ {
        Some(CardAction::FillAttribute)
    } else if t == "ref"@ {
        Some(CardAction::SetBackRef)
    } else if t == "n"@ {
        Some(CardAction::NewCard)
    } else if t == "edit"@ {
        Some(CardAction::Edit)
    } else if t == "delete"@ {
        Some(CardAction::Delete)
    } else if t == "ic"@ {
        Some(CardAction::IntoClass)
    } else if t == "ia"@ {
        Some(CardAction::IntoAttribute)
    } else if t == "is"@ {
        Some(CardAction::IntoStatement)
    } else if t == "ii"@ {
        Some(CardAction::IntoInstance)
    } else if t == "ie"@ {
        Some(CardAction::IntoEvent)
    } else {
        None
    }
}

/// Character-for-character string equality.
pub fn str_eq(a: &str, b: &str) -> (r: bool)
    ensures
        r == (a@ == b@),
{
    let la = a.unicode_len();
    let lb = b.unicode_len();
    if la != lb {
        proof {
            if a@ == b@ {
                assert(a@.len() == b@.len());
            }
        }
        return false;
    }
    for i in 0..la
        invariant
            la == a@.len(),
            la == b@.len(),
            forall|k: int| 0 <= k < i ==> a@[k] == b@[k],
    {
        if a.get_char(i) != b.get_char(i) {
            proof {
                if a@ == b@ {
                    assert(a@[i as int] == b@[i as int]);
                }
            }
            return false;
        }
    }
    proof {
        assert(a@ =~= b@);
    }
    true
}

/// Dropping leading spaces reaches the first non-space.
proof fn lemma_trim_front(s: Seq<char>, a: int)
    requires
        0 <= a <= s.len(),
        forall|k: int| 0 <= k < a ==> is_space(#[trigger] s[k]),
        a == s.len() || !is_space(s[a]),
    ensures
        trim_front_spec(s) == s.skip(a),
    decreases a,
{
    if a == 0 {
        assert(s.skip(0) =~= s);
    } else {
        assert(is_space(s[0]));
        lemma_trim_front(s.skip(1), a - 1);
        assert(s.skip(1).skip(a - 1) =~= s.skip(a));
    }
}

/// Dropping trailing spaces reaches the last non-space.
proof fn lemma_trim_back(s: Seq<char>, b: int)
    requires
        0 <= b <= s.len(),
        forall|k: int| b <= k < s.len() ==> is_space(#[trigger] s[k]),
        b == 0 || !is_space(s[b - 1]),
    ensures
        trim_back_spec(s) == s.take(b),
    decreases s.len(),
{
    if b == s.len() {
        assert(s.take(b) =~= s);
    } else {
        assert(is_space(s[s.len() - 1]));
        lemma_trim_back(s.take(s.len() - 1), b);
        assert(s.take(s.len() - 1).take(b) =~= s.take(b));
    }
}

/// The string without its surrounding whitespace.
pub fn trim_str<'a>(s: &'a str) -> (r: &'a str)
    ensures
        r@ == trimmed(s@),
{
    let len = s.unicode_len();
    let mut a: usize = 0;
    while a < len && crate::types::space_char(s.get_char(a))
        invariant
            len == s@.len(),
            a <= len,
            forall|k: int| 0 <= k < a ==> is_space(#[trigger] s@[k]),
        decreases len - a,
    {
        a = a + 1;
    }
    proof {
        lemma_trim_front(s@, a as int);
    }
    if a == len {
        let r = s.substring_char(len, len);
        proof {
            assert(s@.skip(len as int) =~= Seq::<char>::empty());
            assert(trim_back_spec(Seq::<char>::empty()) =~= Seq::<char>::empty());
            assert(r@ =~= Seq::<char>::empty());
        }
        return r;
    }
    let mut b: usize = len;
    while b > a && crate::types::space_char(s.get_char(b - 1))
        invariant
            len == s@.len(),
            a < len,
            !is_space(s@[a as int]),
            a <= b <= len,
            forall|k: int| b <= k < len ==> is_space(#[trigger] s@[k]),
        decreases b,
    {
        b = b - 1;
    }
    proof {
        assert(b > a);
        let tail = s@.skip(a as int);
        assert forall|k: int| b - a <= k < tail.len() implies is_space(#[trigger] tail[k]) by {
            assert(tail[k] == s@[k + a]);
            assert(is_space(s@[k + a]));
        }
        assert(!is_space(tail[b - a - 1])) by {
            assert(tail[b - a - 1] == s@[b - 1]);
        }
        lemma_trim_back(tail, b - a);
        assert(tail.take(b - a) =~= s@.subrange(a as int, b as int));
    }
    s.substring_char(a, b)
}

/// The action a typed command selects, if the command is known. The
/// command is read with its surrounding whitespace ignored.
pub fn parse_card_action(s: &str) -> (r: Option<CardAction>)
    ensures
        r == action_of(trimmed(s@)),
{
    let t = trim_str(s);
    if str_eq(t, "y") {
        Some(CardAction::OldDependency)
    } else if str_eq(t, "Y") {
        Some(CardAction::NewDependency)
    } else if str_eq(t, "t") {
        Some(CardAction::OldDependent)
    } else if str_eq(t, "T") {
        Some(CardAction::NewDependent)
    } else if str_eq(t, "c") {
        Some(CardAction::OldClass)
    } else if str_eq(t, "C") {
        Some(CardAction::NewClass)
    } else if str_eq(t, "p") {
        Some(CardAction::ParentClass)
    } else if str_eq(t, "a") {
        Some(CardAction::OldAttribute)
    } else if str_eq(t, "A") {
        Some(CardAction::NewAttribute)
    } else if str_eq(t, "fa") {
        Some(CardAction::FillAttribute)
    } else if str_eq(t, "ref") {
        Some(CardAction::SetBackRef)
    } else if str_eq(t, "n") {
        Some(CardAction::NewCard)
    } else if str_eq(t, "edit") {
        Some(CardAction::Edit)
    } else if str_eq(t, "delete") {
        Some(CardAction::Delete)
    } else if str_eq(t, "ic") {
        Some(CardAction::IntoClass)
    } else if str_eq(t, "ia") {
        Some(CardAction::IntoAttribute)
    } else if str_eq(t, "is") {
        Some(CardAction::IntoStatement)
    } else if str_eq(t, "ii") {
        Some(CardAction::IntoInstance)
    } else if str_eq(t, "ie") {
        Some(CardAction::IntoEvent)
    } else {
        None
    }
}

} // verus!
