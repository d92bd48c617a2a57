//! What the engine assumes of an application-chosen identifier key type.
//!
//! The whole layer is generic over the key type `K` used inside
//! [`crate::structs::Identifier`]. The engine looks entities up by comparing
//! keys with `K`'s own `PartialEq` implementation and stores keys by cloning
//! them, so its contracts are stated over `K`'s equality specification
//! (`eq_spec`) and they hold for key types whose equality behaves like an
//! equivalence relation and whose `clone` returns the value itself. For
//! plain integer keys [`lawful_key`] is provable outright (see
//! [`lemma_u64_is_lawful_key`]). `String` keys work at runtime — the
//! standard library's equality compares contents and its clone returns the
//! value — but the standard library ships no equality-specification
//! instance for `String`, so a verified caller cannot discharge
//! [`lawful_key`] for it; the tests exercise `String` keys unverified.

use vstd::prelude::*;
use vstd::std_specs::cmp::PartialEqSpec;

verus! {

/// The key type's equality test, as a spec-level relation.
///
/// `a` is the key stored on an entity or ledger record, `b` the key being
/// queried; lookups in this crate always compare in that order.
pub open spec fn same_key<K: PartialEq>(a: K, b: K) -> bool {
    a.eq_spec(&b)
}

/// The behaviour the engine assumes of a key type: its `==` follows its
/// equality specification, that specification is an equivalence relation,
/// and cloning a key yields the key itself.
pub open spec fn lawful_key<K: PartialEq + Clone>() -> bool {
    &&& K::obeys_eq_spec()
    &&& forall|x: K| #[trigger] x.eq_spec(&x)
    &&& forall|x: K, y: K| #[trigger] x.eq_spec(&y) ==> y.eq_spec(&x)
    &&& forall|x: K, y: K, z: K| #[trigger] x.eq_spec(&y) && #[trigger] y.eq_spec(&z)
        ==> x.eq_spec(&z)
    &&& forall|x: K, y: K| #[trigger] vstd::pervasive::cloned::<K>(x, y) ==> x == y
}

/// `u64` keys are lawful: integer equality is its own specification and an
/// equivalence, and cloning an integer returns the integer.
pub proof fn lemma_u64_is_lawful_key()
    ensures
        lawful_key::<u64>(),
{
    assert forall|x: u64, y: u64| #[trigger] vstd::pervasive::cloned::<u64>(x, y) implies x
        == y by {}
}

/// Clones a key; under [`lawful_key`] the result is the key itself.
pub fn clone_key<K: PartialEq + Clone>(k: &K) -> (r: K)
    requires
        lawful_key::<K>(),
    ensures
        r == *k,
{
    let r = k.clone();
    proof {
        assert(vstd::pervasive::cloned::<K>(*k, r));
    }
    r
}

/// Compares two keys; under [`lawful_key`] the result is [`same_key`].
pub fn keys_equal<K: PartialEq + Clone>(a: &K, b: &K) -> (r: bool)
    requires
        lawful_key::<K>(),
    ensures
        r == same_key(*a, *b),
{
    a == b
}

} // verus!
