//! The order of keys.
//!
//! Keys are compared through `Ord`. Everything the tree proves about its
//! nodes rests on that order being a strict total order which agrees with
//! equality; [`total_order`] states exactly that. It is proved here for the
//! common integer types. For another key type it is a demand on the type's
//! `Ord`, which the standard library asks to be a total order.

use core::cmp::Ordering;
use vstd::prelude::*;
use vstd::std_specs::cmp::OrdSpec;

verus! {

/// `a` is ordered strictly before `b`.
pub open spec fn key_lt<K: Ord>(a: K, b: K) -> bool {
    a.cmp_spec(&b) == Ordering::Less
}

/// The comparison of `K` is a strict total order that agrees with equality:
/// `cmp` computes `cmp_spec`, two keys compare equal exactly when they are
/// equal, one key is after another exactly when the other is before it, and
/// "before" is transitive.
pub open spec fn total_order<K: Ord>() -> bool {
    &&& K::obeys_cmp_spec()
    &&& forall|a: K, b: K| (#[trigger] a.cmp_spec(&b) == Ordering::Equal) <==> a == b
    &&& forall|a: K, b: K| (#[trigger] a.cmp_spec(&b) == Ordering::Greater) <==> key_lt(b, a)
    &&& forall|a: K, b: K, c: K|
        #![trigger key_lt(a, b), key_lt(b, c)]
        key_lt(a, b) && key_lt(b, c) ==> key_lt(a, c)
}

/// The keys of `s` are strictly increasing; in particular no key occurs twice.
pub open spec fn strictly_increasing<K: Ord>(s: Seq<K>) -> bool {
    forall|i: int, j: int| 0 <= i < j < s.len() ==> key_lt(#[trigger] s[i], #[trigger] s[j])
}

/// Where one key stands relative to another.
#[derive(Clone, Copy, Debug, PartialEq, Eq)]
pub enum KeyOrder {
    /// The first key is strictly before the second.
    Before,
    /// The two keys are equal.
    Same,
    /// The first key is strictly after the second.
    After,
}

/// Compares two keys.
pub fn compare<K: Ord>(a: &K, b: &K) -> (r: KeyOrder)
    requires
        total_order::<K>(),
    ensures
        r == KeyOrder::Before <==> key_lt(*a, *b),
        r == KeyOrder::Same <==> *a == *b,
        r == KeyOrder::After <==> key_lt(*b, *a),
{
    match a.cmp(b) {
        Ordering::Less => KeyOrder::Before,
        Ordering::Equal => KeyOrder::Same,
        Ordering::Greater => KeyOrder::After,
    }
}

/// Of two keys exactly one holds: the first is before the second, they are
/// equal, or the second is before the first.
pub proof fn lemma_trichotomy<K: Ord>(a: K, b: K)
    requires
        total_order::<K>(),
    ensures
        key_lt(a, b) || a == b || key_lt(b, a),
        !(key_lt(a, b) && a == b),
        !(key_lt(a, b) && key_lt(b, a)),
        !(a == b && key_lt(b, a)),
{
    let c = a.cmp_spec(&b);
    assert(c == Ordering::Less || c == Ordering::Equal || c == Ordering::Greater);
    let d = b.cmp_spec(&a);
    assert(d == Ordering::Less || d == Ordering::Equal || d == Ordering::Greater);
}

/// The unsigned 64-bit integers are totally ordered by `<`.
pub proof fn lemma_u64_total_order()
    ensures
        total_order::<u64>(),
        forall|a: u64, b: u64| key_lt(a, b) <==> a < b,
{
}

/// The unsigned 32-bit integers are totally ordered by `<`.
pub proof fn lemma_u32_total_order()
    ensures
        total_order::<u32>(),
        forall|a: u32, b: u32| key_lt(a, b) <==> a < b,
{
}

/// The unsigned integers of pointer size are totally ordered by `<`.
pub proof fn lemma_usize_total_order()
    ensures
        total_order::<usize>(),
        forall|a: usize, b: usize| key_lt(a, b) <==> a < b,
{
}

/// The signed 64-bit integers are totally ordered by `<`.
pub proof fn lemma_i64_total_order()
    ensures
        total_order::<i64>(),
        forall|a: i64, b: i64| key_lt(a, b) <==> a < b,
{
}

/// The signed 32-bit integers are totally ordered by `<`.
pub proof fn lemma_i32_total_order()
    ensures
        total_order::<i32>(),
        forall|a: i32, b: i32| key_lt(a, b) <==> a < b,
{
}

} // verus!
