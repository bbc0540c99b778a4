use core::cmp::Ordering;
use vstd::prelude::*;
use vstd::std_specs::cmp::PartialOrdSpec;

verus! {

/// `a` is no higher than `b` in the natural order of `P`.
pub closed spec fn le<P: Ord>(a: P, b: P) -> bool {
    a.partial_cmp_spec(&b) matches Some(Ordering::Less | Ordering::Equal)
}

/// `a` is strictly lower than `b`.
pub open spec fn lt<P: Ord>(a: P, b: P) -> bool {
    !le(b, a)
}

/// The comparison operators of `P` compute the natural order.
pub closed spec fn computed<P: Ord>() -> bool {
    &&& P::obeys_partial_cmp_spec()
    &&& forall|a: P, b: P|
        (#[trigger] a.partial_cmp_spec(&b) == Some(Ordering::Less)) <==> !le(b, a)
}

/// The natural order of `P` is a total order, and its comparison operators
/// compute it.
pub open spec fn ordered<P: Ord>() -> bool {
    &&& computed::<P>()
    &&& forall|a: P, b: P| #[trigger] le(a, b) || le(b, a)
    &&& forall|a: P, b: P, c: P| #[trigger] le(a, b) && #[trigger] le(b, c) ==> le(a, c)
}

/// Whether `a` is no higher than `b`.
pub fn no_higher<P: Ord>(a: &P, b: &P) -> (r: bool)
    ensures
        ordered::<P>() ==> r == le(*a, *b),
{
    *a <= *b
}

/// Whether `a` is strictly lower than `b`.
pub fn lower<P: Ord>(a: &P, b: &P) -> (r: bool)
    ensures
        ordered::<P>() ==> r == lt(*a, *b),
{
    *a < *b
}

/// The unsigned 64-bit integers are ordered, by `<=`.
pub proof fn lemma_ordered_u64()
    ensures
        ordered::<u64>(),
        forall|a: u64, b: u64| #[trigger] le(a, b) <==> a <= b,
{
}

/// The unsigned 32-bit integers are ordered, by `<=`.
pub proof fn lemma_ordered_u32()
    ensures
        ordered::<u32>(),
        forall|a: u32, b: u32| #[trigger] le(a, b) <==> a <= b,
{
}

/// The unsigned integers of pointer size are ordered, by `<=`.
pub proof fn lemma_ordered_usize()
    ensures
        ordered::<usize>(),
        forall|a: usize, b: usize| #[trigger] le(a, b) <==> a <= b,
{
}

/// The signed 64-bit integers are ordered, by `<=`.
pub proof fn lemma_ordered_i64()
    ensures
        ordered::<i64>(),
        forall|a: i64, b: i64| #[trigger] le(a, b) <==> a <= b,
{
}

/// The signed 32-bit integers are ordered, by `<=`.
pub proof fn lemma_ordered_i32()
    ensures
        ordered::<i32>(),
        forall|a: i32, b: i32| #[trigger] le(a, b) <==> a <= b,
{
}

} // verus!
