//! The classifier's output list lives in a fixed-capacity vector, since no
//! general-purpose heap exists while this phase runs.

use vstd::prelude::*;
use crate::region::MyMemoryDescriptor;

verus! {

#[verifier::external_type_specification]
#[verifier::external_body]
#[verifier::reject_recursive_types(T)]
pub struct ExHeaplessVec<T, const N: usize>(heapless::Vec<T, N>);

/// The elements a frame list holds, in order.
pub uninterp spec fn hv_contents(v: &heapless::Vec<MyMemoryDescriptor, 64>) -> Seq<
    MyMemoryDescriptor,
>;

/// Relies on `heapless::Vec::new`: constructs an empty vector.
#[verifier::external_body]
pub(crate) fn hv_new() -> (r: heapless::Vec<MyMemoryDescriptor, 64>)
    ensures
        hv_contents(&r) == Seq::<MyMemoryDescriptor>::empty(),
{
    heapless::Vec::new()
}

/// Relies on `heapless::Vec::push`: appends the item while the vector holds
/// fewer than its capacity of `N` (= 64) elements, and otherwise returns the
/// item back unchanged.
#[verifier::external_body]
pub(crate) fn hv_push(v: &mut heapless::Vec<MyMemoryDescriptor, 64>, item: MyMemoryDescriptor) -> (r: Result<(), MyMemoryDescriptor>)
    ensures
        r is Ok <==> hv_contents(old(v)).len() < 64,
        r is Ok ==> hv_contents(final(v)) == hv_contents(old(v)).push(item),
        r is Err ==> r->Err_0 == item,
        r is Err ==> hv_contents(final(v)) == hv_contents(old(v)),
{
    v.push(item)
}

/// Relies on `heapless::Vec::as_slice`: the vector's elements, in order.
#[verifier::external_body]
pub(crate) fn hv_as_slice(v: &heapless::Vec<MyMemoryDescriptor, 64>) -> (r: &[MyMemoryDescriptor])
    ensures
        r@ == hv_contents(v),
{
    v.as_slice()
}

} // verus!
