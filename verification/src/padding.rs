//! What the library takes from [`crossbeam_utils::CachePadded`].
//!
//! The state and the payload of a slot are padded to the length of a cache line
//! each, so that the sender and the receivers do not contend for a line that they
//! have no need to share. Padding changes where a value lies, never what it is.
use crossbeam_utils::CachePadded;
use vstd::prelude::*;
use vstd::std_specs::convert::FromSpec;

verus! {

/// `crossbeam_utils::CachePadded`, carried as an opaque value.
#[verifier::external_type_specification]
#[verifier::external_body]
#[verifier::reject_recursive_types(T)]
pub struct ExCachePadded<T>(CachePadded<T>);

/// The value inside the padding: the one that the padded value is made from. `from_spec` stands for
/// what `CachePadded::from` makes of a value, which is what `CachePadded::new` does.
pub open spec fn unpadded<T>(padded: CachePadded<T>) -> T {
    choose|t: T| padded == <CachePadded<T> as FromSpec<T>>::from_spec(t)
}

/// `CachePadded::new` pads the value that it is given.
pub assume_specification<T>[ CachePadded::<T>::new ](t: T) -> (padded: CachePadded<T>)
    ensures
        unpadded(padded) == t,
;

/// `CachePadded::deref` lends out the value inside the padding.
pub assume_specification<T>[ <CachePadded<T> as core::ops::Deref>::deref ](
    padded: &CachePadded<T>,
) -> (t: &T)
    ensures
        *t == unpadded(*padded),
;

/// `CachePadded::deref_mut` lends out the value inside the padding; what the
/// borrower leaves there is inside the padding afterwards.
pub assume_specification<T>[ <CachePadded<T> as core::ops::DerefMut>::deref_mut ](
    padded: &mut CachePadded<T>,
) -> (t: &mut T)
    ensures
        *t == unpadded(*old(padded)),
        unpadded(*final(padded)) == *final(t),
;

} // verus!
