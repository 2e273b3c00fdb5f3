//! Type erasure: the few calls into `std::any` that let one registry hold
//! storages of many component types.
//!
//! `std::any` is not specified for the verifier, so what this file states of
//! it is taken on trust. It states little: which storage a box holds cannot
//! be said in a contract, so the typed functions promise nothing of the value
//! they hand out.

use std::any::Any;
use std::any::TypeId;
use vstd::prelude::*;

verus! {

/// `std::any::TypeId`, the identifier of a type. Its values are carried and
/// compared; nothing is known of what is inside one.
#[verifier::external_type_specification]
#[verifier::external_body]
pub struct ExTypeId(std::any::TypeId);

/// A storage whose component type has been forgotten: a `Box<dyn Any>`. The
/// verifier does not accept `dyn Any` in a field, so the box is kept behind
/// this struct, and nothing is known of what is inside.
#[verifier::external_body]
pub struct ErasedStorage {
    boxed: Box<dyn Any>,
}

/// `TypeId::of::<T>()`: the identifier of the type `T`. Nothing is stated of
/// the result.
#[verifier::external_body]
pub(crate) fn type_key<T: 'static>() -> (key: TypeId) {
    TypeId::of::<T>()
}

/// `==` on `TypeId`: whether two identifiers are the same.
#[verifier::external_body]
pub(crate) fn same_key(a: &TypeId, b: &TypeId) -> (same: bool)
    ensures
        same == (*a == *b),
{
    a == b
}

/// Boxes `storage` as `Box<dyn Any>`, forgetting its type. Nothing is stated
/// of the result.
#[verifier::external_body]
pub(crate) fn erase<S: 'static>(storage: S) -> (erased: ErasedStorage) {
    ErasedStorage { boxed: Box::new(storage) }
}

/// `<dyn Any>::downcast_ref::<S>()` on the box: the storage inside, if it is
/// an `S`. Nothing is stated of the result.
#[verifier::external_body]
pub(crate) fn typed_ref<S: 'static>(erased: &ErasedStorage) -> (typed: Option<&S>) {
    erased.boxed.downcast_ref::<S>()
}

/// `<dyn Any>::downcast_mut::<S>()` on the box: the storage inside, for
/// writing, if it is an `S`. Where it is not, the box is left as it was.
#[verifier::external_body]
pub(crate) fn typed_mut<S: 'static>(erased: &mut ErasedStorage) -> (typed: Option<&mut S>)
    ensures
        typed is None ==> *final(erased) == *old(erased),
{
    erased.boxed.downcast_mut::<S>()
}

} // verus!
