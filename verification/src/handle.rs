//! What is taken on trust of outside functions: of the pointer behind a
//! handle, and of `pipe`.

use std::sync::Arc;
use tap::Pipe;
use vstd::prelude::*;

verus! {

/// `tap::Pipe::pipe`: hands `value` to `func` and returns what `func`
/// returns. So `func` must accept `value`, and the result is one that `func`
/// may give for it.
#[verifier::external_body]
pub(crate) fn pipe_to<A, R, F: FnOnce(A) -> R>(value: A, func: F) -> (out: R)
    requires
        call_requires(func, (value,)),
    ensures
        call_ensures(func, (value,), out),
{
    value.pipe(func)
}

/// `Arc::clone`: a second handle to the value that `handle` points to.
/// Nothing is copied, so the new handle shows the same value.
#[verifier::external_body]
pub(crate) fn share<T>(handle: &Arc<T>) -> (other: Arc<T>)
    ensures
        other == *handle,
{
    Arc::clone(handle)
}

/// `Arc::get_mut`: exclusive access to the value behind `handle` where no
/// other handle points to it, and no access otherwise.
///
/// On success the value reached is the one the handle showed, and the handle
/// ends up showing whatever the caller leaves there. On failure the handle
/// comes back as it was. Which of the two happens depends on how many
/// handles exist, which no contract here can see: both are left open.
/// The call is made twice because a reference that is returned on one path
/// keeps the handle borrowed on the other.
#[verifier::external_body]
pub(crate) fn try_exclusive<'a, T>(handle: &'a mut Arc<T>) -> (attempt: Result<
    &'a mut T,
    &'a mut Arc<T>,
>)
    ensures
        match attempt {
            Ok(inner) => *inner == **old(handle) && **final(handle) == *final(inner),
            Err(same) => *same == *old(handle) && *final(handle) == *final(same),
        },
{
    if Arc::get_mut(handle).is_some() {
        Ok(Arc::get_mut(handle).unwrap())
    } else {
        Err(handle)
    }
}

/// `Arc::make_mut`: exclusive access to the value behind `handle`, which is
/// first cloned into an allocation of its own where other handles point to
/// it too.
///
/// The value reached is the one the handle showed or a clone of it, and the
/// handle ends up showing whatever the caller leaves there.
#[verifier::external_body]
pub(crate) fn make_exclusive<'a, T: Clone>(handle: &'a mut Arc<T>) -> (inner: &'a mut T)
    ensures
        *inner == **old(handle) || cloned::<T>(**old(handle), *inner),
        **final(handle) == *final(inner),
{
    Arc::make_mut(handle)
}

} // verus!
