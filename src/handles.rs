use smallvec::SmallVec;
use vstd::prelude::*;

verus! {

/// The handles held directly by one node, kept inline up to eight of them.
#[verifier::external_body]
pub struct HandleList {
    inner: SmallVec<[usize; 8]>,
}

/// The handles a `HandleList` holds, in order.
pub uninterp spec fn handle_seq(v: HandleList) -> Seq<usize>;

/// Relies on `SmallVec::new`: an empty vector.
#[verifier::external_body]
pub(crate) fn handles_new() -> (r: HandleList)
    ensures
        handle_seq(r) == Seq::<usize>::empty(),
{
    HandleList { inner: SmallVec::new() }
}

/// Relies on `SmallVec::len`: the number of elements stored.
#[verifier::external_body]
pub(crate) fn handles_len(v: &HandleList) -> (r: usize)
    ensures
        r == handle_seq(*v).len(),
{
    v.inner.len()
}

/// Relies on indexing a `SmallVec` through its slice: the element at `i`.
#[verifier::external_body]
pub(crate) fn handles_at(v: &HandleList, i: usize) -> (r: usize)
    requires
        i < handle_seq(*v).len(),
    ensures
        r == handle_seq(*v)[i as int],
{
    v.inner.as_slice()[i]
}

/// Relies on `SmallVec::push`: appends at the end.
#[verifier::external_body]
pub(crate) fn handles_push(v: &mut HandleList, h: usize)
    ensures
        handle_seq(*final(v)) == handle_seq(*old(v)).push(h),
{
    v.inner.push(h)
}

/// Relies on `SmallVec::pop`: removes and returns the last element, or
/// returns `None` and leaves an empty vector as it is.
#[verifier::external_body]
pub(crate) fn handles_pop(v: &mut HandleList) -> (r: Option<usize>)
    ensures
        handle_seq(*old(v)).len() == 0 ==> r is None && handle_seq(*final(v)) == handle_seq(
            *old(v),
        ),
        handle_seq(*old(v)).len() > 0 ==> r == Some(handle_seq(*old(v)).last()) && handle_seq(
            *final(v),
        ) == handle_seq(*old(v)).drop_last(),
{
    v.inner.pop()
}

} // verus!
