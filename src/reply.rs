//! The fixed-capacity buffer a reply is collected in.
use vstd::prelude::*;

verus! {

/// Capacity of a reply buffer in bytes.
pub const REPLY_CAPACITY: usize = 512;

/// Bytes of one reply, held without allocation.
pub type ReplyData = heapless::Vec<u8, 512>;

#[verifier::external_type_specification]
#[verifier::external_body]
#[verifier::reject_recursive_types(T)]
pub struct ExHeaplessVec<T, const N: usize>(heapless::Vec<T, N>);

/// The bytes a reply buffer holds, in order.
pub uninterp spec fn reply_bytes(v: heapless::Vec<u8, 512>) -> Seq<u8>;

/// Relies on heapless::Vec::new: a new vector is empty.
#[verifier::external_body]
pub(crate) fn reply_new() -> (r: ReplyData)
    ensures
        reply_bytes(r) == Seq::<u8>::empty(),
{
    heapless::Vec::new()
}

/// Relies on heapless::Vec::extend_from_slice: the bytes are appended when they fit
/// in the capacity, and the vector is left as it was otherwise.
#[verifier::external_body]
pub(crate) fn reply_extend(v: &mut ReplyData, bytes: &[u8]) -> (r: Result<(), ()>)
    ensures
        reply_bytes(*old(v)).len() + bytes@.len() <= 512 ==> r is Ok && reply_bytes(*final(v))
            == reply_bytes(*old(v)) + bytes@,
        reply_bytes(*old(v)).len() + bytes@.len() > 512 ==> r is Err && reply_bytes(*final(v))
            == reply_bytes(*old(v)),
{
    v.extend_from_slice(bytes)
}

/// Relies on heapless::Vec::as_slice: the slice holds the vector's bytes, of which
/// there are never more than the capacity.
#[verifier::external_body]
pub fn reply_as_slice(v: &ReplyData) -> (r: &[u8])
    ensures
        r@ == reply_bytes(*v),
        r@.len() <= 512,
{
    v.as_slice()
}

/// Relies on heapless::Vec::truncate: the first `len` bytes are kept, and a length
/// beyond the current one changes nothing.
#[verifier::external_body]
pub(crate) fn reply_truncate(v: &mut ReplyData, len: usize)
    ensures
        len <= reply_bytes(*old(v)).len() ==> reply_bytes(*final(v)) == reply_bytes(
            *old(v),
        ).subrange(0, len as int),
        len > reply_bytes(*old(v)).len() ==> reply_bytes(*final(v)) == reply_bytes(*old(v)),
{
    v.truncate(len)
}

} // verus!
