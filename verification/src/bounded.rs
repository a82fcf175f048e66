//! The fixed-capacity collections of `heapless` that the parser, the frame
//! builder and the capture logger hold, with the contracts of the methods
//! that this library calls.

use vstd::prelude::*;
use vstd::string::StringSliceAdditionalSpecFns;

verus! {

#[verifier::external_type_specification]
#[verifier::external_body]
#[verifier::reject_recursive_types(T)]
pub struct ExHeaplessVec<T, const N: usize>(heapless::Vec<T, N>);

#[verifier::external_type_specification]
#[verifier::external_body]
pub struct ExHeaplessString<const N: usize>(heapless::String<N>);

/// The bytes held by a payload buffer (`heapless::Vec<u8, 24>`), first to last.
pub uninterp spec fn payload_view(v: heapless::Vec<u8, 24>) -> Seq<u8>;

/// The bytes held by a frame buffer (`heapless::Vec<u8, 64>`), first to last.
pub uninterp spec fn frame_view(v: heapless::Vec<u8, 64>) -> Seq<u8>;

/// The UTF-8 bytes held by a capture buffer (`heapless::String<1024>`).
pub uninterp spec fn text_view(s: heapless::String<1024>) -> Seq<u8>;

// ---------------------------------------------------------------- payload buffer

/// `heapless::Vec::<u8, 24>::new`: a buffer that holds nothing.
#[verifier::external_body]
pub(crate) fn payload_new() -> (r: heapless::Vec<u8, 24>)
    ensures
        payload_view(r) == Seq::<u8>::empty(),
{
    heapless::Vec::new()
}

/// `heapless::Vec::<u8, 24>::push`: appends the byte when fewer than 24 are
/// held, and otherwise hands it back and leaves the buffer as it was.
#[verifier::external_body]
pub(crate) fn payload_push(v: &mut heapless::Vec<u8, 24>, b: u8) -> (r: Result<(), u8>)
    ensures
        payload_view(*old(v)).len() <= 24,
        r is Ok <==> payload_view(*old(v)).len() < 24,
        r is Ok ==> payload_view(*final(v)) == payload_view(*old(v)).push(b),
        r matches Err(x) ==> x == b && payload_view(*final(v)) == payload_view(*old(v)),
{
    v.push(b)
}

/// `heapless::Vec::<u8, 24>::clear`: removes every byte.
#[verifier::external_body]
pub(crate) fn payload_clear(v: &mut heapless::Vec<u8, 24>)
    ensures
        payload_view(*final(v)) == Seq::<u8>::empty(),
{
    v.clear()
}

/// `heapless::Vec::<u8, 24>::clone`: a buffer that holds the same bytes.
#[verifier::external_body]
pub(crate) fn payload_clone(v: &heapless::Vec<u8, 24>) -> (r: heapless::Vec<u8, 24>)
    ensures
        payload_view(r) == payload_view(*v),
{
    v.clone()
}

/// `heapless::Vec::<u8, 24>::as_slice`: the held bytes as a slice; at most 24.
#[verifier::external_body]
pub(crate) fn payload_as_slice(v: &heapless::Vec<u8, 24>) -> (r: &[u8])
    ensures
        r@ == payload_view(*v),
        r@.len() <= 24,
{
    v.as_slice()
}

// ---------------------------------------------------------------- frame buffer

/// `heapless::Vec::<u8, 64>::new`: a buffer that holds nothing.
#[verifier::external_body]
pub(crate) fn frame_new() -> (r: heapless::Vec<u8, 64>)
    ensures
        frame_view(r) == Seq::<u8>::empty(),
{
    heapless::Vec::new()
}

/// `heapless::Vec::<u8, 64>::push`: appends the byte when fewer than 64 are
/// held, and otherwise hands it back and leaves the buffer as it was.
#[verifier::external_body]
pub(crate) fn frame_push(v: &mut heapless::Vec<u8, 64>, b: u8) -> (r: Result<(), u8>)
    ensures
        frame_view(*old(v)).len() <= 64,
        r is Ok <==> frame_view(*old(v)).len() < 64,
        r is Ok ==> frame_view(*final(v)) == frame_view(*old(v)).push(b),
        r matches Err(x) ==> x == b && frame_view(*final(v)) == frame_view(*old(v)),
{
    v.push(b)
}

/// `heapless::Vec::<u8, 64>::extend_from_slice`: appends all of `other` when
/// it fits in the 64 bytes, and otherwise changes nothing and fails.
#[verifier::external_body]
pub(crate) fn frame_extend_from_slice(v: &mut heapless::Vec<u8, 64>, other: &[u8]) -> (r: Result<(), ()>)
    ensures
        frame_view(*old(v)).len() <= 64,
        r is Ok <==> frame_view(*old(v)).len() + other@.len() <= 64,
        r is Ok ==> frame_view(*final(v)) == frame_view(*old(v)) + other@,
        r is Err ==> frame_view(*final(v)) == frame_view(*old(v)),
{
    v.extend_from_slice(other)
}

/// `heapless::Vec::<u8, 64>::as_slice`: the held bytes as a slice; at most 64.
#[verifier::external_body]
pub(crate) fn frame_as_slice(v: &heapless::Vec<u8, 64>) -> (r: &[u8])
    ensures
        r@ == frame_view(*v),
        r@.len() <= 64,
{
    v.as_slice()
}

// ---------------------------------------------------------------- capture text

/// `heapless::String::<1024>::new`: an empty string.
#[verifier::external_body]
pub(crate) fn text_new() -> (r: heapless::String<1024>)
    ensures
        text_view(r) == Seq::<u8>::empty(),
{
    heapless::String::new()
}

/// `heapless::String::<1024>::clone`: a string that holds the same bytes.
#[verifier::external_body]
pub(crate) fn text_clone(s: &heapless::String<1024>) -> (r: heapless::String<1024>)
    ensures
        text_view(r) == text_view(*s),
{
    s.clone()
}

/// `heapless::String::<1024>::push_str`: appends the UTF-8 bytes of `t` when
/// they all fit in the 1024 bytes, and otherwise changes nothing and fails.
#[verifier::external_body]
pub(crate) fn text_push_str(s: &mut heapless::String<1024>, t: &str) -> (r: Result<(), ()>)
    ensures
        text_view(*old(s)).len() <= 1024,
        r is Ok <==> text_view(*old(s)).len() + t.spec_bytes().len() <= 1024,
        r is Ok ==> text_view(*final(s)) == text_view(*old(s)) + t.spec_bytes(),
        r is Err ==> text_view(*final(s)) == text_view(*old(s)),
{
    s.push_str(t)
}

/// `heapless::String::<1024>::push`: for an ASCII character, appends its one
/// byte when fewer than 1024 bytes are held; when it fails, nothing changes.
#[verifier::external_body]
pub(crate) fn text_push(s: &mut heapless::String<1024>, c: char) -> (r: Result<(), ()>)
    ensures
        text_view(*old(s)).len() <= 1024,
        (c as u32) < 128 ==> (r is Ok <==> text_view(*old(s)).len() < 1024),
        (c as u32) < 128 && r is Ok ==> text_view(*final(s)) == text_view(*old(s)).push(
            (c as u32) as u8,
        ),
        r is Err ==> text_view(*final(s)) == text_view(*old(s)),
{
    s.push(c)
}

} // verus!
