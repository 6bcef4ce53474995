//! Byte planes: owned, or a shared view into a larger buffer.
use bytes::Bytes;
use vstd::prelude::*;

verus! {

/// The shared byte buffer of the `bytes` crate.
#[verifier::external_type_specification]
#[verifier::external_body]
pub struct ExBytes(bytes::Bytes);

/// What a shared buffer holds.
pub uninterp spec fn bytes_contents(b: bytes::Bytes) -> Seq<u8>;

/// `<Bytes as AsRef<[u8]>>::as_ref`: the slice holds the buffer's bytes.
#[verifier::external_body]
pub(crate) fn shared_slice(b: &Bytes) -> (r: &[u8])
    ensures
        r@ == bytes_contents(*b),
{
    b.as_ref()
}

/// `Bytes::slice_ref` on the bytes `start..end` of the buffer itself: a view
/// that holds those bytes. It shares the buffer's memory, which the contract
/// leaves unsaid: it speaks of what buffers hold, not of where.
#[verifier::external_body]
pub(crate) fn shared_view(b: &Bytes, start: usize, end: usize) -> (r: Bytes)
    requires
        start <= end <= bytes_contents(*b).len(),
    ensures
        bytes_contents(r) == bytes_contents(*b).subrange(start as int, end as int),
{
    b.slice_ref(&b[start..end])
}

/// `Bytes::copy_from_slice`: a buffer that holds the same bytes. That its memory
/// is its own is left unsaid.
#[verifier::external_body]
pub(crate) fn shared_copy(s: &[u8]) -> (r: Bytes)
    ensures
        bytes_contents(r) == s@,
{
    Bytes::copy_from_slice(s)
}

/// A byte plane: an owned buffer, or a view into a shared one.
pub enum Plane {
    Owned(Vec<u8>),
    Shared(Bytes),
}

impl View for Plane {
    type V = Seq<u8>;

    open spec fn view(&self) -> Seq<u8> {
        match self {
            Plane::Owned(v) => v@,
            Plane::Shared(b) => bytes_contents(*b),
        }
    }
}

impl Plane {
    /// The bytes are a view into a buffer that was there before, not a copy.
    pub open spec fn shared(&self) -> bool {
        self is Shared
    }

    /// The plane's bytes, wherever they live.
    pub fn bytes(&self) -> (r: &[u8])
        ensures
            r@ == self@,
    {
        match self {
            Plane::Owned(v) => v.as_slice(),
            Plane::Shared(b) => shared_slice(b),
        }
    }

    pub fn len(&self) -> (r: usize)
        ensures
            r == self@.len(),
    {
        self.bytes().len()
    }

    pub fn is_empty(&self) -> (r: bool)
        ensures
            r == (self@.len() == 0),
    {
        self.bytes().len() == 0
    }
}

} // verus!
