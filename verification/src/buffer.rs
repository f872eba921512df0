//! The byte buffers of the `bytes` crate, as the chunker sees them.
//!
//! A `BytesMut` is the accumulation buffer that fragments are appended to; a
//! `Bytes` is a chunk once it has been cut off and frozen. Both are opaque to
//! the verifier: what they hold is named by `buffered` and `frozen`, and the
//! contracts below say what each method of the crate does to those contents.
//! None of these contracts is proved here; they restate the crate's
//! documentation and source.

use bytes::Bytes;
use bytes::BytesMut;
use vstd::prelude::*;

verus! {

/// `bytes::Bytes`, made known as a type whose inside is not looked into.
#[verifier::external_type_specification]
#[verifier::external_body]
pub struct ExBytes(bytes::Bytes);

/// `bytes::BytesMut`, made known as a type whose inside is not looked into.
#[verifier::external_type_specification]
#[verifier::external_body]
pub struct ExBytesMut(bytes::BytesMut);

/// The bytes that a frozen buffer holds, first to last.
pub uninterp spec fn frozen(b: Bytes) -> Seq<u8>;

/// The bytes that a growable buffer holds, first to last.
pub uninterp spec fn buffered(b: BytesMut) -> Seq<u8>;

/// `BytesMut::with_capacity`: a buffer that holds no bytes yet, whatever room
/// was set aside for it.
pub assume_specification[ BytesMut::with_capacity ](capacity: usize) -> (b: BytesMut)
    requires
        capacity <= isize::MAX,
    ensures
        buffered(b) == Seq::<u8>::empty(),
;

/// `BytesMut::len`: the number of bytes held.
pub assume_specification[ BytesMut::len ](b: &BytesMut) -> (n: usize)
    ensures
        n == buffered(*b).len(),
;

/// `BytesMut::is_empty`: whether no byte is held.
pub assume_specification[ BytesMut::is_empty ](b: &BytesMut) -> (e: bool)
    ensures
        e == (buffered(*b).len() == 0),
;

/// `BytesMut::extend_from_slice`: the given bytes are appended behind those
/// already held. As with vstd's contracts for `Vec`, running out of address
/// space while growing is not modelled.
pub assume_specification[ BytesMut::extend_from_slice ](b: &mut BytesMut, extend: &[u8])
    ensures
        buffered(*final(b)) == buffered(*old(b)) + extend@,
;

/// `BytesMut::split_to`: the first `at` bytes leave the buffer and are
/// returned; the rest stay, in order. The crate panics for `at` beyond the
/// length, which the precondition rules out.
pub assume_specification[ BytesMut::split_to ](b: &mut BytesMut, at: usize) -> (head: BytesMut)
    requires
        at <= buffered(*old(b)).len(),
    ensures
        buffered(head) == buffered(*old(b)).subrange(0, at as int),
        buffered(*final(b)) == buffered(*old(b)).subrange(at as int, buffered(*old(b)).len() as int),
;

/// `BytesMut::split`: everything held leaves the buffer and is returned; the
/// buffer is empty afterwards.
pub assume_specification[ BytesMut::split ](b: &mut BytesMut) -> (all: BytesMut)
    ensures
        buffered(all) == buffered(*old(b)),
        buffered(*final(b)) == Seq::<u8>::empty(),
;

/// `BytesMut::freeze`: the same bytes, no longer growable.
pub assume_specification[ BytesMut::freeze ](b: BytesMut) -> (f: Bytes)
    ensures
        frozen(f) == buffered(b),
;

/// `Bytes::len`: the number of bytes held.
pub assume_specification[ Bytes::len ](b: &Bytes) -> (n: usize)
    ensures
        n == frozen(*b).len(),
;

} // verus!
