//! The receive side of a connection: bytes come in as the stream delivers
//! them, in pieces of any size, and whole messages are taken off the front.
use bytes::{Buf, BytesMut};
use vstd::prelude::*;

use crate::codec::Parse;
use crate::error::KvsError;
use crate::message::{
    decode_request, decode_response, lemma_response_prefix, lemma_response_round_trip,
    parse_request, parse_response, Request, Response, ResponseView,
};

verus! {

#[verifier::external_type_specification]
#[verifier::external_body]
pub struct ExBytesMut(BytesMut);

/// The bytes that a `BytesMut` holds.
pub uninterp spec fn buffered(b: BytesMut) -> Seq<u8>;

/// Relies on `BytesMut::with_capacity`: the buffer starts empty.
#[verifier::external_body]
fn buffer_with_capacity(capacity: usize) -> (r: BytesMut)
    ensures
        buffered(r) == Seq::<u8>::empty(),
{
    BytesMut::with_capacity(capacity)
}

/// Relies on `BytesMut::extend_from_slice`: the bytes are appended.
#[verifier::external_body]
fn buffer_extend(b: &mut BytesMut, more: &[u8])
    ensures
        buffered(*final(b)) == buffered(*old(b)) + more@,
{
    b.extend_from_slice(more)
}

/// Relies on `<BytesMut as Buf>::advance`: the first `cnt` bytes are dropped
/// (it panics past the end, which `requires` rules out).
#[verifier::external_body]
fn buffer_advance(b: &mut BytesMut, cnt: usize)
    requires
        cnt <= buffered(*old(b)).len(),
    ensures
        buffered(*final(b)) == buffered(*old(b)).skip(cnt as int),
{
    b.advance(cnt)
}

/// Relies on `<BytesMut as Deref>::deref`: the slice of the bytes held.
#[verifier::external_body]
fn buffer_bytes(b: &BytesMut) -> (r: &[u8])
    ensures
        r@ == buffered(*b),
{
    &b[..]
}

/// The bytes received on a connection and not yet taken as a message.
pub struct FrameBuffer {
    buf: BytesMut,
}

impl View for FrameBuffer {
    type V = Seq<u8>;

    closed spec fn view(&self) -> Seq<u8> {
        buffered(self.buf)
    }
}

impl FrameBuffer {
    /// An empty buffer, with room for 4 KiB before it grows.
    pub fn new() -> (r: FrameBuffer)
        ensures
            r@ == Seq::<u8>::empty(),
    {
        FrameBuffer { buf: buffer_with_capacity(4096) }
    }

    /// Appends bytes read from the stream.
    pub fn fill(&mut self, chunk: &[u8])
        ensures
            final(self)@ == old(self)@ + chunk@,
    {
        buffer_extend(&mut self.buf, chunk);
    }

    /// The bytes held.
    pub fn bytes(&self) -> (r: &[u8])
        ensures
            r@ == self@,
    {
        buffer_bytes(&self.buf)
    }

    /// Takes the request at the front of the buffer: the request, once all
    /// its bytes are in, and the buffer then keeps what follows it; nothing,
    /// and the buffer unchanged, while its bytes are still coming; an error,
    /// and the buffer unchanged, for bytes that cannot begin a request.
    pub fn next_request(&mut self) -> (r: Result<Option<Request>, KvsError>)
        ensures
            match parse_request(old(self)@) {
                Parse::Done(q, n) => r matches Ok(Some(x)) && x@ == q && final(self)@ == old(
                    self,
                )@.skip(n),
                Parse::Partial => r matches Ok(None) && final(self)@ == old(self)@,
                Parse::Bad => r matches Err(KvsError::Serialization) && final(self)@ == old(
                    self,
                )@,
            },
    {
        let decoded = decode_request(buffer_bytes(&self.buf));
        match decoded {
            Ok(Some((q, n))) => {
                proof {
                    crate::message::lemma_request_end(self@);
                }
                buffer_advance(&mut self.buf, n);
                Ok(Some(q))
            },
            Ok(None) => Ok(None),
            Err(e) => Err(e),
        }
    }

    /// Takes the response at the front of the buffer, as `next_request`
    /// takes a request.
    pub fn next_response(&mut self) -> (r: Result<Option<Response>, KvsError>)
        ensures
            match parse_response(old(self)@) {
                Parse::Done(p, n) => r matches Ok(Some(x)) && x@ == p && final(self)@ == old(
                    self,
                )@.skip(n),
                Parse::Partial => r matches Ok(None) && final(self)@ == old(self)@,
                Parse::Bad => r matches Err(KvsError::Serialization) && final(self)@ == old(
                    self,
                )@,
            },
    {
        let decoded = decode_response(buffer_bytes(&self.buf));
        match decoded {
            Ok(Some((p, n))) => {
                proof {
                    crate::message::lemma_response_end(self@);
                }
                buffer_advance(&mut self.buf, n);
                Ok(Some(p))
            },
            Ok(None) => Ok(None),
            Err(e) => Err(e),
        }
    }
}

/// A response that arrives in pieces is read as the same response as one
/// that arrives whole: while any of its bytes are missing, the buffer holds
/// a strict prefix of it and yields nothing; once they are all in, followed
/// by anything, it yields the response and keeps what follows.
pub proof fn law_response_in_pieces(p: ResponseView, j: int, rest: Seq<u8>)
    requires
        p.fits(),
        0 <= j < p.bytes().len(),
    ensures
        parse_response(p.bytes().take(j)) == Parse::<ResponseView>::Partial,
        parse_response(p.bytes() + rest) == Parse::Done(p, p.bytes().len() as int),
        (p.bytes() + rest).skip(p.bytes().len() as int) == rest,
{
    lemma_response_prefix(p, j);
    lemma_response_round_trip(p, rest);
    assert((p.bytes() + rest).skip(p.bytes().len() as int) =~= rest);
}

} // verus!
