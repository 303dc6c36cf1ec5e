//! Peer wire framing: `[length: u32 big-endian][tag: u8][payload]`, with a
//! zero length for a keepalive, read from a growable buffer.

use crate::peers::{tag_code, tag_of_code, PeerMessage, PeerMessageTag};
use crate::wire::{be_u32_bytes, be_u32_value, lemma_be_u32_round_trip, push_u32_be, read_u32_be};
use bytes::{Buf, BytesMut};
use vstd::prelude::*;
use vstd::slice::slice_to_vec;

verus! {

#[verifier::external_type_specification]
#[verifier::external_body]
pub struct ExBytesMut(bytes::BytesMut);

/// The bytes that a buffer holds.
pub uninterp spec fn buffer_contents(b: BytesMut) -> Seq<u8>;

/// Relies on `BytesMut::with_capacity`: a new buffer holds no bytes.
#[verifier::external_body]
fn buffer_with_capacity(capacity: usize) -> (r: BytesMut)
    ensures
        buffer_contents(r) == Seq::<u8>::empty(),
{
    BytesMut::with_capacity(capacity)
}

/// Relies on `BytesMut`'s `Deref<Target = [u8]>`: the slice of the bytes
/// it holds.
#[verifier::external_body]
fn buffer_bytes(b: &BytesMut) -> (r: &[u8])
    ensures
        r@ == buffer_contents(*b),
{
    b.as_ref()
}

/// Relies on `BytesMut::extend_from_slice`: the bytes are appended; it
/// reserves room first, which fails only past `isize::MAX` bytes.
#[verifier::external_body]
fn buffer_extend(b: &mut BytesMut, data: &[u8])
    requires
        buffer_contents(*old(b)).len() + data@.len() <= isize::MAX,
    ensures
        buffer_contents(*final(b)) == buffer_contents(*old(b)) + data@,
{
    b.extend_from_slice(data)
}

/// Relies on `Buf::advance` for `BytesMut`: the first `cnt` bytes are
/// dropped; it panics when `cnt` exceeds what the buffer holds.
#[verifier::external_body]
fn buffer_advance(b: &mut BytesMut, cnt: usize)
    requires
        cnt <= buffer_contents(*old(b)).len(),
    ensures
        buffer_contents(*final(b)) == buffer_contents(*old(b)).subrange(
            cnt as int,
            buffer_contents(*old(b)).len() as int,
        ),
{
    b.advance(cnt)
}

/// Why a frame cannot be read.
#[derive(Debug, Clone, Copy, PartialEq, Eq, Structural)]
pub enum StreamError {
    /// The stream failed.
    Io,
    /// The peer closed the connection in the middle of a frame.
    ConnectionReset,
    /// A frame carries a tag byte that stands for no known message.
    UnknownTag(u8),
}

/// The bytes of a frame: the length of tag and payload, the tag, the payload.
pub open spec fn frame_bytes(tag: PeerMessageTag, payload: Seq<u8>) -> Seq<u8> {
    be_u32_bytes((payload.len() + 1) as u32) + seq![tag_code(tag)] + payload
}

/// Whether `b` starts with a keepalive: four zero bytes.
pub open spec fn starts_with_keepalive(b: Seq<u8>) -> bool {
    b.len() >= 4 && b[0] == 0 && b[1] == 0 && b[2] == 0 && b[3] == 0
}

/// The buffer with its leading keepalives dropped.
pub open spec fn skip_keepalives(b: Seq<u8>) -> Seq<u8>
    decreases b.len(),
{
    if starts_with_keepalive(b) {
        skip_keepalives(b.subrange(4, b.len() as int))
    } else {
        b
    }
}

/// What reading one frame from a buffer gives: no frame yet, a frame's tag
/// and payload, or an error; and what stays in the buffer.
pub open spec fn frame_parse(b: Seq<u8>) -> (Result<Option<(PeerMessageTag, Seq<u8>)>, StreamError>, Seq<u8>) {
    let c = skip_keepalives(b);
    if c.len() < 4 {
        (Ok(None), c)
    } else {
        let n = be_u32_value(c.subrange(0, 4));
        if c.len() < 4 + n {
            (Ok(None), c)
        } else {
            match tag_of_code(c[4]) {
                None => (Err(StreamError::UnknownTag(c[4])), c),
                Some(t) => (Ok(Some((t, c.subrange(5, 4 + n)))), c.subrange(4 + n, c.len() as int)),
            }
        }
    }
}

/// A message as its tag and payload bytes.
pub open spec fn message_model(m: PeerMessage) -> (PeerMessageTag, Seq<u8>) {
    (m.tag, m.payload@)
}

/// The bytes of a frame for `msg`.
pub fn serialize_frame(msg: &PeerMessage) -> (r: Vec<u8>)
    requires
        msg.payload@.len() < u32::MAX,
    ensures
        r@ == frame_bytes(msg.tag, msg.payload@),
{
    let mut out: Vec<u8> = Vec::new();
    push_u32_be(&mut out, (msg.payload.len() + 1) as u32);
    out.push(msg.tag.code());
    let mut payload = slice_to_vec(msg.payload.as_slice());
    out.append(&mut payload);
    assert(out@ =~= frame_bytes(msg.tag, msg.payload@));
    out
}

/// Reading a serialized frame gives the message back and leaves what
/// follows it; a keepalive in front is dropped.
pub proof fn lemma_frame_round_trip(tag: PeerMessageTag, payload: Seq<u8>, rest: Seq<u8>)
    requires
        payload.len() < u32::MAX,
    ensures
        frame_parse(frame_bytes(tag, payload) + rest) == (
            Ok::<Option<(PeerMessageTag, Seq<u8>)>, StreamError>(Some((tag, payload))),
            rest,
        ),
        frame_parse(seq![0u8, 0u8, 0u8, 0u8] + frame_bytes(tag, payload) + rest) == frame_parse(
            frame_bytes(tag, payload) + rest,
        ),
{
    let n = (payload.len() + 1) as u32;
    let s = frame_bytes(tag, payload) + rest;
    lemma_be_u32_round_trip(n);
    assert(s.subrange(0, 4) =~= be_u32_bytes(n));
    assert(!starts_with_keepalive(s));
    assert(s.subrange(5, 4 + n) =~= payload);
    assert(s.subrange(4 + n, s.len() as int) =~= rest);
    let k = seq![0u8, 0u8, 0u8, 0u8] + s;
    assert(k.subrange(4, k.len() as int) =~= s);
    assert(seq![0u8, 0u8, 0u8, 0u8] + frame_bytes(tag, payload) + rest =~= k);
}

/// A growable read buffer that frames are cut from.
pub struct FrameBuffer {
    buffer: BytesMut,
}

impl FrameBuffer {
    /// The bytes that the buffer holds.
    pub closed spec fn contents(&self) -> Seq<u8> {
        buffer_contents(self.buffer)
    }

    /// An empty buffer.
    pub fn new() -> (r: FrameBuffer)
        ensures
            r.contents() == Seq::<u8>::empty(),
    {
        FrameBuffer { buffer: buffer_with_capacity(1 << 16) }
    }

    /// Appends bytes read from the stream.
    pub fn feed(&mut self, data: &[u8])
        requires
            old(self).contents().len() + data@.len() <= isize::MAX,
        ensures
            final(self).contents() == old(self).contents() + data@,
    {
        buffer_extend(&mut self.buffer, data);
    }

    /// Whether the buffer holds no bytes.
    pub fn is_empty(&self) -> (r: bool)
        ensures
            r == (self.contents().len() == 0),
    {
        buffer_bytes(&self.buffer).len() == 0
    }

    /// Whether the buffer starts with a keepalive.
    fn leading_keepalive(&self) -> (r: bool)
        ensures
            r == starts_with_keepalive(self.contents()),
    {
        let bytes = buffer_bytes(&self.buffer);
        bytes.len() >= 4 && bytes[0] == 0 && bytes[1] == 0 && bytes[2] == 0 && bytes[3] == 0
    }

    /// Cuts one frame from the front of the buffer, dropping keepalives;
    /// `None` while no whole frame is there. Only a whole frame leaves the
    /// buffer, and a frame with an unknown tag stays in it.
    pub fn parse_frame(&mut self) -> (r: Result<Option<PeerMessage>, StreamError>)
        ensures
            final(self).contents() == frame_parse(old(self).contents()).1,
            frame_parse(old(self).contents()).0 == match r {
                Ok(Some(m)) => Ok(Some(message_model(m))),
                Ok(None) => Ok(None),
                Err(e) => Err::<Option<(PeerMessageTag, Seq<u8>)>, StreamError>(e),
            },
    {
        while self.leading_keepalive()
            invariant
                skip_keepalives(old(self).contents()) == skip_keepalives(self.contents()),
            decreases self.contents().len(),
        {
            buffer_advance(&mut self.buffer, 4);
        }
        let bytes = buffer_bytes(&self.buffer);
        let ghost c = self.contents();
        assert(skip_keepalives(c) == c);
        let len = bytes.len();
        if len < 4 {
            return Ok(None);
        }
        let n = read_u32_be(bytes, 0) as usize;
        if len - 4 < n {
            return Ok(None);
        }
        let code = bytes[4];
        let tag = match PeerMessageTag::from_code(code) {
            Some(t) => t,
            None => {
                return Err(StreamError::UnknownTag(code));
            },
        };
        let payload = slice_to_vec(&bytes[5..4 + n]);
        buffer_advance(&mut self.buffer, 4 + n);
        Ok(Some(PeerMessage { tag, payload }))
    }

    /// What the end of the stream means: a clean close when the buffer is
    /// empty, a reset in the middle of a frame otherwise.
    pub fn finish(&self) -> (r: Result<Option<PeerMessage>, StreamError>)
        ensures
            self.contents().len() == 0 ==> r matches Ok(None),
            self.contents().len() > 0 ==> r == Err::<Option<PeerMessage>, StreamError>(
                StreamError::ConnectionReset,
            ),
    {
        if self.is_empty() {
            Ok(None)
        } else {
            Err(StreamError::ConnectionReset)
        }
    }
}

} // verus!
