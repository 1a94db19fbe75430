use bytes::Buf;
use bytes::BytesMut;
use vstd::prelude::*;

use crate::frame::{decode, DecodeError, WebSocketFrame};
use crate::message::{append_spec, WebSocketMessage};

verus! {

#[verifier::external_type_specification]
#[verifier::external_body]
pub struct ExBytesMut(bytes::BytesMut);

/// The bytes that a `BytesMut` holds, front first.
pub uninterp spec fn buffered(b: BytesMut) -> Seq<u8>;

/// Relies on BytesMut::with_capacity: a new buffer that holds no bytes.
#[verifier::external_body]
fn buffer_with_capacity(capacity: usize) -> (r: BytesMut)
    ensures
        buffered(r) == Seq::<u8>::empty(),
{
    BytesMut::with_capacity(capacity)
}

/// Relies on BytesMut's `Deref` to `[u8]`: the bytes it holds, in order.
#[verifier::external_body]
fn buffer_bytes(b: &BytesMut) -> (r: &[u8])
    ensures
        r@ == buffered(*b),
{
    &b[..]
}

/// Relies on `Buf::advance` for BytesMut: drops the first `n` bytes; it
/// panics past the end, which `requires` rules out.
#[verifier::external_body]
fn buffer_advance(b: &mut BytesMut, n: usize)
    requires
        n <= buffered(*old(b)).len(),
    ensures
        buffered(*final(b)) == buffered(*old(b)).subrange(n as int, buffered(*old(b)).len() as int),
{
    b.advance(n)
}

/// Relies on BytesMut::extend_from_slice: appends `s` at the back.
#[verifier::external_body]
fn buffer_extend(b: &mut BytesMut, s: &[u8])
    ensures
        buffered(*final(b)) == buffered(*old(b)) + s@,
{
    b.extend_from_slice(s)
}

/// Room reserved up front in a new read buffer.
pub const INITIAL_CAPACITY: usize = 1048576;

/// Why reading a frame or a message failed.
#[derive(Debug, Clone, Copy, PartialEq, Eq, Structural)]
pub enum ReadError {
    /// The buffered bytes do not start a valid frame.
    Malformed,
    /// The stream closed in the middle of a frame or of a message.
    UnexpectedEof,
    /// A continuation frame arrived before any frame that starts a message.
    InvalidContinuation,
}

/// The bytes received from the stream and not yet decoded: the decoding
/// state of a reader, which its I/O loop drives.
pub struct ReadBuffer {
    buffer: BytesMut,
}

impl View for ReadBuffer {
    type V = Seq<u8>;

    closed spec fn view(&self) -> Seq<u8> {
        buffered(self.buffer)
    }
}

/// What the reader does next after one attempt to decode a message frame.
#[derive(Debug, Clone, Copy, PartialEq, Eq, Structural)]
pub enum MessageStep {
    /// The message still waits for frames.
    Pending,
    /// The message is complete and goes to the caller.
    Complete,
    /// The stream ended cleanly before any part of a message.
    Ended,
}

impl ReadBuffer {
    /// An empty buffer.
    pub fn new() -> (r: ReadBuffer)
        ensures
            r@ == Seq::<u8>::empty(),
    {
        ReadBuffer { buffer: buffer_with_capacity(INITIAL_CAPACITY) }
    }

    /// The bytes buffered so far.
    pub fn as_bytes(&self) -> (r: &[u8])
        ensures
            r@ == self@,
    {
        buffer_bytes(&self.buffer)
    }

    /// Decodes one frame from the front of the buffer. A complete frame is
    /// removed from the buffer and returned; `None` means more bytes are
    /// needed, and then the buffer is left as it was.
    pub fn parse_frame(&mut self) -> (r: Result<Option<WebSocketFrame>, ReadError>)
        ensures
            match decode(old(self)@) {
                Ok((n, f)) => {
                    &&& r matches Ok(Some(frame)) && frame@ == f
                    &&& final(self)@ == old(self)@.subrange(n as int, old(self)@.len() as int)
                },
                Err(DecodeError::Incomplete) => r == Ok::<Option<WebSocketFrame>, ReadError>(None)
                    && final(self)@ == old(self)@,
                Err(DecodeError::Malformed) => r == Err::<Option<WebSocketFrame>, ReadError>(
                    ReadError::Malformed,
                ) && final(self)@ == old(self)@,
            },
    {
        let parsed = WebSocketFrame::parse(buffer_bytes(&self.buffer));
        match parsed {
            Ok((n, frame)) => {
                buffer_advance(&mut self.buffer, n);
                Ok(Some(frame))
            },
            Err(DecodeError::Incomplete) => Ok(None),
            Err(DecodeError::Malformed) => Err(ReadError::Malformed),
        }
    }

    /// Takes the bytes of one read from the stream. A non-empty chunk is
    /// appended and `true` says to go on decoding. An empty chunk means the
    /// stream closed: with nothing buffered that is a clean end (`false`);
    /// with part of a frame buffered it is an error.
    pub fn receive(&mut self, chunk: &[u8]) -> (r: Result<bool, ReadError>)
        ensures
            chunk@.len() > 0 ==> r == Ok::<bool, ReadError>(true) && final(self)@ == old(self)@
                + chunk@,
            chunk@.len() == 0 && old(self)@.len() == 0 ==> r == Ok::<bool, ReadError>(false)
                && final(self)@ == old(self)@,
            chunk@.len() == 0 && old(self)@.len() > 0 ==> r == Err::<bool, ReadError>(
                ReadError::UnexpectedEof,
            ) && final(self)@ == old(self)@,
    {
        if chunk.len() == 0 {
            if buffer_bytes(&self.buffer).len() == 0 {
                Ok(false)
            } else {
                Err(ReadError::UnexpectedEof)
            }
        } else {
            buffer_extend(&mut self.buffer, chunk);
            Ok(true)
        }
    }
}

impl WebSocketMessage {
    /// Takes the outcome of one frame read for this message: `Some` frame is
    /// appended, `None` means the frame stream ended. Says whether the
    /// message is complete, still pending, or whether the stream ended
    /// cleanly with nothing received.
    pub fn accept(&mut self, frame: Option<WebSocketFrame>) -> (r: Result<MessageStep, ReadError>)
        ensures
            match frame {
                Some(f) => match append_spec(old(self)@, f@) {
                    Ok(m) => final(self)@ == m && r == Ok::<MessageStep, ReadError>(
                        if m.is_complete {
                            MessageStep::Complete
                        } else {
                            MessageStep::Pending
                        },
                    ),
                    Err(_) => final(self)@ == old(self)@ && r == Err::<MessageStep, ReadError>(
                        ReadError::InvalidContinuation,
                    ),
                },
                None => final(self)@ == old(self)@ && r == if old(self)@.payload.len() == 0 {
                    Ok::<MessageStep, ReadError>(MessageStep::Ended)
                } else {
                    Err(ReadError::UnexpectedEof)
                },
            },
    {
        match frame {
            Some(f) => match self.append_frame(f) {
                Ok(()) => {
                    if self.is_complete {
                        Ok(MessageStep::Complete)
                    } else {
                        Ok(MessageStep::Pending)
                    }
                },
                Err(_) => Err(ReadError::InvalidContinuation),
            },
            None => {
                if self.payload.len() == 0 {
                    Ok(MessageStep::Ended)
                } else {
                    Err(ReadError::UnexpectedEof)
                }
            },
        }
    }
}

} // verus!
