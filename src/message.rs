use vstd::prelude::*;

use crate::frame::{FrameView, WebSocketFrame};
use crate::opcode::WebSocketOpcode;

verus! {

/// One logical message, reassembled from one or more frames.
#[derive(Debug)]
pub struct WebSocketMessage {
    /// Opcode of the first frame of the message.
    pub opcode: Option<WebSocketOpcode>,
    /// Concatenated payloads of the frames appended so far.
    pub payload: Vec<u8>,
    /// Set once a frame with FIN has been appended.
    pub is_complete: bool,
}

/// The mathematical content of a message.
pub struct MessageView {
    pub opcode: Option<WebSocketOpcode>,
    pub payload: Seq<u8>,
    pub is_complete: bool,
}

impl View for WebSocketMessage {
    type V = MessageView;

    open spec fn view(&self) -> MessageView {
        MessageView { opcode: self.opcode, payload: self.payload@, is_complete: self.is_complete }
    }
}

/// A frame that cannot be appended to a message.
#[derive(Debug, Clone, Copy, PartialEq, Eq, Structural)]
pub enum MessageError {
    /// A continuation frame arrived before any frame that starts a message.
    ContinuationWithoutStart,
}

/// A message to which nothing has been appended.
pub open spec fn empty_message() -> MessageView {
    MessageView { opcode: None, payload: Seq::empty(), is_complete: false }
}

/// The message `m` after the frame `f` is appended to it.
pub open spec fn append_spec(m: MessageView, f: FrameView) -> Result<MessageView, MessageError> {
    if f.opcode == WebSocketOpcode::Continuation && m.opcode is None {
        Err(MessageError::ContinuationWithoutStart)
    } else {
        Ok(
            MessageView {
                opcode: if m.opcode is None {
                    Some(f.opcode)
                } else {
                    m.opcode
                },
                payload: m.payload + f.payload,
                is_complete: m.is_complete || f.fin,
            },
        )
    }
}

/// The message `m` after the frames `frames` are appended to it in order.
pub open spec fn append_all(m: MessageView, frames: Seq<FrameView>) -> Result<
    MessageView,
    MessageError,
>
    decreases frames.len(),
{
    if frames.len() == 0 {
        Ok(m)
    } else {
        match append_all(m, frames.drop_last()) {
            Ok(m2) => append_spec(m2, frames.last()),
            Err(e) => Err(e),
        }
    }
}

/// The payloads of `frames`, concatenated in order.
pub open spec fn concat_payloads(frames: Seq<FrameView>) -> Seq<u8>
    decreases frames.len(),
{
    if frames.len() == 0 {
        Seq::empty()
    } else {
        concat_payloads(frames.drop_last()) + frames.last().payload
    }
}

/// A continuation frame can never be the first frame of a message: appending
/// one to an empty message fails, and the message stays incomplete.
pub proof fn lemma_continuation_first_rejected(f: FrameView)
    requires
        f.opcode == WebSocketOpcode::Continuation,
    ensures
        append_spec(empty_message(), f) == Err::<MessageView, MessageError>(
            MessageError::ContinuationWithoutStart,
        ),
        !empty_message().is_complete,
{
}

/// A message sent as a starting frame without FIN, continuation frames without
/// FIN, and a last continuation frame with FIN reassembles into one complete
/// message with the starting opcode and the concatenated payloads.
pub proof fn lemma_fragmented_reassembly(frames: Seq<FrameView>)
    requires
        frames.len() >= 2,
        frames[0].opcode != WebSocketOpcode::Continuation,
        !frames[0].fin,
        forall|i: int|
            1 <= i < frames.len() ==> #[trigger] frames[i].opcode == WebSocketOpcode::Continuation,
        forall|i: int| 1 <= i < frames.len() - 1 ==> !(#[trigger] frames[i].fin),
        frames.last().fin,
    ensures
        append_all(empty_message(), frames) == Ok::<MessageView, MessageError>(
            MessageView {
                opcode: Some(frames[0].opcode),
                payload: concat_payloads(frames),
                is_complete: true,
            },
        ),
{
    lemma_prefix_reassembly(frames, frames.len() as nat);
    assert(frames.subrange(0, frames.len() as int) =~= frames);
}

proof fn lemma_prefix_reassembly(frames: Seq<FrameView>, k: nat)
    requires
        1 <= k <= frames.len(),
        frames[0].opcode != WebSocketOpcode::Continuation,
        forall|i: int| 1 <= i < frames.len() - 1 ==> !(#[trigger] frames[i].fin),
        !frames[0].fin,
    ensures
        append_all(empty_message(), frames.subrange(0, k as int)) == Ok::<MessageView, MessageError>(
            MessageView {
                opcode: Some(frames[0].opcode),
                payload: concat_payloads(frames.subrange(0, k as int)),
                is_complete: k == frames.len() && frames.last().fin,
            },
        ),
    decreases k,
{
    let p = frames.subrange(0, k as int);
    if k == 1 {
        assert(p.drop_last() =~= Seq::<FrameView>::empty());
        assert(concat_payloads(p.drop_last()) =~= Seq::<u8>::empty());
        assert(Seq::<u8>::empty() + frames[0].payload =~= frames[0].payload);
        assert(concat_payloads(p) =~= frames[0].payload);
        assert(append_all(empty_message(), p.drop_last()) == Ok::<MessageView, MessageError>(empty_message()));
        assert(p.last() == frames[0]);
    } else {
        lemma_prefix_reassembly(frames, (k - 1) as nat);
        assert(p.drop_last() =~= frames.subrange(0, k - 1));
        assert(p.last() == frames[k - 1]);
        if k < frames.len() {
            assert(!frames[k - 1].fin);
        }
    }
}

impl WebSocketMessage {
    /// An empty message, waiting for its first frame.
    pub fn new() -> (r: WebSocketMessage)
        ensures
            r@ == empty_message(),
    {
        WebSocketMessage { opcode: None, payload: Vec::new(), is_complete: false }
    }

    /// Clears the message so that it can take the frames of another one.
    pub fn reset(&mut self)
        ensures
            final(self)@ == empty_message(),
    {
        self.opcode = None;
        self.payload.clear();
        self.is_complete = false;
        assert(self.payload@ =~= Seq::<u8>::empty());
    }

    /// Appends a frame: records the opcode of the first frame, adds the
    /// payload, and marks the message complete on FIN. A continuation frame
    /// with no starting frame before it is refused and changes nothing.
    pub fn append_frame(&mut self, frame: WebSocketFrame) -> (r: Result<(), MessageError>)
        ensures
            match append_spec(old(self)@, frame@) {
                Ok(m) => r is Ok && final(self)@ == m,
                Err(e) => r == Err::<(), MessageError>(e) && final(self)@ == old(self)@,
            },
    {
        if frame.opcode == WebSocketOpcode::Continuation && self.opcode.is_none() {
            return Err(MessageError::ContinuationWithoutStart);
        }
        if self.opcode.is_none() {
            self.opcode = Some(frame.opcode);
        }
        let mut extra = frame.payload;
        self.payload.append(&mut extra);
        if frame.fin {
            self.is_complete = true;
        }
        Ok(())
    }

    /// The reassembled payload once the message is complete.
    pub fn get_message(&self) -> (r: Option<&[u8]>)
        ensures
            self.is_complete ==> (r matches Some(p) && p@ == self.payload@),
            !self.is_complete ==> r is None,
    {
        if self.is_complete {
            Some(self.payload.as_slice())
        } else {
            None
        }
    }
}

} // verus!
