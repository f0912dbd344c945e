//! One session: the transport state kept for one session identifier.
//!
//! `rx_pos` counts the bytes received in order from the peer. Of those, the
//! complete lines have gone to the application and have come back, reversed,
//! as output; what follows the last newline waits in `rx_accumulator`.
//! `tx_acked` counts the output bytes that the peer has confirmed, and
//! `tx_buffer` holds the output from there on. Since a reversed line is as
//! long as the line, the three add up to `rx_pos`.
use vstd::prelude::*;
use crate::lrcp::lines::{
    complete_len, lemma_complete_len, lemma_reversed_lines_len, reverse_lines, reversed_lines,
    NEWLINE,
};
use crate::lrcp::message::{message_views, Message, MessageView};
use crate::lrcp::segment::{segment, segments};

verus! {

/// The transport state of one session. `A` is the type of a peer's address,
/// which the transport stores and hands back and never looks into.
pub struct Session<A> {
    id: u32,
    peer: A,
    rx_pos: usize,
    rx_accumulator: Vec<u8>,
    tx_acked: usize,
    tx_buffer: Vec<u8>,
}

/// A session as a mathematical value.
pub struct SessionView<A> {
    /// The identifier that the peer chose.
    pub id: u32,
    /// The address from which the session was last heard.
    pub peer: A,
    /// The number of bytes received in order.
    pub rx_pos: usize,
    /// The bytes received after the last complete line.
    pub rx_accumulator: Seq<u8>,
    /// The number of output bytes that the peer has confirmed.
    pub tx_acked: usize,
    /// The output from offset `tx_acked` on.
    pub tx_buffer: Seq<u8>,
}

impl<A> SessionView<A> {
    /// The invariant of a session: no complete line waits in the
    /// accumulator, and every byte received is either waiting there or has
    /// become one byte of output.
    pub open spec fn wf(self) -> bool {
        &&& forall|i: int| 0 <= i < self.rx_accumulator.len() ==> self.rx_accumulator[i] != NEWLINE
        &&& self.tx_acked + self.tx_buffer.len() + self.rx_accumulator.len() == self.rx_pos
    }

    /// A session that has just been opened from `peer`.
    pub open spec fn fresh(id: u32, peer: A) -> Self {
        SessionView {
            id,
            peer,
            rx_pos: 0,
            rx_accumulator: Seq::empty(),
            tx_acked: 0,
            tx_buffer: Seq::empty(),
        }
    }

    /// The session after a message for it has come from `peer`.
    pub open spec fn heard_from(self, peer: A) -> Self {
        SessionView { peer, ..self }
    }

    /// Whether data at `pos` is the next part of the stream. It is when
    /// `pos` is the number of bytes received so far, and the count of bytes
    /// with the payload added still fits the machine's word.
    pub open spec fn accepts(self, pos: usize, payload: Seq<u8>) -> bool {
        pos == self.rx_pos && self.rx_pos + payload.len() <= usize::MAX
    }

    /// The session after `payload` has been received in order: the count
    /// goes up by its length, the lines that it completes go reversed to the
    /// end of the output, and what follows the last newline waits on.
    pub open spec fn received(self, payload: Seq<u8>) -> Self {
        let pending = self.rx_accumulator + payload;
        SessionView {
            rx_pos: (self.rx_pos + payload.len()) as usize,
            rx_accumulator: pending.skip(complete_len(pending) as int),
            tx_buffer: self.tx_buffer + reversed_lines(pending),
            ..self
        }
    }

    /// Whether an acknowledgment of `len` bytes says nothing new.
    pub open spec fn ack_is_stale(self, len: usize) -> bool {
        len <= self.tx_acked
    }

    /// Whether an acknowledgment of `len` bytes claims bytes that were never
    /// sent.
    pub open spec fn ack_overruns(self, len: usize) -> bool {
        len > self.tx_acked + self.tx_buffer.len()
    }

    /// The session after the peer has confirmed the first `len` bytes of
    /// output.
    pub open spec fn acknowledged(self, len: usize) -> Self {
        SessionView {
            tx_acked: len,
            tx_buffer: self.tx_buffer.skip(len - self.tx_acked),
            ..self
        }
    }

    /// The `data` messages that carry the unconfirmed output.
    pub open spec fn unconfirmed(self) -> Seq<MessageView> {
        segments(self.id, self.tx_acked, self.tx_buffer)
    }
}

/// Receiving in order keeps the invariant.
pub proof fn lemma_received_wf<A>(s: SessionView<A>, payload: Seq<u8>)
    requires
        s.wf(),
        s.rx_pos + payload.len() <= usize::MAX,
    ensures
        s.received(payload).wf(),
{
    let pending = s.rx_accumulator + payload;
    lemma_complete_len(pending);
    lemma_reversed_lines_len(pending);
}

impl<A> View for Session<A> {
    type V = SessionView<A>;

    closed spec fn view(&self) -> SessionView<A> {
        SessionView {
            id: self.id,
            peer: self.peer,
            rx_pos: self.rx_pos,
            rx_accumulator: self.rx_accumulator@,
            tx_acked: self.tx_acked,
            tx_buffer: self.tx_buffer@,
        }
    }
}

impl<A: Copy> Session<A> {
    /// Opens a session.
    pub(crate) fn new(id: u32, peer: A) -> (s: Self)
        ensures
            s@ == SessionView::fresh(id, peer),
            s@.wf(),
    {
        Session {
            id,
            peer,
            rx_pos: 0,
            rx_accumulator: Vec::new(),
            tx_acked: 0,
            tx_buffer: Vec::new(),
        }
    }

    /// The identifier of the session.
    pub fn id(&self) -> (r: u32)
        ensures
            r == self@.id,
    {
        self.id
    }

    /// The address from which the session was last heard.
    pub fn peer(&self) -> (r: A)
        ensures
            r == self@.peer,
    {
        self.peer
    }

    /// The number of bytes received in order.
    pub fn rx_pos(&self) -> (r: usize)
        ensures
            r == self@.rx_pos,
    {
        self.rx_pos
    }

    /// The bytes received after the last complete line.
    pub fn rx_accumulator(&self) -> (r: &[u8])
        ensures
            r@ == self@.rx_accumulator,
    {
        self.rx_accumulator.as_slice()
    }

    /// The number of output bytes that the peer has confirmed.
    pub fn tx_acked(&self) -> (r: usize)
        ensures
            r == self@.tx_acked,
    {
        self.tx_acked
    }

    /// The output that the peer has not confirmed.
    pub fn tx_buffer(&self) -> (r: &[u8])
        ensures
            r@ == self@.tx_buffer,
    {
        self.tx_buffer.as_slice()
    }

    /// Notes that a message for the session has come from `peer`.
    pub(crate) fn hear_from(&mut self, peer: A)
        ensures
            final(self)@ == old(self)@.heard_from(peer),
    {
        self.peer = peer;
    }

    /// Whether data at `pos` is the next part of the stream.
    pub(crate) fn accepts(&self, pos: usize, payload: &[u8]) -> (r: bool)
        ensures
            r == self@.accepts(pos, payload@),
    {
        pos == self.rx_pos && payload.len() <= usize::MAX - self.rx_pos
    }

    /// Takes in `payload`, the next part of the stream.
    pub(crate) fn receive(&mut self, payload: &[u8])
        requires
            old(self)@.wf(),
            old(self)@.rx_pos + payload@.len() <= usize::MAX,
        ensures
            final(self)@ == old(self)@.received(payload@),
            final(self)@.wf(),
    {
        let ghost pending = self@.rx_accumulator + payload@;
        proof {
            lemma_received_wf(self@, payload@);
            lemma_complete_len(pending);
        }
        self.rx_accumulator.extend_from_slice(payload);
        assert(self.rx_accumulator@ == pending);
        self.rx_pos = self.rx_pos + payload.len();
        let (taken, mut produced) = reverse_lines(self.rx_accumulator.as_slice());
        let rest = self.rx_accumulator.split_off(taken);
        self.rx_accumulator = rest;
        self.tx_buffer.append(&mut produced);
    }

    /// Whether an acknowledgment of `len` bytes says nothing new.
    pub(crate) fn ack_is_stale(&self, len: usize) -> (r: bool)
        ensures
            r == self@.ack_is_stale(len),
    {
        len <= self.tx_acked
    }

    /// Whether an acknowledgment of `len` bytes claims bytes that were never
    /// sent.
    pub(crate) fn ack_overruns(&self, len: usize) -> (r: bool)
        requires
            self@.wf(),
        ensures
            r == self@.ack_overruns(len),
    {
        len > self.tx_acked + self.tx_buffer.len()
    }

    /// Drops the output that an acknowledgment of `len` bytes confirms.
    pub(crate) fn acknowledge(&mut self, len: usize)
        requires
            old(self)@.wf(),
            !old(self)@.ack_is_stale(len),
            !old(self)@.ack_overruns(len),
        ensures
            final(self)@ == old(self)@.acknowledged(len),
            final(self)@.wf(),
    {
        let rest = self.tx_buffer.split_off(len - self.tx_acked);
        self.tx_buffer = rest;
        self.tx_acked = len;
    }

    /// The `data` messages that carry the unconfirmed output.
    pub(crate) fn unconfirmed(&self) -> (out: Vec<Message>)
        requires
            self@.wf(),
        ensures
            message_views(out@) == self@.unconfirmed(),
    {
        segment(self.id, self.tx_acked, self.tx_buffer.as_slice())
    }
}

} // verus!
