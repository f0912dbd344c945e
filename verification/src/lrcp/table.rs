//! The session table and the transition that one message makes on it.
//!
//! The table holds the sessions in the order in which they were opened, no
//! two with the same identifier. A single owner applies the messages one
//! after another; each application is one atomic transition, and what it
//! gives back is to be sent, in order.
use vstd::prelude::*;
use crate::lrcp::message::{accept, accepted, message_views, Message, MessageView};
use crate::lrcp::session::{Session, SessionView};

verus! {

/// The number of seconds from one retransmission tick to the next.
pub const RETRANSMIT_SECONDS: u64 = 3;

/// A message to send, and where to.
pub struct Outbound<A> {
    /// The address to send to.
    pub to: A,
    /// The message to send.
    pub message: Message,
}

/// A message to send, as a mathematical value.
pub struct OutboundView<A> {
    pub to: A,
    pub message: MessageView,
}

impl<A> View for Outbound<A> {
    type V = OutboundView<A>;

    open spec fn view(&self) -> OutboundView<A> {
        OutboundView { to: self.to, message: self.message@ }
    }
}

/// The messages of a list and their addresses, as mathematical values.
pub open spec fn outbound_views<A>(out: Seq<Outbound<A>>) -> Seq<OutboundView<A>> {
    Seq::new(out.len(), |i: int| out[i]@)
}

/// The messages `messages`, each to be sent to `to`.
pub open spec fn addressed<A>(to: A, messages: Seq<MessageView>) -> Seq<OutboundView<A>> {
    Seq::new(messages.len(), |i: int| OutboundView { to, message: messages[i] })
}

/// The acknowledgment that session `id` holds `len` bytes, to be sent to `to`.
pub open spec fn ack_to<A>(to: A, id: u32, len: usize) -> OutboundView<A> {
    OutboundView { to, message: MessageView::Ack { id, len } }
}

/// The notice that session `id` is closed, to be sent to `to`.
pub open spec fn close_to<A>(to: A, id: u32) -> OutboundView<A> {
    OutboundView { to, message: MessageView::Close { id } }
}

/// Whether a table holds a session with this identifier.
pub open spec fn holds<A>(table: Seq<SessionView<A>>, id: u32) -> bool {
    exists|i: int| 0 <= i < table.len() && (#[trigger] table[i]).id == id
}

/// The place of the session with this identifier in a table that holds it.
pub open spec fn index_of<A>(table: Seq<SessionView<A>>, id: u32) -> int {
    choose|i: int| 0 <= i < table.len() && (#[trigger] table[i]).id == id
}

/// The invariant of a table: every session is well formed, and no two
/// sessions have the same identifier.
pub open spec fn table_wf<A>(table: Seq<SessionView<A>>) -> bool {
    &&& forall|i: int| 0 <= i < table.len() ==> (#[trigger] table[i]).wf()
    &&& forall|i: int, j: int|
        0 <= i < table.len() && 0 <= j < table.len() && i != j ==> (#[trigger] table[i]).id != (
        #[trigger] table[j]).id
}

/// A table after a transition, and what the transition gives to send.
pub struct Transition<A> {
    pub table: Seq<SessionView<A>>,
    pub out: Seq<OutboundView<A>>,
}

/// The transition that an `open` for `id` from `from` makes: the session is
/// created if the table does not hold it, and in all cases the number of
/// bytes received so far is acknowledged.
pub open spec fn step_open<A>(table: Seq<SessionView<A>>, id: u32, from: A) -> Transition<A> {
    if holds(table, id) {
        let i = index_of(table, id);
        let s = table[i].heard_from(from);
        Transition { table: table.update(i, s), out: seq![ack_to(from, id, s.rx_pos)] }
    } else {
        Transition {
            table: table.push(SessionView::fresh(id, from)),
            out: seq![ack_to(from, id, 0)],
        }
    }
}

/// The transition that `data` for `id` from `from` makes. For a session
/// that the table does not hold, nothing. Data that is the next part of the
/// stream is taken in, the new count is acknowledged, and all unconfirmed
/// output is sent after it. For any other data the count as it stands is
/// acknowledged and the buffers stay as they are.
pub open spec fn step_data<A>(
    table: Seq<SessionView<A>>,
    id: u32,
    pos: usize,
    payload: Seq<u8>,
    from: A,
) -> Transition<A> {
    if !holds(table, id) {
        Transition { table, out: Seq::empty() }
    } else {
        let i = index_of(table, id);
        let heard = table[i].heard_from(from);
        if heard.accepts(pos, payload) {
            let s = heard.received(payload);
            Transition {
                table: table.update(i, s),
                out: seq![ack_to(from, id, s.rx_pos)] + addressed(from, s.unconfirmed()),
            }
        } else {
            Transition { table: table.update(i, heard), out: seq![ack_to(from, id, heard.rx_pos)] }
        }
    }
}

/// The transition that an `ack` for `id` from `from` makes. For a session
/// that the table does not hold, nothing; for an acknowledgment that says
/// nothing new, nothing to send. One that claims bytes never sent ends the
/// session, and the peer is told so. Any other drops the confirmed output,
/// and what is left is sent again at once.
pub open spec fn step_ack<A>(table: Seq<SessionView<A>>, id: u32, len: usize, from: A) -> Transition<
    A,
> {
    if !holds(table, id) {
        Transition { table, out: Seq::empty() }
    } else {
        let i = index_of(table, id);
        let heard = table[i].heard_from(from);
        if heard.ack_is_stale(len) {
            Transition { table: table.update(i, heard), out: Seq::empty() }
        } else if heard.ack_overruns(len) {
            Transition { table: table.remove(i), out: seq![close_to(from, id)] }
        } else {
            let s = heard.acknowledged(len);
            Transition { table: table.update(i, s), out: addressed(from, s.unconfirmed()) }
        }
    }
}

/// The transition that a `close` for `id` from `from` makes: the session
/// goes, if the table holds it, and the close is answered in all cases.
pub open spec fn step_close<A>(table: Seq<SessionView<A>>, id: u32, from: A) -> Transition<A> {
    Transition {
        table: if holds(table, id) {
            table.remove(index_of(table, id))
        } else {
            table
        },
        out: seq![close_to(from, id)],
    }
}

/// The transition that a message from `from` makes on a table.
pub open spec fn step<A>(table: Seq<SessionView<A>>, message: MessageView, from: A) -> Transition<
    A,
> {
    match message {
        MessageView::Open { id } => step_open(table, id, from),
        MessageView::Data { id, pos, payload } => step_data(table, id, pos, payload, from),
        MessageView::Ack { id, len } => step_ack(table, id, len, from),
        MessageView::Close { id } => step_close(table, id, from),
    }
}

/// The transition that a datagram from `from` makes on a table: that of the
/// message it carries, and none where it is too long or carries no message.
pub open spec fn step_datagram<A>(table: Seq<SessionView<A>>, datagram: Seq<u8>, from: A) -> Transition<
    A,
> {
    match accepted(datagram) {
        Some(message) => step(table, message, from),
        None => Transition { table, out: Seq::empty() },
    }
}

/// What a retransmission tick sends: for every session, in the order of the
/// table, all its unconfirmed output to the address it was last heard from.
pub open spec fn sweep<A>(table: Seq<SessionView<A>>) -> Seq<OutboundView<A>>
    decreases table.len(),
{
    if table.len() == 0 {
        Seq::empty()
    } else {
        sweep(table.drop_last()) + addressed(table.last().peer, table.last().unconfirmed())
    }
}

/// The table of sessions.
pub struct SessionTable<A> {
    sessions: Vec<Session<A>>,
}

impl<A> View for SessionTable<A> {
    type V = Seq<SessionView<A>>;

    closed spec fn view(&self) -> Seq<SessionView<A>> {
        Seq::new(self.sessions@.len(), |i: int| self.sessions@[i]@)
    }
}

/// Appends to `out` the messages `messages`, each to be sent to `to`.
fn address_to<A: Copy>(to: A, messages: Vec<Message>, out: &mut Vec<Outbound<A>>)
    ensures
        outbound_views(final(out)@) == outbound_views(old(out)@) + addressed(
            to,
            message_views(messages@),
        ),
{
    let ghost before = outbound_views(out@);
    let ghost all = addressed(to, message_views(messages@));
    for message in it: messages
        invariant
            it.seq() == messages@,
            all == addressed(to, message_views(messages@)),
            outbound_views(out@) == before + all.take(it.index() as int),
    {
        let ghost done = it.index() as int;
        out.push(Outbound { to, message });
        proof {
            assert(all.take(done + 1) == all.take(done).push(all[done]));
            assert(outbound_views(out@) == (before + all.take(done)).push(all[done]));
        }
    }
    proof {
        assert(all.take(all.len() as int) == all);
    }
}

impl<A: Copy> SessionTable<A> {
    /// The invariant of the table.
    pub open spec fn wf(&self) -> bool {
        table_wf(self@)
    }

    /// A table without sessions.
    pub fn new() -> (t: Self)
        ensures
            t@ == Seq::<SessionView<A>>::empty(),
            t.wf(),
    {
        SessionTable { sessions: Vec::new() }
    }

    /// The number of sessions.
    pub fn len(&self) -> (n: usize)
        ensures
            n == self@.len(),
    {
        self.sessions.len()
    }

    /// The place of the session `id`, if the table holds it.
    fn position(&self, id: u32) -> (r: Option<usize>)
        requires
            self.wf(),
        ensures
            match r {
                Some(i) => holds(self@, id) && i == index_of(self@, id) && i < self.sessions.len(),
                None => !holds(self@, id),
            },
    {
        let mut i: usize = 0;
        while i < self.sessions.len()
            invariant
                self.wf(),
                i <= self.sessions.len(),
                forall|j: int| 0 <= j < i ==> self@[j].id != id,
            decreases self.sessions.len() - i,
        {
            if self.sessions[i].id() == id {
                assert(self@[i as int].id == id);
                assert(self@[index_of(self@, id)].id == id);
                return Some(i);
            }
            i += 1;
        }
        None
    }

    /// The session `id`, if the table holds it.
    pub fn get(&self, id: u32) -> (r: Option<&Session<A>>)
        requires
            self.wf(),
        ensures
            match r {
                Some(s) => holds(self@, id) && s@ == self@[index_of(self@, id)],
                None => !holds(self@, id),
            },
    {
        match self.position(id) {
            Some(i) => Some(&self.sessions[i]),
            None => None,
        }
    }

    /// Whether the table holds the session `id`.
    pub fn contains(&self, id: u32) -> (r: bool)
        requires
            self.wf(),
        ensures
            r == holds(self@, id),
    {
        self.position(id).is_some()
    }

    /// Applies an `open` for `id` that came from `from`.
    pub fn open(&mut self, id: u32, from: A) -> (out: Vec<Outbound<A>>)
        requires
            old(self).wf(),
        ensures
            final(self).wf(),
            final(self)@ == step_open(old(self)@, id, from).table,
            outbound_views(out@) == step_open(old(self)@, id, from).out,
    {
        let mut out: Vec<Outbound<A>> = Vec::new();
        let len = match self.position(id) {
            Some(i) => {
                let session = &mut self.sessions[i];
                session.hear_from(from);
                session.rx_pos()
            },
            None => {
                self.sessions.push(Session::new(id, from));
                0
            },
        };
        out.push(Outbound { to: from, message: Message::Ack { id, len } });
        proof {
            assert(self@ == step_open(old(self)@, id, from).table);
            assert(outbound_views(out@) == step_open(old(self)@, id, from).out);
        }
        out
    }

    /// Applies `data` for `id` that came from `from`.
    pub fn data(&mut self, id: u32, pos: usize, payload: &[u8], from: A) -> (out: Vec<Outbound<A>>)
        requires
            old(self).wf(),
        ensures
            final(self).wf(),
            final(self)@ == step_data(old(self)@, id, pos, payload@, from).table,
            outbound_views(out@) == step_data(old(self)@, id, pos, payload@, from).out,
    {
        let mut out: Vec<Outbound<A>> = Vec::new();
        match self.position(id) {
            Some(i) => {
                let session = &mut self.sessions[i];
                session.hear_from(from);
                if session.accepts(pos, payload) {
                    session.receive(payload);
                    let len = session.rx_pos();
                    let pending = session.unconfirmed();
                    out.push(Outbound { to: from, message: Message::Ack { id, len } });
                    address_to(from, pending, &mut out);
                } else {
                    let len = session.rx_pos();
                    out.push(Outbound { to: from, message: Message::Ack { id, len } });
                }
            },
            None => {},
        }
        proof {
            assert(self@ == step_data(old(self)@, id, pos, payload@, from).table);
            assert(outbound_views(out@) == step_data(old(self)@, id, pos, payload@, from).out);
        }
        out
    }

    /// Applies an `ack` for `id` that came from `from`.
    pub fn ack(&mut self, id: u32, len: usize, from: A) -> (out: Vec<Outbound<A>>)
        requires
            old(self).wf(),
        ensures
            final(self).wf(),
            final(self)@ == step_ack(old(self)@, id, len, from).table,
            outbound_views(out@) == step_ack(old(self)@, id, len, from).out,
    {
        let mut out: Vec<Outbound<A>> = Vec::new();
        match self.position(id) {
            Some(i) => {
                let session = &mut self.sessions[i];
                session.hear_from(from);
                if session.ack_is_stale(len) {
                } else if session.ack_overruns(len) {
                    self.sessions.remove(i);
                    out.push(Outbound { to: from, message: Message::Close { id } });
                } else {
                    session.acknowledge(len);
                    let pending = session.unconfirmed();
                    address_to(from, pending, &mut out);
                }
            },
            None => {},
        }
        proof {
            assert(self@ == step_ack(old(self)@, id, len, from).table);
            assert(outbound_views(out@) == step_ack(old(self)@, id, len, from).out);
        }
        out
    }

    /// Applies a `close` for `id` that came from `from`.
    pub fn close(&mut self, id: u32, from: A) -> (out: Vec<Outbound<A>>)
        requires
            old(self).wf(),
        ensures
            final(self).wf(),
            final(self)@ == step_close(old(self)@, id, from).table,
            outbound_views(out@) == step_close(old(self)@, id, from).out,
    {
        let mut out: Vec<Outbound<A>> = Vec::new();
        match self.position(id) {
            Some(i) => {
                self.sessions.remove(i);
            },
            None => {},
        }
        out.push(Outbound { to: from, message: Message::Close { id } });
        proof {
            assert(self@ == step_close(old(self)@, id, from).table);
            assert(outbound_views(out@) == step_close(old(self)@, id, from).out);
        }
        out
    }

    /// Applies a message that came from `from`, and gives what is to be
    /// sent in answer, in order.
    pub fn handle(&mut self, message: &Message, from: A) -> (out: Vec<Outbound<A>>)
        requires
            old(self).wf(),
        ensures
            final(self).wf(),
            final(self)@ == step(old(self)@, message@, from).table,
            outbound_views(out@) == step(old(self)@, message@, from).out,
    {
        match message {
            Message::Open { id } => self.open(*id, from),
            Message::Data { id, pos, payload } => self.data(*id, *pos, payload.as_slice(), from),
            Message::Ack { id, len } => self.ack(*id, *len, from),
            Message::Close { id } => self.close(*id, from),
        }
    }

    /// Applies a datagram that came from `from`. One that is too long or
    /// carries no message changes nothing and gets no answer.
    pub fn receive(&mut self, datagram: &[u8], from: A) -> (out: Vec<Outbound<A>>)
        requires
            old(self).wf(),
        ensures
            final(self).wf(),
            final(self)@ == step_datagram(old(self)@, datagram@, from).table,
            outbound_views(out@) == step_datagram(old(self)@, datagram@, from).out,
    {
        match accept(datagram) {
            Some(message) => self.handle(&message, from),
            None => {
                let out: Vec<Outbound<A>> = Vec::new();
                assert(outbound_views(out@) == Seq::<OutboundView<A>>::empty());
                out
            },
        }
    }

    /// What a retransmission tick sends. The table stays as it is, so
    /// with no message in between the next tick sends the same again.
    pub fn retransmit(&self) -> (out: Vec<Outbound<A>>)
        requires
            self.wf(),
        ensures
            outbound_views(out@) == sweep(self@),
    {
        let mut out: Vec<Outbound<A>> = Vec::new();
        let mut i: usize = 0;
        proof {
            assert(self@.take(0) == Seq::<SessionView<A>>::empty());
            assert(outbound_views(out@) == sweep(self@.take(0)));
        }
        while i < self.sessions.len()
            invariant
                self.wf(),
                i <= self.sessions.len(),
                outbound_views(out@) == sweep(self@.take(i as int)),
            decreases self.sessions.len() - i,
        {
            let session = &self.sessions[i];
            proof {
                assert(self@.take(i + 1).drop_last() == self@.take(i as int));
                assert(self@.take(i + 1).last() == session@);
                assert(self@[i as int].wf());
            }
            address_to(session.peer(), session.unconfirmed(), &mut out);
            i += 1;
        }
        proof {
            assert(self@.take(self@.len() as int) == self@);
        }
        out
    }
}

} // verus!
