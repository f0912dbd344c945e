//! What holds of the transport whatever messages arrive.
use vstd::prelude::*;
use crate::lrcp::lines::{
    complete_len, lemma_complete_len, lemma_reversed_lines_len, reversed_lines, NEWLINE,
};
use crate::lrcp::message::MessageView;
use crate::lrcp::segment::{joined_payloads, lemma_segments_tile};
use crate::lrcp::session::{lemma_received_wf, SessionView};
use crate::lrcp::table::{
    ack_to, addressed, close_to, holds, index_of, step, step_ack, step_data, step_open, sweep,
    table_wf, OutboundView, Transition,
};

verus! {

/// In a well-formed table a session is found at one place only.
pub proof fn lemma_index_of<A>(table: Seq<SessionView<A>>, id: u32, i: int)
    requires
        table_wf(table),
        0 <= i < table.len(),
        table[i].id == id,
    ensures
        holds(table, id),
        index_of(table, id) == i,
{
    assert(table[index_of(table, id)].id == id);
}

/// A transition keeps the table well formed.
pub proof fn lemma_step_wf<A>(table: Seq<SessionView<A>>, message: MessageView, from: A)
    requires
        table_wf(table),
    ensures
        table_wf(step(table, message, from).table),
{
    match message {
        MessageView::Open { id } => {},
        MessageView::Data { id, pos, payload } => {
            if holds(table, id) {
                let heard = table[index_of(table, id)].heard_from(from);
                if heard.accepts(pos, payload) {
                    lemma_received_wf(heard, payload);
                }
            }
        },
        MessageView::Ack { id, len } => {},
        MessageView::Close { id } => {},
    }
}

/// An `open` for a session that exists keeps its counts and its buffers:
/// the session stays in its place with nothing changed but the address it
/// was last heard from, every other session stays as it is, and the answer
/// is the acknowledgment of the bytes received so far.
pub proof fn lemma_open_keeps_session<A>(table: Seq<SessionView<A>>, id: u32, from: A)
    requires
        table_wf(table),
        holds(table, id),
    ensures
        ({
            let i = index_of(table, id);
            let after = step_open(table, id, from);
            &&& after.table == table.update(i, table[i].heard_from(from))
            &&& after.table[i].rx_pos == table[i].rx_pos
            &&& after.table[i].rx_accumulator == table[i].rx_accumulator
            &&& after.table[i].tx_acked == table[i].tx_acked
            &&& after.table[i].tx_buffer == table[i].tx_buffer
            &&& after.out == seq![ack_to(from, id, table[i].rx_pos)]
        }),
{
}

/// Opening is idempotent: a second `open` from the same address changes
/// nothing and gets the same answer as the first.
pub proof fn lemma_open_idempotent<A>(table: Seq<SessionView<A>>, id: u32, from: A)
    requires
        table_wf(table),
    ensures
        ({
            let once = step_open(table, id, from);
            let twice = step_open(once.table, id, from);
            twice.table == once.table && twice.out == once.out
        }),
{
    let once = step_open(table, id, from);
    lemma_step_wf(table, MessageView::Open { id }, from);
    if holds(table, id) {
        lemma_index_of(once.table, id, index_of(table, id));
    } else {
        lemma_index_of(once.table, id, table.len() as int);
    }
    let i = index_of(once.table, id);
    assert(once.table.update(i, once.table[i].heard_from(from)) == once.table);
}

/// One transition never lowers the counts of a session: where the table
/// holds the session before and after, the number of bytes received and the
/// number of bytes confirmed are at least what they were.
pub proof fn lemma_step_monotone<A>(
    table: Seq<SessionView<A>>,
    message: MessageView,
    from: A,
    id: u32,
)
    requires
        table_wf(table),
        holds(table, id),
        holds(step(table, message, from).table, id),
    ensures
        ({
            let after = step(table, message, from).table;
            let before = table[index_of(table, id)];
            let session = after[index_of(after, id)];
            before.rx_pos <= session.rx_pos && before.tx_acked <= session.tx_acked
        }),
{
    let after = step(table, message, from).table;
    let i = index_of(table, id);
    let j = index_of(after, id);
    lemma_step_wf(table, message, from);
    assert(table[i].id == id);
    assert(after[j].id == id);
    let mid = match message {
        MessageView::Open { id } => id,
        MessageView::Data { id, .. } => id,
        MessageView::Ack { id, .. } => id,
        MessageView::Close { id } => id,
    };
    if holds(table, mid) {
        let k = index_of(table, mid);
        assert(table[k].id == mid);
        if after.len() == table.len() {
            // The session of the message was updated in place.
            assert(after[i].id == id);
            lemma_index_of(after, id, i);
        } else {
            // The session of the message was removed.
            assert(after == table.remove(k));
            if j < k {
                assert(after[j] == table[j]);
                lemma_index_of(table, id, j);
            } else {
                assert(after[j] == table[j + 1]);
                lemma_index_of(table, id, j + 1);
            }
        }
    } else {
        if after.len() == table.len() {
            assert(after == table);
        } else {
            assert(after == table.push(SessionView::fresh(mid, from)));
            assert(after[i] == table[i]);
            lemma_index_of(after, id, i);
        }
    }
}

/// The table after a run of messages, each with the address it came from.
pub open spec fn run<A>(table: Seq<SessionView<A>>, events: Seq<(MessageView, A)>) -> Seq<
    SessionView<A>,
>
    decreases events.len(),
{
    if events.len() == 0 {
        table
    } else {
        step(run(table, events.drop_last()), events.last().0, events.last().1).table
    }
}

/// Whether the table holds the session `id` at the start of a run and after
/// each of its messages.
pub open spec fn held_throughout<A>(
    table: Seq<SessionView<A>>,
    events: Seq<(MessageView, A)>,
    id: u32,
) -> bool {
    forall|k: int| 0 <= k <= events.len() ==> holds(#[trigger] run(table, events.take(k)), id)
}

/// A run of messages keeps the table well formed.
pub proof fn lemma_run_wf<A>(table: Seq<SessionView<A>>, events: Seq<(MessageView, A)>)
    requires
        table_wf(table),
    ensures
        table_wf(run(table, events)),
    decreases events.len(),
{
    if events.len() > 0 {
        lemma_run_wf(table, events.drop_last());
        lemma_step_wf(run(table, events.drop_last()), events.last().0, events.last().1);
    }
}

/// Monotonicity: over any run of messages during which a session exists,
/// the number of bytes it has received and the number of bytes its peer has
/// confirmed never go down.
pub proof fn lemma_run_monotone<A>(
    table: Seq<SessionView<A>>,
    events: Seq<(MessageView, A)>,
    id: u32,
)
    requires
        table_wf(table),
        held_throughout(table, events, id),
    ensures
        ({
            let after = run(table, events);
            let before = table[index_of(table, id)];
            let session = after[index_of(after, id)];
            holds(table, id) && holds(after, id) && before.rx_pos <= session.rx_pos
                && before.tx_acked <= session.tx_acked
        }),
    decreases events.len(),
{
    assert(events.take(0) == Seq::<(MessageView, A)>::empty());
    assert(run(table, events.take(0)) == table);
    assert(events.take(events.len() as int) == events);
    assert(holds(run(table, events.take(0)), id));
    assert(holds(run(table, events.take(events.len() as int)), id));
    if events.len() > 0 {
        let head = events.drop_last();
        assert forall|k: int| 0 <= k <= head.len() implies holds(
            #[trigger] run(table, head.take(k)),
            id,
        ) by {
            assert(head.take(k) == events.take(k));
        }
        lemma_run_monotone(table, head, id);
        lemma_run_wf(table, head);
        lemma_step_monotone(run(table, head), events.last().0, events.last().1, id);
    }
}

/// Duplicate suppression: when the same `data` arrives a second time, the
/// table stays as the first arrival left it, so the payload is taken in at
/// most once. A payload that is not empty gets, the second time, just the
/// acknowledgment of the bytes received, which is also the first thing that
/// the first arrival got.
pub proof fn lemma_duplicate_data<A>(
    table: Seq<SessionView<A>>,
    id: u32,
    pos: usize,
    payload: Seq<u8>,
    from: A,
)
    requires
        table_wf(table),
        holds(table, id),
    ensures
        ({
            let once = step_data(table, id, pos, payload, from);
            let twice = step_data(once.table, id, pos, payload, from);
            let i = index_of(table, id);
            &&& twice.table == once.table
            &&& once.out[0] == ack_to(from, id, once.table[i].rx_pos)
            &&& payload.len() > 0 ==> twice.out == seq![ack_to(from, id, once.table[i].rx_pos)]
        }),
{
    let once = step_data(table, id, pos, payload, from);
    let i = index_of(table, id);
    assert(table[i].id == id);
    lemma_step_wf(table, MessageView::Data { id, pos, payload }, from);
    lemma_index_of(once.table, id, i);
    let s = once.table[i];
    assert(s.heard_from(from) == s);
    assert(once.table.update(i, s) == once.table);
    if s.accepts(pos, payload) {
        // Only an empty payload can be in position twice.
        assert(payload.len() == 0);
        let heard = table[i].heard_from(from);
        assert(heard.rx_accumulator + payload == heard.rx_accumulator);
        assert(heard.accepts(pos, payload));
        lemma_complete_len(s.rx_accumulator + payload);
        lemma_reversed_lines_len(s.rx_accumulator + payload);
        assert(s.rx_accumulator + payload == s.rx_accumulator);
        lemma_complete_len(s.rx_accumulator);
        assert(complete_len(s.rx_accumulator) == 0) by {
            if complete_len(s.rx_accumulator) > 0 {
                assert(s.rx_accumulator[complete_len(s.rx_accumulator) - 1]
                    == NEWLINE);
            }
        }
        assert(s.rx_accumulator.skip(0) == s.rx_accumulator);
        assert(s.tx_buffer + reversed_lines(s.rx_accumulator)
            == s.tx_buffer);
        assert(s.received(payload) == s);
    }
}

/// An acknowledgment of more bytes than were ever sent ends the session:
/// the session leaves the table, all others stay, the answer is a `close`,
/// and `data` for the session that comes afterwards is ignored.
pub proof fn lemma_ack_overrun_closes<A>(table: Seq<SessionView<A>>, id: u32, len: usize, from: A)
    requires
        table_wf(table),
        holds(table, id),
        table[index_of(table, id)].ack_overruns(len),
    ensures
        ({
            let after = step_ack(table, id, len, from);
            &&& after.table == table.remove(index_of(table, id))
            &&& !holds(after.table, id)
            &&& after.out == seq![close_to(from, id)]
            &&& forall|pos: usize, payload: Seq<u8>, again: A| #[trigger]
                step_data(after.table, id, pos, payload, again) == Transition::<A> {
                    table: after.table,
                    out: Seq::<OutboundView<A>>::empty(),
                }
        }),
{
    let i = index_of(table, id);
    let after = step_ack(table, id, len, from);
    assert(table[i].id == id);
    assert(table[i].heard_from(from).ack_overruns(len));
    assert(!table[i].heard_from(from).ack_is_stale(len));
    assert(after.table == table.remove(i));
    if holds(after.table, id) {
        let j = index_of(after.table, id);
        assert(after.table[j].id == id);
        if j < i {
            assert(after.table[j] == table[j]);
        } else {
            assert(after.table[j] == table[j + 1]);
        }
    }
}

/// Retransmission: a tick sends, for every session of the table, the `data`
/// messages that carry all its unconfirmed output, to the address it was
/// last heard from. They stand together in what the tick sends, after those
/// of the sessions before it; their payloads, joined, are the unconfirmed
/// output byte for byte; and a session without unconfirmed output gets
/// none.
pub proof fn lemma_sweep_resends<A>(table: Seq<SessionView<A>>, i: int)
    requires
        table_wf(table),
        0 <= i < table.len(),
    ensures
        ({
            let from = sweep(table.take(i)).len() as int;
            let to = sweep(table.take(i + 1)).len() as int;
            &&& from <= to <= sweep(table).len()
            &&& sweep(table).subrange(from, to) == addressed(table[i].peer, table[i].unconfirmed())
            &&& joined_payloads(table[i].unconfirmed()) == table[i].tx_buffer
            &&& table[i].tx_buffer.len() == 0 <==> from == to
        }),
    decreases table.len(),
{
    let last = table.len() - 1;
    let head = table.drop_last();
    lemma_segments_tile(table[i].id, table[i].tx_acked, table[i].tx_buffer);
    assert(table[i].wf());
    assert(table.take(table.len() as int) == table);
    if i == last {
        assert(table.take(i) == head);
    } else {
        assert(table_wf(head));
        lemma_sweep_resends(head, i);
        assert(head.take(i) == table.take(i));
        assert(head.take(i + 1) == table.take(i + 1));
    }
}

/// Between acknowledgments nothing leaves the output: after an `open` or
/// `data`, for whatever session, every session that is still in the table
/// has the same confirmed count, and its earlier output is the beginning of
/// its output now. So what the ticks send again only grows until an
/// acknowledgment confirms it.
pub proof fn lemma_output_kept<A>(
    table: Seq<SessionView<A>>,
    message: MessageView,
    from: A,
    id: u32,
)
    requires
        table_wf(table),
        holds(table, id),
        message is Open || message is Data,
    ensures
        ({
            let after = step(table, message, from).table;
            let before = table[index_of(table, id)];
            let session = after[index_of(after, id)];
            &&& holds(after, id)
            &&& session.tx_acked == before.tx_acked
            &&& before.tx_buffer.len() <= session.tx_buffer.len()
            &&& session.tx_buffer.take(before.tx_buffer.len() as int) == before.tx_buffer
        }),
{
    let after = step(table, message, from).table;
    let i = index_of(table, id);
    assert(table[i].id == id);
    lemma_step_wf(table, message, from);
    assert(after.len() >= table.len());
    assert(after[i].id == id);
    lemma_index_of(after, id, i);
    assert(after[i].tx_buffer.take(table[i].tx_buffer.len() as int) == table[i].tx_buffer);
}

/// The session a message is for.
pub open spec fn session_of(message: MessageView) -> u32 {
    match message {
        MessageView::Open { id } => id,
        MessageView::Data { id, .. } => id,
        MessageView::Ack { id, .. } => id,
        MessageView::Close { id } => id,
    }
}

/// The life of a session: only an `open` for it brings a session into the
/// table, and only a `close` for it, or an acknowledgment for it of bytes
/// that were never sent, takes it out.
pub proof fn lemma_lifecycle<A>(table: Seq<SessionView<A>>, message: MessageView, from: A, id: u32)
    requires
        table_wf(table),
    ensures
        !holds(table, id) && holds(step(table, message, from).table, id) ==> message
            == (MessageView::Open { id }),
        holds(table, id) && !holds(step(table, message, from).table, id) ==> message
            == (MessageView::Close { id }) || (message matches MessageView::Ack { id: i, len }
            && i == id && table[index_of(table, id)].ack_overruns(len)),
{
    let after = step(table, message, from).table;
    let mid = session_of(message);
    if holds(table, mid) {
        let k = index_of(table, mid);
        assert(table[k].id == mid);
        if after.len() == table.len() {
            // The session of the message was updated in place.
            assert forall|j: int| 0 <= j < table.len() implies #[trigger] after[j].id
                == table[j].id by {}
            if holds(table, id) {
                let i = index_of(table, id);
                assert(after[i].id == id);
            }
            if holds(after, id) {
                let i = index_of(after, id);
                assert(table[i].id == id);
            }
        } else {
            assert(after == table.remove(k));
            if holds(after, id) {
                let j = index_of(after, id);
                if j < k {
                    assert(table[j].id == id);
                } else {
                    assert(table[j + 1].id == id);
                }
            }
            if holds(table, id) && id != mid {
                let i = index_of(table, id);
                assert(table[i].id == id);
                if i < k {
                    assert(after[i].id == id);
                } else {
                    assert(after[i - 1].id == id);
                }
            }
        }
    } else {
        if after.len() == table.len() {
            assert(after == table);
        } else {
            assert(after == table.push(SessionView::fresh(mid, from)));
            if holds(table, id) {
                let i = index_of(table, id);
                assert(after[i].id == id);
            }
            if holds(after, id) && id != mid {
                let j = index_of(after, id);
                assert(table[j].id == id);
            }
        }
    }
}

} // verus!
