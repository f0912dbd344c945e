//! The segmenter: pending output cut into `data` messages of bounded size.
//!
//! The chunks follow one another without gap or overlap, the first at the
//! offset of the first unconfirmed byte. All but the last hold `MAX_CHUNK`
//! bytes. An empty buffer gives no message.
use vstd::prelude::*;
use crate::lrcp::message::{
    encoded, lemma_data_wire_size, message_views, Message, MessageView,
};

verus! {

/// The most payload bytes that one `data` message carries, before escaping.
/// Escaping at most doubles them, so the size of the datagram is bounded
/// too.
pub const MAX_CHUNK: usize = 900;

/// The number of chunks that a buffer of `len` bytes is cut into.
pub open spec fn chunk_count(len: nat) -> nat {
    ((len + MAX_CHUNK - 1) / (MAX_CHUNK as int)) as nat
}

/// Where chunk `k` of a buffer of `len` bytes ends.
pub open spec fn chunk_end(len: nat, k: int) -> int {
    if (k + 1) * MAX_CHUNK <= len {
        (k + 1) * MAX_CHUNK
    } else {
        len as int
    }
}

/// Chunk `k` of `buffer` as a `data` message of session `id`, where the
/// first byte of `buffer` is at `offset` in the stream.
pub open spec fn chunk(id: u32, offset: usize, buffer: Seq<u8>, k: int) -> MessageView {
    MessageView::Data {
        id,
        pos: (offset + k * MAX_CHUNK) as usize,
        payload: buffer.subrange(k * MAX_CHUNK, chunk_end(buffer.len(), k)),
    }
}

/// The `data` messages that carry `buffer`.
pub open spec fn segments(id: u32, offset: usize, buffer: Seq<u8>) -> Seq<MessageView> {
    Seq::new(chunk_count(buffer.len()), |k: int| chunk(id, offset, buffer, k))
}

/// The payloads of a list of `data` messages, joined in order.
pub open spec fn joined_payloads(messages: Seq<MessageView>) -> Seq<u8>
    decreases messages.len(),
{
    if messages.len() == 0 {
        Seq::empty()
    } else {
        joined_payloads(messages.drop_last()) + match messages.last() {
            MessageView::Data { payload, .. } => payload,
            _ => Seq::empty(),
        }
    }
}

/// The payloads of the first `k` chunks, joined, are the buffer up to the
/// end of chunk `k - 1`.
proof fn lemma_joined_prefix(id: u32, offset: usize, buffer: Seq<u8>, k: int)
    requires
        0 <= k <= chunk_count(buffer.len()),
    ensures
        joined_payloads(segments(id, offset, buffer).take(k)) == buffer.take(
            if k == 0 {
                0
            } else {
                chunk_end(buffer.len(), k - 1)
            },
        ),
    decreases k,
{
    let segs = segments(id, offset, buffer);
    if k > 0 {
        lemma_joined_prefix(id, offset, buffer, k - 1);
        assert(segs.take(k).drop_last() == segs.take(k - 1));
        assert(segs.take(k).last() == chunk(id, offset, buffer, k - 1));
        let from = if k == 1 {
            0
        } else {
            chunk_end(buffer.len(), k - 2)
        };
        assert(from == (k - 1) * MAX_CHUNK);
        assert(buffer.take(from) + buffer.subrange(from, chunk_end(buffer.len(), k - 1))
            == buffer.take(chunk_end(buffer.len(), k - 1)));
    }
}

/// The chunks tile the buffer. Every message is a `data` message of the
/// session; the first starts at `offset`, each next one where the one before
/// it ends, and the last ends where the buffer ends; no chunk is empty, none
/// holds more than `MAX_CHUNK` bytes; and the payloads, joined in order, are
/// the buffer.
pub proof fn lemma_segments_tile(id: u32, offset: usize, buffer: Seq<u8>)
    requires
        offset + buffer.len() <= usize::MAX,
    ensures
        ({
            let segs = segments(id, offset, buffer);
            &&& segs.len() == 0 <==> buffer.len() == 0
            &&& forall|k: int|
                0 <= k < segs.len() ==> (#[trigger] segs[k] matches MessageView::Data {
                    id: i,
                    pos,
                    payload,
                } && i == id && 0 < payload.len() <= MAX_CHUNK && pos == offset + k * MAX_CHUNK
                    && (if k + 1 < segs.len() {
                    payload.len() == MAX_CHUNK
                } else {
                    pos + payload.len() == offset + buffer.len()
                }))
            &&& joined_payloads(segs) == buffer
        }),
{
    let segs = segments(id, offset, buffer);
    let n = segs.len() as int;
    lemma_joined_prefix(id, offset, buffer, n);
    assert(segs.take(n) == segs);
    if n > 0 {
        assert(chunk_end(buffer.len(), n - 1) == buffer.len());
    }
    assert(buffer.take(buffer.len() as int) == buffer);
    assert forall|k: int| 0 <= k < segs.len() implies (#[trigger] segs[k] matches MessageView::Data {
        id: i,
        pos,
        payload,
    } && i == id && 0 < payload.len() <= MAX_CHUNK && pos == offset + k * MAX_CHUNK && (if k + 1
        < segs.len() {
        payload.len() == MAX_CHUNK
    } else {
        pos + payload.len() == offset + buffer.len()
    })) by {
        assert(segs[k] == chunk(id, offset, buffer, k));
    }
}

/// No chunk takes more than 1839 bytes on the wire, however many of its
/// bytes have to be escaped.
pub proof fn lemma_segment_wire_size(id: u32, offset: usize, buffer: Seq<u8>, k: int)
    requires
        offset + buffer.len() <= usize::MAX,
        0 <= k < segments(id, offset, buffer).len(),
    ensures
        encoded(segments(id, offset, buffer)[k]).len() <= 2 * MAX_CHUNK + 39,
{
    lemma_segments_tile(id, offset, buffer);
    let message = segments(id, offset, buffer)[k];
    match message {
        MessageView::Data { id, pos, payload } => {
            lemma_data_wire_size(id, pos, payload);
        },
        _ => {},
    }
}

/// Cuts `buffer` into `data` messages of session `id`, where the first byte
/// of `buffer` is at `offset` in the stream.
pub fn segment(id: u32, offset: usize, buffer: &[u8]) -> (out: Vec<Message>)
    requires
        offset + buffer.len() <= usize::MAX,
    ensures
        message_views(out@) == segments(id, offset, buffer@),
{
    let n = buffer.len();
    let mut out: Vec<Message> = Vec::new();
    let mut i: usize = 0;
    while i < n
        invariant
            n == buffer.len(),
            offset + n <= usize::MAX,
            i <= n,
            out.len() <= chunk_count(n as nat),
            i == (if out.len() * MAX_CHUNK <= n {
                out.len() * MAX_CHUNK
            } else {
                n as int
            }),
            out.len() == chunk_count(i as nat),
            forall|k: int| 0 <= k < out.len() ==> (#[trigger] out[k])@ == chunk(id, offset, buffer@, k),
        decreases n - i,
    {
        let end: usize = if n - i > MAX_CHUNK {
            i + MAX_CHUNK
        } else {
            n
        };
        let mut payload: Vec<u8> = Vec::new();
        payload.extend_from_slice(vstd::slice::slice_subrange(buffer, i, end));
        let ghost k = out.len() as int;
        proof {
            assert(end == chunk_end(n as nat, k));
            assert(payload@ == buffer@.subrange(i as int, end as int));
        }
        out.push(Message::Data { id, pos: offset + i, payload });
        i = end;
    }
    proof {
        assert(message_views(out@) =~= segments(id, offset, buffer@));
    }
    out
}

} // verus!
