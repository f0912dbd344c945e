//! The four control messages and their wire form.
//!
//! | message | fields            | meaning                                      |
//! |---------|-------------------|----------------------------------------------|
//! | `open`  | id                | start a session, or affirm it                |
//! | `data`  | id, pos, payload  | payload whose first byte is at offset `pos`  |
//! | `ack`   | id, len           | the sender holds the bytes `[0, len)`        |
//! | `close` | id                | end the session                              |
//!
//! On the wire a message is a frame: `/data/7/0/abc/`.
use vstd::prelude::*;
use crate::lrcp::escape::{escape_into, escaped, lemma_escaped_len, needs_escape, SLASH};
use crate::lrcp::frame::{
    field_views, frame_fields, framed, framed_fields, lemma_frame_round_trip, split_frame,
};
use crate::number::{
    decimal, is_digit, lemma_decimal_digits, lemma_decimal_len_bounds, lemma_number_of_decimal,
    number_upto, parse_number, write_decimal,
};

verus! {

/// A control message.
#[derive(Debug, PartialEq, Eq)]
pub enum Message {
    /// Start the session `id`, or affirm that it is open.
    Open { id: u32 },
    /// `payload` is the part of the sender's stream that starts at `pos`.
    Data { id: u32, pos: usize, payload: Vec<u8> },
    /// The sender has received the first `len` bytes of the stream.
    Ack { id: u32, len: usize },
    /// End the session `id`.
    Close { id: u32 },
}

/// A control message as a mathematical value.
pub enum MessageView {
    Open { id: u32 },
    Data { id: u32, pos: usize, payload: Seq<u8> },
    Ack { id: u32, len: usize },
    Close { id: u32 },
}

impl View for Message {
    type V = MessageView;

    open spec fn view(&self) -> MessageView {
        match *self {
            Message::Open { id } => MessageView::Open { id },
            Message::Data { id, pos, payload } => MessageView::Data { id, pos, payload: payload@ },
            Message::Ack { id, len } => MessageView::Ack { id, len },
            Message::Close { id } => MessageView::Close { id },
        }
    }
}

/// The messages of a list as mathematical values.
pub open spec fn message_views(messages: Seq<Message>) -> Seq<MessageView> {
    Seq::new(messages.len(), |i: int| messages[i]@)
}

/// The word `open`.
pub open spec fn word_open() -> Seq<u8> {
    seq![0x6fu8, 0x70u8, 0x65u8, 0x6eu8]
}

/// The word `data`.
pub open spec fn word_data() -> Seq<u8> {
    seq![0x64u8, 0x61u8, 0x74u8, 0x61u8]
}

/// The word `ack`.
pub open spec fn word_ack() -> Seq<u8> {
    seq![0x61u8, 0x63u8, 0x6bu8]
}

/// The word `close`.
pub open spec fn word_close() -> Seq<u8> {
    seq![0x63u8, 0x6cu8, 0x6fu8, 0x73u8, 0x65u8]
}

/// The fields that a message is written with.
pub open spec fn fields_of(m: MessageView) -> Seq<Seq<u8>> {
    match m {
        MessageView::Open { id } => seq![word_open(), decimal(id as nat)],
        MessageView::Data { id, pos, payload } => seq![
            word_data(),
            decimal(id as nat),
            decimal(pos as nat),
            payload,
        ],
        MessageView::Ack { id, len } => seq![word_ack(), decimal(id as nat), decimal(len as nat)],
        MessageView::Close { id } => seq![word_close(), decimal(id as nat)],
    }
}

/// The wire text of a message.
pub open spec fn encoded(m: MessageView) -> Seq<u8> {
    framed(fields_of(m))
}

/// A session identifier read from a field.
pub open spec fn id_of(field: Seq<u8>) -> Option<u32> {
    match number_upto(field, u32::MAX as nat) {
        Some(n) => Some(n as u32),
        None => None,
    }
}

/// A stream offset read from a field.
pub open spec fn offset_of(field: Seq<u8>) -> Option<usize> {
    match number_upto(field, usize::MAX as nat) {
        Some(n) => Some(n as usize),
        None => None,
    }
}

/// The message that a list of fields stands for: the first field names the
/// kind, the number of fields must be the one that the kind takes, and the
/// numeric fields must be numbers in range.
pub open spec fn interpreted(f: Seq<Seq<u8>>) -> Option<MessageView> {
    if f.len() == 2 && f[0] == word_open() {
        match id_of(f[1]) {
            Some(id) => Some(MessageView::Open { id }),
            None => None,
        }
    } else if f.len() == 4 && f[0] == word_data() {
        match (id_of(f[1]), offset_of(f[2])) {
            (Some(id), Some(pos)) => Some(MessageView::Data { id, pos, payload: f[3] }),
            _ => None,
        }
    } else if f.len() == 3 && f[0] == word_ack() {
        match (id_of(f[1]), offset_of(f[2])) {
            (Some(id), Some(len)) => Some(MessageView::Ack { id, len }),
            _ => None,
        }
    } else if f.len() == 2 && f[0] == word_close() {
        match id_of(f[1]) {
            Some(id) => Some(MessageView::Close { id }),
            None => None,
        }
    } else {
        None
    }
}

/// The message that a datagram carries, if it carries one.
pub open spec fn decoded(datagram: Seq<u8>) -> Option<MessageView> {
    match frame_fields(datagram) {
        Some(f) => interpreted(f),
        None => None,
    }
}

/// The longest datagram that is read. A longer one is dropped as it is.
pub const MAX_DATAGRAM: usize = 1024;

/// The message that a datagram is taken for: the one it carries, unless it
/// is too long.
pub open spec fn accepted(datagram: Seq<u8>) -> Option<MessageView> {
    if datagram.len() > MAX_DATAGRAM {
        None
    } else {
        decoded(datagram)
    }
}

/// The fields that a message is written with stand for that message.
pub proof fn lemma_interpreted_fields_of(m: MessageView)
    ensures
        interpreted(fields_of(m)) == Some(m),
{
    match m {
        MessageView::Open { id } => {
            lemma_number_of_decimal(id as nat);
        },
        MessageView::Data { id, pos, payload } => {
            lemma_number_of_decimal(id as nat);
            lemma_number_of_decimal(pos as nat);
        },
        MessageView::Ack { id, len } => {
            lemma_number_of_decimal(id as nat);
            lemma_number_of_decimal(len as nat);
        },
        MessageView::Close { id } => {
            lemma_number_of_decimal(id as nat);
        },
    }
}

/// Decoding the wire text of a message gives back the message, whatever
/// bytes its payload holds.
pub proof fn lemma_decode_encode(m: MessageView)
    ensures
        decoded(encoded(m)) == Some(m),
{
    lemma_frame_round_trip(fields_of(m));
    lemma_interpreted_fields_of(m);
}

/// A sequence without slashes and backslashes is its own escaped form.
proof fn lemma_escaped_plain(s: Seq<u8>)
    requires
        forall|i: int| 0 <= i < s.len() ==> !needs_escape(#[trigger] s[i]),
    ensures
        escaped(s) == s,
    decreases s.len(),
{
    if s.len() > 0 {
        lemma_escaped_plain(s.skip(1));
        assert(!needs_escape(s[0]));
        assert(seq![s[0]] + s.skip(1) == s);
    }
}

/// Writing one more field appends its escaped form and a slash.
proof fn lemma_framed_fields_push(fields: Seq<Seq<u8>>, field: Seq<u8>)
    ensures
        framed_fields(fields.push(field)) == framed_fields(fields) + escaped(field).push(SLASH),
    decreases fields.len(),
{
    let all = fields.push(field);
    if fields.len() == 0 {
        assert(all.skip(1) == Seq::<Seq<u8>>::empty());
        assert(framed_fields(all) == escaped(field).push(SLASH) + framed_fields(all.skip(1)));
    } else {
        lemma_framed_fields_push(fields.skip(1), field);
        assert(all.skip(1) == fields.skip(1).push(field));
        assert(all[0] == fields[0]);
    }
}

/// The size of a `data` message on the wire is bounded by the size of its
/// payload: at most twice the payload and 39 bytes more.
pub proof fn lemma_data_wire_size(id: u32, pos: usize, payload: Seq<u8>)
    ensures
        encoded(MessageView::Data { id, pos, payload }).len() <= 2 * payload.len() + 39,
{
    let f = fields_of(MessageView::Data { id, pos, payload });
    assert forall|k: int| 0 <= k < f.len() implies #[trigger] f.take(k + 1) == f.take(k).push(
        f[k],
    ) by {}
    assert(f.take(4) == f);
    assert(framed_fields(f.take(0)).len() == 0);
    lemma_framed_fields_push(f.take(0), f[0]);
    lemma_framed_fields_push(f.take(1), f[1]);
    lemma_framed_fields_push(f.take(2), f[2]);
    lemma_framed_fields_push(f.take(3), f[3]);
    lemma_escaped_len(f[0]);
    lemma_escaped_len(f[1]);
    lemma_escaped_len(f[2]);
    lemma_escaped_len(f[3]);
    lemma_decimal_digits(id as nat);
    lemma_decimal_digits(pos as nat);
    assert forall|i: int| 0 <= i < f[1].len() implies !needs_escape(#[trigger] f[1][i]) by {
        assert(is_digit(f[1][i]));
    }
    assert forall|i: int| 0 <= i < f[2].len() implies !needs_escape(#[trigger] f[2][i]) by {
        assert(is_digit(f[2][i]));
    }
    lemma_escaped_plain(f[0]);
    lemma_escaped_plain(f[1]);
    lemma_escaped_plain(f[2]);
    lemma_decimal_len_bounds(id as nat);
    lemma_decimal_len_bounds(pos as nat);
}

/// Whether `field` is the word `open`.
fn is_open(field: &[u8]) -> (r: bool)
    ensures
        r == (field@ =~= word_open()),
{
    field.len() == 4 && field[0] == 0x6f && field[1] == 0x70 && field[2] == 0x65 && field[3]
        == 0x6e
}

/// Whether `field` is the word `data`.
fn is_data(field: &[u8]) -> (r: bool)
    ensures
        r == (field@ =~= word_data()),
{
    field.len() == 4 && field[0] == 0x64 && field[1] == 0x61 && field[2] == 0x74 && field[3]
        == 0x61
}

/// Whether `field` is the word `ack`.
fn is_ack(field: &[u8]) -> (r: bool)
    ensures
        r == (field@ =~= word_ack()),
{
    field.len() == 3 && field[0] == 0x61 && field[1] == 0x63 && field[2] == 0x6b
}

/// Whether `field` is the word `close`.
fn is_close(field: &[u8]) -> (r: bool)
    ensures
        r == (field@ =~= word_close()),
{
    field.len() == 5 && field[0] == 0x63 && field[1] == 0x6c && field[2] == 0x6f && field[3]
        == 0x73 && field[4] == 0x65
}

/// Reads a session identifier.
fn parse_id(field: &[u8]) -> (r: Option<u32>)
    ensures
        r == id_of(field@),
{
    match parse_number(field, u32::MAX as usize) {
        Some(n) => Some(n as u32),
        None => None,
    }
}

/// Reads a stream offset.
fn parse_offset(field: &[u8]) -> (r: Option<usize>)
    ensures
        r == offset_of(field@),
{
    parse_number(field, usize::MAX)
}

/// The message that a list of fields stands for.
pub fn interpret(fields: Vec<Vec<u8>>) -> (r: Option<Message>)
    ensures
        match r {
            Some(m) => interpreted(field_views(fields@)) == Some(m@),
            None => interpreted(field_views(fields@)) is None,
        },
{
    let ghost f = field_views(fields@);
    let n = fields.len();
    if n < 2 {
        return None;
    }
    proof {
        assert(f[0] == fields[0]@);
        assert(f[1] == fields[1]@);
    }
    if n == 2 && is_open(fields[0].as_slice()) {
        match parse_id(fields[1].as_slice()) {
            Some(id) => Some(Message::Open { id }),
            None => None,
        }
    } else if n == 2 && is_close(fields[0].as_slice()) {
        match parse_id(fields[1].as_slice()) {
            Some(id) => Some(Message::Close { id }),
            None => None,
        }
    } else if n == 3 && is_ack(fields[0].as_slice()) {
        proof {
            assert(f[2] == fields[2]@);
        }
        match (parse_id(fields[1].as_slice()), parse_offset(fields[2].as_slice())) {
            (Some(id), Some(len)) => Some(Message::Ack { id, len }),
            _ => None,
        }
    } else if n == 4 && is_data(fields[0].as_slice()) {
        proof {
            assert(f[2] == fields[2]@);
            assert(f[3] == fields[3]@);
        }
        match (parse_id(fields[1].as_slice()), parse_offset(fields[2].as_slice())) {
            (Some(id), Some(pos)) => {
                let mut fields = fields;
                match fields.pop() {
                    Some(payload) => Some(Message::Data { id, pos, payload }),
                    None => None,
                }
            },
            _ => None,
        }
    } else {
        None
    }
}

/// Decodes a datagram. `None` when it is not a frame, when its first field
/// names no kind of message, when the number of fields is not the one that
/// the kind takes, or when a numeric field is no number in range.
pub fn decode(datagram: &[u8]) -> (r: Option<Message>)
    ensures
        match r {
            Some(m) => decoded(datagram@) == Some(m@),
            None => decoded(datagram@) is None,
        },
{
    match split_frame(datagram) {
        Some(fields) => interpret(fields),
        None => None,
    }
}

/// Reads a datagram as it comes from the medium. `None` when it is longer
/// than `MAX_DATAGRAM` or carries no message; such a datagram is dropped
/// without an answer.
pub fn accept(datagram: &[u8]) -> (r: Option<Message>)
    ensures
        match r {
            Some(m) => accepted(datagram@) == Some(m@),
            None => accepted(datagram@) is None,
        },
{
    if datagram.len() > MAX_DATAGRAM {
        None
    } else {
        decode(datagram)
    }
}

/// Appends a field that holds the word `word`, which needs no escaping, and
/// the slash that closes it.
fn write_word(word: &[u8], out: &mut Vec<u8>)
    requires
        forall|i: int| 0 <= i < word@.len() ==> !needs_escape(#[trigger] word@[i]),
    ensures
        final(out)@ == old(out)@ + escaped(word@).push(SLASH),
{
    proof {
        lemma_escaped_plain(word@);
    }
    out.extend_from_slice(word);
    out.push(SLASH);
}

/// Appends a numeric field and the slash that closes it.
fn write_number(n: usize, out: &mut Vec<u8>)
    ensures
        final(out)@ == old(out)@ + escaped(decimal(n as nat)).push(SLASH),
{
    proof {
        lemma_decimal_digits(n as nat);
        let d = decimal(n as nat);
        assert forall|i: int| 0 <= i < d.len() implies !needs_escape(#[trigger] d[i]) by {
            assert(is_digit(d[i]));
        }
        lemma_escaped_plain(d);
    }
    write_decimal(n, out);
    out.push(SLASH);
}

/// Encodes a message as the datagram that carries it.
pub fn encode(m: &Message) -> (out: Vec<u8>)
    ensures
        out@ == encoded(m@),
{
    let mut out: Vec<u8> = Vec::new();
    out.push(SLASH);
    let ghost f = fields_of(m@);
    proof {
        assert(out@ == seq![SLASH] + framed_fields(f.take(0)));
        assert forall|k: int| 0 <= k < f.len() implies #[trigger] f.take(k + 1) == f.take(k).push(
            f[k],
        ) by {}
        assert(f.take(f.len() as int) == f);
    }
    match m {
        Message::Open { id } => {
            let word: [u8; 4] = [0x6f, 0x70, 0x65, 0x6e];
            assert(word@ == word_open());
            write_word(word.as_slice(), &mut out);
            proof {
                lemma_framed_fields_push(f.take(0), f[0]);
            }
            write_number(*id as usize, &mut out);
            proof {
                lemma_framed_fields_push(f.take(1), f[1]);
            }
        },
        Message::Data { id, pos, payload } => {
            let word: [u8; 4] = [0x64, 0x61, 0x74, 0x61];
            assert(word@ == word_data());
            write_word(word.as_slice(), &mut out);
            proof {
                lemma_framed_fields_push(f.take(0), f[0]);
            }
            write_number(*id as usize, &mut out);
            proof {
                lemma_framed_fields_push(f.take(1), f[1]);
            }
            write_number(*pos, &mut out);
            proof {
                lemma_framed_fields_push(f.take(2), f[2]);
            }
            escape_into(payload.as_slice(), &mut out);
            out.push(SLASH);
            proof {
                lemma_framed_fields_push(f.take(3), f[3]);
            }
        },
        Message::Ack { id, len } => {
            let word: [u8; 3] = [0x61, 0x63, 0x6b];
            assert(word@ == word_ack());
            write_word(word.as_slice(), &mut out);
            proof {
                lemma_framed_fields_push(f.take(0), f[0]);
            }
            write_number(*id as usize, &mut out);
            proof {
                lemma_framed_fields_push(f.take(1), f[1]);
            }
            write_number(*len, &mut out);
            proof {
                lemma_framed_fields_push(f.take(2), f[2]);
            }
        },
        Message::Close { id } => {
            let word: [u8; 5] = [0x63, 0x6c, 0x6f, 0x73, 0x65];
            assert(word@ == word_close());
            write_word(word.as_slice(), &mut out);
            proof {
                lemma_framed_fields_push(f.take(0), f[0]);
            }
            write_number(*id as usize, &mut out);
            proof {
                lemma_framed_fields_push(f.take(1), f[1]);
            }
        },
    }
    out
}

} // verus!
