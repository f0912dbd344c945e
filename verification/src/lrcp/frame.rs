//! Framing: a datagram is a slash, then every field in escaped form, each
//! closed by a slash.
//!
//! Reading goes through the text once. A backslash must be followed by a
//! slash or a backslash and stands with it for that byte; a slash on its own
//! closes the field under way; the text must end right after such a slash.
//! Everything else is not a frame.
use vstd::prelude::*;
use crate::lrcp::escape::{escaped, lemma_escaped_push, needs_escape, BACKSLASH, SLASH};

verus! {

/// The content of each field as a byte sequence.
pub open spec fn field_views(fields: Seq<Vec<u8>>) -> Seq<Seq<u8>> {
    Seq::new(fields.len(), |i: int| fields[i]@)
}

/// What follows the leading slash of a frame: each field in escaped form and
/// the slash that closes it.
pub open spec fn framed_fields(fields: Seq<Seq<u8>>) -> Seq<u8>
    decreases fields.len(),
{
    if fields.len() == 0 {
        Seq::empty()
    } else {
        escaped(fields[0]).push(SLASH) + framed_fields(fields.skip(1))
    }
}

/// The wire text of a frame with the given fields.
pub open spec fn framed(fields: Seq<Seq<u8>>) -> Seq<u8> {
    seq![SLASH] + framed_fields(fields)
}

/// `first` put in front of the fields in `rest`, where there are any.
pub open spec fn with_first(first: Seq<u8>, rest: Option<Seq<Seq<u8>>>) -> Option<Seq<Seq<u8>>> {
    match rest {
        Some(r) => Some(seq![first] + r),
        None => None,
    }
}

/// The fields read from `s`, the text after some closing slash or after the
/// part `cur` of a field that has been read already.
pub open spec fn fields_from(s: Seq<u8>, cur: Seq<u8>) -> Option<Seq<Seq<u8>>>
    decreases s.len(),
{
    if s.len() == 0 {
        if cur.len() == 0 {
            Some(Seq::empty())
        } else {
            None
        }
    } else if s[0] == SLASH {
        with_first(cur, fields_from(s.skip(1), Seq::empty()))
    } else if s[0] == BACKSLASH {
        if s.len() >= 2 && needs_escape(s[1]) {
            fields_from(s.skip(2), cur.push(s[1]))
        } else {
            None
        }
    } else {
        fields_from(s.skip(1), cur.push(s[0]))
    }
}

/// The fields of a datagram, if it is a frame.
pub open spec fn frame_fields(datagram: Seq<u8>) -> Option<Seq<Seq<u8>>> {
    if datagram.len() > 0 && datagram[0] == SLASH {
        fields_from(datagram.skip(1), Seq::empty())
    } else {
        None
    }
}

/// Reading on after the part `cur` of a field gives the fields whose text,
/// with `cur` escaped in front, is what was read.
proof fn lemma_fields_from_sound(s: Seq<u8>, cur: Seq<u8>)
    ensures
        fields_from(s, cur) matches Some(fields) ==> escaped(cur) + s == framed_fields(fields),
    decreases s.len(),
{
    if s.len() == 0 {
        if cur.len() == 0 {
            assert(escaped(cur) + s =~= Seq::<u8>::empty());
        }
    } else if s[0] == SLASH {
        let rest = s.skip(1);
        lemma_fields_from_sound(rest, Seq::empty());
        if let Some(r) = fields_from(rest, Seq::empty()) {
            let fields = seq![cur] + r;
            assert(fields.skip(1) == r);
            assert(fields[0] == cur);
            assert(framed_fields(r) == rest) by {
                assert(escaped(Seq::<u8>::empty()) + rest == rest);
            }
            assert(escaped(cur).push(SLASH) + rest == escaped(cur) + s);
        }
    } else if s[0] == BACKSLASH {
        if s.len() >= 2 && needs_escape(s[1]) {
            lemma_fields_from_sound(s.skip(2), cur.push(s[1]));
            lemma_escaped_push(cur, s[1]);
            assert(escaped(cur) + seq![BACKSLASH, s[1]] + s.skip(2) == escaped(cur) + s);
        }
    } else {
        lemma_fields_from_sound(s.skip(1), cur.push(s[0]));
        lemma_escaped_push(cur, s[0]);
        assert(escaped(cur) + seq![s[0]] + s.skip(1) == escaped(cur) + s);
    }
}

/// Reading the escaped form of `field`, a closing slash and then `rest`,
/// after the part `cur` of a field, completes the field `cur + field` and
/// goes on with `rest`.
proof fn lemma_fields_from_field(cur: Seq<u8>, field: Seq<u8>, rest: Seq<u8>)
    ensures
        fields_from(escaped(field).push(SLASH) + rest, cur) == with_first(
            cur + field,
            fields_from(rest, Seq::empty()),
        ),
    decreases field.len(),
{
    let s = escaped(field).push(SLASH) + rest;
    if field.len() == 0 {
        assert(s[0] == SLASH);
        assert(s.skip(1) == rest);
        assert(cur + field == cur);
    } else {
        let b = field[0];
        let tail = field.skip(1);
        let t = escaped(tail).push(SLASH) + rest;
        lemma_fields_from_field(cur.push(b), tail, rest);
        assert(cur.push(b) + tail == cur + field);
        if needs_escape(b) {
            assert(s == seq![BACKSLASH, b] + t);
            assert(s[0] == BACKSLASH && s[1] == b);
            assert(s.skip(2) == t);
        } else {
            assert(s == seq![b] + t);
            assert(s[0] == b);
            assert(s.skip(1) == t);
        }
    }
}

/// Reading the text of some fields gives those fields.
proof fn lemma_fields_from_framed(fields: Seq<Seq<u8>>)
    ensures
        fields_from(framed_fields(fields), Seq::empty()) == Some(fields),
    decreases fields.len(),
{
    if fields.len() > 0 {
        lemma_fields_from_framed(fields.skip(1));
        lemma_fields_from_field(Seq::empty(), fields[0], framed_fields(fields.skip(1)));
        assert(Seq::<u8>::empty() + fields[0] == fields[0]);
        assert(seq![fields[0]] + fields.skip(1) == fields);
    }
}

/// Reading a frame gives back the fields it was written from, whatever
/// bytes they hold.
pub proof fn lemma_frame_round_trip(fields: Seq<Seq<u8>>)
    ensures
        frame_fields(framed(fields)) == Some(fields),
{
    lemma_fields_from_framed(fields);
    assert(framed(fields).skip(1) == framed_fields(fields));
}

/// A datagram has the fields `fields` exactly when it is the frame written
/// from them: nothing but a frame is read, and a frame is read in one way.
pub proof fn lemma_frame_fields_iff(datagram: Seq<u8>, fields: Seq<Seq<u8>>)
    ensures
        frame_fields(datagram) == Some(fields) <==> framed(fields) == datagram,
{
    if framed(fields) == datagram {
        lemma_frame_round_trip(fields);
    }
    if frame_fields(datagram) == Some(fields) {
        let s = datagram.skip(1);
        lemma_fields_from_sound(s, Seq::empty());
        assert(Seq::<u8>::empty() + s == s);
        assert(seq![SLASH] + s == datagram);
    }
}

/// Splits a datagram into its fields, unescaped. `None` when the datagram
/// is not a frame.
pub fn split_frame(datagram: &[u8]) -> (r: Option<Vec<Vec<u8>>>)
    ensures
        match r {
            Some(fields) => frame_fields(datagram@) == Some(field_views(fields@)),
            None => frame_fields(datagram@) is None,
        },
{
    let n = datagram.len();
    if n == 0 || datagram[0] != SLASH {
        return None;
    }
    let mut fields: Vec<Vec<u8>> = Vec::new();
    let mut cur: Vec<u8> = Vec::new();
    let mut i: usize = 1;
    proof {
        assert(field_views(fields@) == Seq::<Seq<u8>>::empty());
    }
    while i < n
        invariant
            1 <= i <= n,
            n == datagram.len(),
            frame_fields(datagram@) == match fields_from(datagram@.skip(i as int), cur@) {
                Some(r) => Some(field_views(fields@) + r),
                None => None,
            },
        decreases n - i,
    {
        let b: u8 = datagram[i];
        let ghost s = datagram@.skip(i as int);
        proof {
            assert(s[0] == b);
            assert(s.skip(1) == datagram@.skip(i + 1));
        }
        if b == SLASH {
            let ghost done = field_views(fields@);
            let ghost closed = cur@;
            fields.push(cur);
            cur = Vec::new();
            i += 1;
            proof {
                assert(field_views(fields@) == done.push(closed));
                assert forall|r: Seq<Seq<u8>>| done + (seq![closed] + r) == #[trigger] (done.push(
                    closed,
                ) + r) by {
                    assert(done + (seq![closed] + r) =~= done.push(closed) + r);
                }
            }
        } else if b == BACKSLASH {
            if i + 1 < n && (datagram[i + 1] == SLASH || datagram[i + 1] == BACKSLASH) {
                proof {
                    assert(s[1] == datagram[i + 1]);
                    assert(s.skip(2) == datagram@.skip(i + 2));
                }
                cur.push(datagram[i + 1]);
                i += 2;
            } else {
                proof {
                    if s.len() >= 2 {
                        assert(s[1] == datagram[i + 1]);
                    }
                }
                return None;
            }
        } else {
            cur.push(b);
            i += 1;
        }
    }
    proof {
        assert(datagram@.skip(n as int).len() == 0);
    }
    if cur.len() == 0 {
        proof {
            assert(field_views(fields@) + Seq::<Seq<u8>>::empty() == field_views(fields@));
        }
        Some(fields)
    } else {
        None
    }
}

} // verus!
