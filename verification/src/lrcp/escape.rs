//! Backslash escaping of field content.
//!
//! Inside a field a literal backslash is written as two backslashes and a
//! literal slash as a backslash followed by a slash, so that a bare slash can
//! only ever be a field separator.
use vstd::prelude::*;

verus! {

/// The field separator, `/`.
pub const SLASH: u8 = 0x2f;

/// The escape character, `\`.
pub const BACKSLASH: u8 = 0x5c;

/// Whether a byte has to be escaped inside a field.
pub open spec fn needs_escape(b: u8) -> bool {
    b == SLASH || b == BACKSLASH
}

/// The escaped form of one byte.
pub open spec fn escaped_byte(b: u8) -> Seq<u8> {
    if needs_escape(b) {
        seq![BACKSLASH, b]
    } else {
        seq![b]
    }
}

/// The escaped form of a byte sequence: every slash and every backslash is
/// preceded by a backslash, all other bytes stand for themselves.
pub open spec fn escaped(s: Seq<u8>) -> Seq<u8>
    decreases s.len(),
{
    if s.len() == 0 {
        Seq::empty()
    } else {
        escaped_byte(s[0]) + escaped(s.skip(1))
    }
}

/// Escaping distributes over concatenation.
pub proof fn lemma_escaped_concat(a: Seq<u8>, b: Seq<u8>)
    ensures
        escaped(a + b) == escaped(a) + escaped(b),
    decreases a.len(),
{
    if a.len() == 0 {
        assert(a + b == b);
    } else {
        lemma_escaped_concat(a.skip(1), b);
        assert((a + b).skip(1) == a.skip(1) + b);
        assert((a + b)[0] == a[0]);
    }
}

/// Escaping one more byte appends that byte's escaped form.
pub proof fn lemma_escaped_push(s: Seq<u8>, b: u8)
    ensures
        escaped(s.push(b)) == escaped(s) + escaped_byte(b),
{
    lemma_escaped_concat(s, seq![b]);
    assert(s.push(b) == s + seq![b]);
    assert(seq![b].skip(1) == Seq::<u8>::empty());
    assert(escaped(seq![b]) == escaped_byte(b) + escaped(Seq::<u8>::empty()));
}

/// Escaping never shortens and at most doubles.
pub proof fn lemma_escaped_len(s: Seq<u8>)
    ensures
        s.len() <= escaped(s).len() <= 2 * s.len(),
    decreases s.len(),
{
    if s.len() > 0 {
        lemma_escaped_len(s.skip(1));
    }
}

/// Appends the escaped form of `raw` to `out`.
pub fn escape_into(raw: &[u8], out: &mut Vec<u8>)
    ensures
        final(out)@ == old(out)@ + escaped(raw@),
{
    let mut i: usize = 0;
    while i < raw.len()
        invariant
            i <= raw.len(),
            out@ == old(out)@ + escaped(raw@.take(i as int)),
        decreases raw.len() - i,
    {
        let b: u8 = raw[i];
        proof {
            lemma_escaped_push(raw@.take(i as int), b);
            assert(raw@.take(i + 1) == raw@.take(i as int).push(b));
        }
        if b == SLASH || b == BACKSLASH {
            out.push(BACKSLASH);
        }
        out.push(b);
        i += 1;
    }
    proof {
        assert(raw@.take(raw.len() as int) == raw@);
    }
}

/// Writes `raw` in escaped form.
pub fn escape(raw: &[u8]) -> (out: Vec<u8>)
    ensures
        out@ == escaped(raw@),
{
    let mut out: Vec<u8> = Vec::new();
    escape_into(raw, &mut out);
    out
}

} // verus!
