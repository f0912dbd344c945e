//! Byte text cut at a separator.
use vstd::prelude::*;

verus! {

/// The number of bytes before the first `sep` in `s`; the length of `s`
/// where it holds none.
pub open spec fn first(s: Seq<u8>, sep: u8) -> nat
    decreases s.len(),
{
    if s.len() == 0 || s[0] == sep {
        0
    } else {
        1 + first(s.skip(1), sep)
    }
}

/// The pieces of `s` between its separators, in order. A text with `n`
/// separators has `n + 1` pieces, some of which may be empty.
pub open spec fn pieces(s: Seq<u8>, sep: u8) -> Seq<Seq<u8>>
    decreases s.len(),
{
    let k = first(s, sep) as int;
    if k >= s.len() {
        seq![s]
    } else {
        seq![s.take(k)] + pieces(s.skip(k + 1), sep)
    }
}

/// The content of each piece as a byte sequence.
pub open spec fn piece_views(pieces: Seq<Vec<u8>>) -> Seq<Seq<u8>> {
    Seq::new(pieces.len(), |i: int| pieces[i]@)
}

/// `first` stops at the first separator and nowhere before.
pub proof fn lemma_first(s: Seq<u8>, sep: u8)
    ensures
        first(s, sep) <= s.len(),
        first(s, sep) < s.len() ==> s[first(s, sep) as int] == sep,
        forall|i: int| 0 <= i < first(s, sep) ==> s[i] != sep,
    decreases s.len(),
{
    if s.len() == 0 || s[0] == sep {
    } else {
        let t = s.skip(1);
        lemma_first(t, sep);
        assert forall|i: int| 0 <= i < first(s, sep) implies s[i] != sep by {
            if i > 0 {
                assert(s[i] == t[i - 1]);
            }
        }
        if first(s, sep) < s.len() {
            assert(s[first(s, sep) as int] == t[first(t, sep) as int]);
        }
    }
}

/// Where the first separator of `s` is at `k`, or `k` is the length of a
/// text without one, `first` gives `k`.
pub proof fn lemma_first_at(s: Seq<u8>, sep: u8, k: int)
    requires
        0 <= k <= s.len(),
        forall|i: int| 0 <= i < k ==> s[i] != sep,
        k < s.len() ==> s[k] == sep,
    ensures
        first(s, sep) == k,
{
    lemma_first(s, sep);
    let n = first(s, sep) as int;
    if n < k {
        assert(s[n] == sep);
    } else if n > k {
        assert(s[k] != sep);
    }
}

/// A text has at least one piece.
pub proof fn lemma_pieces_len(s: Seq<u8>, sep: u8)
    ensures
        pieces(s, sep).len() >= 1,
    decreases s.len(),
{
    let k = first(s, sep) as int;
    if k < s.len() {
        lemma_pieces_len(s.skip(k + 1), sep);
    }
}

/// The place of the first `sep` in `s` at or after `from`; the length of
/// `s` where there is none.
pub fn find(s: &[u8], sep: u8, from: usize) -> (k: usize)
    requires
        from <= s.len(),
    ensures
        k == from + first(s@.skip(from as int), sep),
        from <= k <= s.len(),
{
    let mut k: usize = from;
    while k < s.len() && s[k] != sep
        invariant
            from <= k <= s.len(),
            forall|i: int| from <= i < k ==> s[i] != sep,
        decreases s.len() - k,
    {
        k += 1;
    }
    proof {
        lemma_first_at(s@.skip(from as int), sep, k - from);
    }
    k
}

/// Cuts `s` at every `sep`.
pub fn split(s: &[u8], sep: u8) -> (out: Vec<Vec<u8>>)
    ensures
        piece_views(out@) == pieces(s@, sep),
{
    let mut out: Vec<Vec<u8>> = Vec::new();
    let mut start: usize = 0;
    proof {
        assert(s@.skip(0) == s@);
        assert(piece_views(out@) + pieces(s@, sep) == pieces(s@, sep));
    }
    loop
        invariant
            start <= s.len(),
            piece_views(out@) + pieces(s@.skip(start as int), sep) == pieces(s@, sep),
        decreases s.len() - start,
    {
        let ghost rest = s@.skip(start as int);
        let ghost done = piece_views(out@);
        let end = find(s, sep, start);
        let mut piece: Vec<u8> = Vec::new();
        piece.extend_from_slice(vstd::slice::slice_subrange(s, start, end));
        proof {
            assert(piece@ == rest.take(end - start));
        }
        out.push(piece);
        proof {
            assert(piece_views(out@) == done.push(rest.take(end - start)));
        }
        if end >= s.len() {
            proof {
                assert(rest.take(end - start) == rest);
                assert(done.push(rest) == done + seq![rest]);
            }
            return out;
        }
        proof {
            assert(rest.skip(end - start + 1) == s@.skip(end + 1));
            assert(done.push(rest.take(end - start)) + pieces(s@.skip(end + 1), sep) == done + (
            seq![rest.take(end - start)] + pieces(s@.skip(end + 1), sep)));
        }
        start = end + 1;
    }
}

/// Whether `a` comes before `b` in the order of the bytes, a text before
/// every text that it begins.
pub open spec fn lex_less(a: Seq<u8>, b: Seq<u8>) -> bool
    decreases a.len(),
{
    if b.len() == 0 {
        false
    } else if a.len() == 0 {
        true
    } else if a[0] != b[0] {
        a[0] < b[0]
    } else {
        lex_less(a.skip(1), b.skip(1))
    }
}

/// Of two different texts one comes before the other.
pub proof fn lemma_lex_total(a: Seq<u8>, b: Seq<u8>)
    requires
        !lex_less(a, b),
        !lex_less(b, a),
    ensures
        a == b,
    decreases a.len(),
{
    if a.len() == 0 || b.len() == 0 {
        assert(a =~= b);
    } else {
        lemma_lex_total(a.skip(1), b.skip(1));
        assert(a =~= seq![a[0]] + a.skip(1));
        assert(b =~= seq![b[0]] + b.skip(1));
    }
}

/// Whether `a` comes before `b` in the order of the bytes.
pub fn less(a: &[u8], b: &[u8]) -> (r: bool)
    ensures
        r == lex_less(a@, b@),
{
    let mut i: usize = 0;
    proof {
        assert(a@.skip(0) == a@);
        assert(b@.skip(0) == b@);
    }
    loop
        invariant
            i <= a.len(),
            i <= b.len(),
            lex_less(a@, b@) == lex_less(a@.skip(i as int), b@.skip(i as int)),
        decreases a.len() - i,
    {
        if i >= b.len() {
            return false;
        }
        if i >= a.len() {
            return true;
        }
        proof {
            assert(a@.skip(i as int).skip(1) == a@.skip(i + 1));
            assert(b@.skip(i as int).skip(1) == b@.skip(i + 1));
        }
        if a[i] != b[i] {
            return a[i] < b[i];
        }
        i += 1;
    }
}

/// No text comes before itself.
pub proof fn lemma_lex_irreflexive(a: Seq<u8>)
    ensures
        !lex_less(a, a),
    decreases a.len(),
{
    if a.len() > 0 {
        lemma_lex_irreflexive(a.skip(1));
    }
}

/// What comes before a text comes before all that comes after the text.
pub proof fn lemma_lex_transitive(a: Seq<u8>, b: Seq<u8>, c: Seq<u8>)
    requires
        lex_less(a, b),
        lex_less(b, c),
    ensures
        lex_less(a, c),
    decreases a.len(),
{
    if a.len() > 0 && b.len() > 0 && c.len() > 0 && a[0] == b[0] && b[0] == c[0] {
        lemma_lex_transitive(a.skip(1), b.skip(1), c.skip(1));
    }
}

/// Where `b` comes before `c`, and `a` does not come after `b`, `a` comes
/// before `c`.
pub proof fn lemma_lex_chain(a: Seq<u8>, b: Seq<u8>, c: Seq<u8>)
    requires
        !lex_less(b, a),
        lex_less(b, c),
    ensures
        lex_less(a, c),
{
    if lex_less(a, b) {
        lemma_lex_transitive(a, b, c);
    } else {
        lemma_lex_total(a, b);
    }
}

} // verus!
