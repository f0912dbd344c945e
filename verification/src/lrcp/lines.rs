//! The application on top of the transport: every complete line comes back
//! reversed.
//!
//! The transport hands over what it has received and not yet resolved into
//! lines. The application takes the complete lines, each closed by a
//! newline, and gives for each the same bytes in reverse order, closed by a
//! newline again. What follows the last newline stays with the transport
//! until the rest of the line arrives.
use vstd::prelude::*;
use crate::text::{first, lemma_first, lemma_first_at};

verus! {

/// The line terminator.
pub const NEWLINE: u8 = 0x0a;

/// The length of the part of `s` that consists of complete lines: one past
/// its last newline, and 0 where it holds none.
pub open spec fn complete_len(s: Seq<u8>) -> nat
    decreases s.len(),
{
    if s.len() == 0 {
        0
    } else if s.last() == NEWLINE {
        s.len()
    } else {
        complete_len(s.drop_last())
    }
}

/// The complete lines of `s`, each reversed and closed by a newline.
pub open spec fn reversed_lines(s: Seq<u8>) -> Seq<u8>
    decreases s.len(),
{
    let k = first(s, NEWLINE) as int;
    if k >= s.len() {
        Seq::empty()
    } else {
        s.take(k).reverse().push(NEWLINE) + reversed_lines(s.skip(k + 1))
    }
}

/// What follows the complete lines holds no newline.
pub proof fn lemma_complete_len(s: Seq<u8>)
    ensures
        complete_len(s) <= s.len(),
        forall|i: int| complete_len(s) <= i < s.len() ==> s[i] != NEWLINE,
        complete_len(s) > 0 ==> s[complete_len(s) - 1] == NEWLINE,
    decreases s.len(),
{
    if s.len() > 0 && s.last() != NEWLINE {
        let t = s.drop_last();
        lemma_complete_len(t);
        assert forall|i: int| complete_len(s) <= i < s.len() implies s[i] != NEWLINE by {
            if i < t.len() {
                assert(s[i] == t[i]);
            }
        }
        if complete_len(s) > 0 {
            assert(s[complete_len(s) - 1] == t[complete_len(t) - 1]);
        }
    }
}

/// The reversed lines take as many bytes as the complete lines they come
/// from.
pub proof fn lemma_reversed_lines_len(s: Seq<u8>)
    ensures
        reversed_lines(s).len() == complete_len(s),
    decreases s.len(),
{
    lemma_first(s, NEWLINE);
    lemma_complete_len(s);
    let k = first(s, NEWLINE) as int;
    if k >= s.len() {
        if complete_len(s) > 0 {
            assert(s[complete_len(s) - 1] == NEWLINE);
        }
    } else {
        let t = s.skip(k + 1);
        lemma_reversed_lines_len(t);
        lemma_complete_len(t);
        // The complete lines of `s` are its first line and those of `t`.
        let c = complete_len(s) as int;
        let d = complete_len(t) as int;
        assert(c >= k + 1) by {
            if c < k + 1 {
                assert(s[k] != NEWLINE);
            }
        }
        assert(c == k + 1 + d) by {
            if c > k + 1 + d {
                assert(s[c - 1] == t[c - 1 - (k + 1)]);
            } else if c < k + 1 + d {
                assert(t[d - 1] == s[k + d]);
            }
        }
    }
}

/// Takes the complete lines of `pending`: gives how many bytes they are
/// and, for each line, its bytes in reverse order and a newline.
pub fn reverse_lines(pending: &[u8]) -> (r: (usize, Vec<u8>))
    ensures
        r.0 == complete_len(pending@),
        r.1@ == reversed_lines(pending@),
{
    let n = pending.len();
    let mut out: Vec<u8> = Vec::new();
    let mut start: usize = 0;
    let mut i: usize = 0;
    proof {
        assert(pending@.skip(0) == pending@);
        assert(out@ + reversed_lines(pending@) == reversed_lines(pending@));
    }
    while i < n
        invariant
            n == pending.len(),
            start <= i <= n,
            start == complete_len(pending@.take(i as int)),
            forall|j: int| start <= j < i ==> pending[j] != NEWLINE,
            out@ + reversed_lines(pending@.skip(start as int)) == reversed_lines(pending@),
        decreases n - i,
    {
        proof {
            assert(pending@.take(i + 1).drop_last() == pending@.take(i as int));
        }
        if pending[i] == NEWLINE {
            let ghost before = out@;
            let ghost rest = pending@.skip(start as int);
            let ghost line = rest.take(i - start);
            proof {
                lemma_first_at(rest, NEWLINE, i - start);
                assert(rest.skip(i - start + 1) == pending@.skip(i + 1));
            }
            let mut j: usize = i;
            while j > start
                invariant
                    start <= j <= i,
                    i < pending.len(),
                    line == pending@.subrange(start as int, i as int),
                    out@ == before + line.reverse().take(i - j),
                decreases j,
            {
                j -= 1;
                out.push(pending[j]);
                proof {
                    let rev = line.reverse();
                    assert(rev[i - j - 1] == pending[j as int]);
                    assert(rev.take(i - j) == rev.take(i - j - 1).push(rev[i - j - 1]));
                }
            }
            out.push(NEWLINE);
            proof {
                assert(line.reverse().take(i - start) == line.reverse());
                assert(out@ == before + line.reverse().push(NEWLINE));
                assert(before + line.reverse().push(NEWLINE) + reversed_lines(
                    pending@.skip(i + 1),
                ) == before + (line.reverse().push(NEWLINE) + reversed_lines(
                    pending@.skip(i + 1),
                )));
            }
            start = i + 1;
        }
        i += 1;
    }
    proof {
        assert(pending@.take(n as int) == pending@);
        let rest = pending@.skip(start as int);
        lemma_first_at(rest, NEWLINE, rest.len() as int);
        assert(out@ + Seq::<u8>::empty() == out@);
    }
    (start, out)
}

} // verus!
