//! The request that travels over the encrypted connection: a line of toy
//! orders, answered with the order of the most copies.
//!
//! A line is a list of orders with commas between them. An order is a
//! number of copies, the letter `x`, and the name of the toy, which is all
//! that follows the first `x`. The answer is the first order with the
//! largest number of copies, written again as number, `x` and name.
use vstd::prelude::*;
use crate::number::{decimal, number_upto, parse_number, write_decimal};
use crate::text::{first, piece_views, pieces, split, find};

verus! {

/// The comma between orders.
pub const COMMA: u8 = 0x2c;

/// The letter `x` between the number of copies and the name.
pub const TIMES: u8 = 0x78;

/// The number of copies and the name that an order holds, if it is an
/// order.
pub open spec fn order(part: Seq<u8>) -> Option<(u32, Seq<u8>)> {
    let k = first(part, TIMES) as int;
    if k >= part.len() {
        None
    } else {
        match number_upto(part.take(k), u32::MAX as nat) {
            Some(n) => Some((n as u32, part.skip(k + 1))),
            None => None,
        }
    }
}

/// The first order with the largest number of copies, if every part is an
/// order. Where no order has a copy, that is no copies of a toy without
/// name.
pub open spec fn largest(parts: Seq<Seq<u8>>) -> Option<(u32, Seq<u8>)>
    decreases parts.len(),
{
    if parts.len() == 0 {
        Some((0u32, Seq::empty()))
    } else {
        match (largest(parts.drop_last()), order(parts.last())) {
            (Some(best), Some(o)) => Some(
                if o.0 > best.0 {
                    o
                } else {
                    best
                },
            ),
            _ => None,
        }
    }
}

/// The answer to a line of orders, if every part of the line is an order.
pub open spec fn answer(line: Seq<u8>) -> Option<Seq<u8>> {
    match largest(pieces(line, COMMA)) {
        Some((n, toy)) => Some(decimal(n as nat) + seq![TIMES] + toy),
        None => None,
    }
}

/// Answers a line of orders with the order of the most copies. `None` when
/// a part of the line is no order.
pub fn most_copies(line: &[u8]) -> (r: Option<Vec<u8>>)
    ensures
        match r {
            Some(out) => answer(line@) == Some(out@),
            None => answer(line@) is None,
        },
{
    let parts = split(line, COMMA);
    let ghost all = pieces(line@, COMMA);
    let mut copies: u32 = 0;
    let mut toy: Vec<u8> = Vec::new();
    let mut i: usize = 0;
    proof {
        assert(all.take(0) == Seq::<Seq<u8>>::empty());
    }
    while i < parts.len()
        invariant
            i <= parts.len(),
            all == pieces(line@, COMMA),
            piece_views(parts@) == all,
            largest(all.take(i as int)) == Some((copies, toy@)),
        decreases parts.len() - i,
    {
        let part = parts[i].as_slice();
        proof {
            assert(all.take(i + 1).drop_last() == all.take(i as int));
            assert(all[i as int] == part@);
            assert(all.take(i + 1).last() == part@);
            assert(part@.skip(0) == part@);
            assert(forall|k: int| 0 <= k < i + 1 ==> all.take(i + 1)[k] == all[k]);
        }
        let k = find(part, TIMES, 0);
        if k >= part.len() {
            proof {
                lemma_largest_none(all, i as int);
            }
            return None;
        }
        match parse_number(vstd::slice::slice_subrange(part, 0, k), u32::MAX as usize) {
            Some(n) => {
                if n as u32 > copies {
                    copies = n as u32;
                    toy = Vec::new();
                    toy.extend_from_slice(vstd::slice::slice_subrange(part, k + 1, part.len()));
                    assert(toy@ == part@.skip(k + 1));
                }
            },
            None => {
                proof {
                    assert(part@.subrange(0, k as int) == part@.take(k as int));
                    lemma_largest_none(all, i as int);
                }
                return None;
            },
        }
        proof {
            assert(part@.subrange(0, k as int) == part@.take(k as int));
        }
        i += 1;
    }
    proof {
        assert(all.take(parts.len() as int) == all);
    }
    let mut out: Vec<u8> = Vec::new();
    write_decimal(copies as usize, &mut out);
    out.push(TIMES);
    out.extend_from_slice(toy.as_slice());
    proof {
        assert(out@ == decimal(copies as nat) + seq![TIMES] + toy@);
    }
    Some(out)
}

/// A part that is no order leaves the whole list without answer.
proof fn lemma_largest_none(parts: Seq<Seq<u8>>, i: int)
    requires
        0 <= i < parts.len(),
        order(parts[i]) is None,
    ensures
        largest(parts) is None,
    decreases parts.len(),
{
    if i < parts.len() - 1 {
        lemma_largest_none(parts.drop_last(), i);
    }
}

} // verus!
