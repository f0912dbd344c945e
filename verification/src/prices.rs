//! A log of prices, asked for the mean price over a span of time.
//!
//! A request is nine bytes: a letter and two signed 32-bit numbers, most
//! significant byte first. `I` stores a price at a timestamp. `Q` asks for
//! the mean of the prices whose timestamps lie in a span, both ends
//! included; the mean is rounded towards zero, and it is 0 where no
//! timestamp lies in the span. Any other letter is invalid.
use vstd::prelude::*;

verus! {

/// The letter of an insertion.
pub const INSERT: u8 = 0x49;

/// The letter of a query.
pub const QUERY: u8 = 0x51;

/// A request.
#[derive(Debug, Clone, Copy, PartialEq, Eq)]
pub enum Request {
    /// Store `price` at `timestamp`.
    Insert { timestamp: i32, price: i32 },
    /// Give the mean of the prices from `mintime` to `maxtime`.
    Query { mintime: i32, maxtime: i32 },
}

/// The signed number that four bytes hold, most significant byte first, in
/// two's complement.
pub open spec fn signed_be(b0: u8, b1: u8, b2: u8, b3: u8) -> int {
    let unsigned = b0 * 0x100_0000 + b1 * 0x1_0000 + b2 * 0x100 + b3;
    if unsigned >= 0x8000_0000 {
        unsigned - 0x1_0000_0000
    } else {
        unsigned
    }
}

/// The four bytes that hold a signed number, most significant byte first,
/// in two's complement.
pub open spec fn be_bytes(v: i32) -> Seq<u8> {
    let unsigned = if v < 0 {
        v + 0x1_0000_0000
    } else {
        v as int
    };
    seq![
        (unsigned / 0x100_0000) as u8,
        (unsigned / 0x1_0000 % 0x100) as u8,
        (unsigned / 0x100 % 0x100) as u8,
        (unsigned % 0x100) as u8,
    ]
}

/// The request that nine bytes hold, if their letter is one of a request.
pub open spec fn request_of(bytes: Seq<u8>) -> Option<Request> {
    let first = signed_be(bytes[1], bytes[2], bytes[3], bytes[4]) as i32;
    let second = signed_be(bytes[5], bytes[6], bytes[7], bytes[8]) as i32;
    if bytes[0] == INSERT {
        Some(Request::Insert { timestamp: first, price: second })
    } else if bytes[0] == QUERY {
        Some(Request::Query { mintime: first, maxtime: second })
    } else {
        None
    }
}

/// The number of entries whose timestamps lie in the span.
pub open spec fn count_in(entries: Seq<(i32, i32)>, mintime: i32, maxtime: i32) -> nat
    decreases entries.len(),
{
    if entries.len() == 0 {
        0
    } else {
        count_in(entries.drop_last(), mintime, maxtime) + if mintime <= entries.last().0
            <= maxtime {
            1nat
        } else {
            0nat
        }
    }
}

/// The sum of the prices whose timestamps lie in the span.
pub open spec fn total_in(entries: Seq<(i32, i32)>, mintime: i32, maxtime: i32) -> int
    decreases entries.len(),
{
    if entries.len() == 0 {
        0
    } else {
        total_in(entries.drop_last(), mintime, maxtime) + if mintime <= entries.last().0
            <= maxtime {
            entries.last().1 as int
        } else {
            0
        }
    }
}

/// The quotient of `a` by a positive `b`, rounded towards zero.
pub open spec fn quotient_towards_zero(a: int, b: int) -> int {
    if a >= 0 {
        a / b
    } else {
        -((-a) / b)
    }
}

/// The mean of the prices whose timestamps lie in the span, rounded towards
/// zero; 0 where there is none.
pub open spec fn mean_in(entries: Seq<(i32, i32)>, mintime: i32, maxtime: i32) -> int {
    let n = count_in(entries, mintime, maxtime);
    if n == 0 {
        0
    } else {
        quotient_towards_zero(total_in(entries, mintime, maxtime), n as int)
    }
}

/// The sum of some prices is within as many times the range of a price.
proof fn lemma_total_bounds(entries: Seq<(i32, i32)>, mintime: i32, maxtime: i32)
    ensures
        count_in(entries, mintime, maxtime) <= entries.len(),
        -0x8000_0000 * count_in(entries, mintime, maxtime) <= total_in(entries, mintime, maxtime)
            <= 0x7fff_ffff * count_in(entries, mintime, maxtime),
    decreases entries.len(),
{
    if entries.len() > 0 {
        lemma_total_bounds(entries.drop_last(), mintime, maxtime);
    }
}

/// Reads a signed number from four bytes, most significant byte first.
pub fn read_i32(b0: u8, b1: u8, b2: u8, b3: u8) -> (v: i32)
    ensures
        v == signed_be(b0, b1, b2, b3),
{
    let unsigned: i64 = (b0 as i64) * 0x100_0000 + (b1 as i64) * 0x1_0000 + (b2 as i64) * 0x100 + (
    b3 as i64);
    if unsigned >= 0x8000_0000 {
        (unsigned - 0x1_0000_0000) as i32
    } else {
        unsigned as i32
    }
}

/// Writes a signed number as four bytes, most significant byte first.
pub fn write_i32(v: i32) -> (out: [u8; 4])
    ensures
        out@ == be_bytes(v),
{
    let unsigned: i64 = if v < 0 {
        v as i64 + 0x1_0000_0000
    } else {
        v as i64
    };
    let out: [u8; 4] = [
        (unsigned / 0x100_0000) as u8,
        (unsigned / 0x1_0000 % 0x100) as u8,
        (unsigned / 0x100 % 0x100) as u8,
        (unsigned % 0x100) as u8,
    ];
    assert(out@ =~= be_bytes(v));
    out
}

/// Reading the four bytes of a number gives back the number.
pub proof fn lemma_read_written(v: i32)
    ensures
        signed_be(be_bytes(v)[0], be_bytes(v)[1], be_bytes(v)[2], be_bytes(v)[3]) == v,
{
}

/// Reads a request. `None` when the letter is not one of a request.
pub fn parse_request(bytes: &[u8; 9]) -> (r: Option<Request>)
    ensures
        r == request_of(bytes@),
{
    let first = read_i32(bytes[1], bytes[2], bytes[3], bytes[4]);
    let second = read_i32(bytes[5], bytes[6], bytes[7], bytes[8]);
    if bytes[0] == INSERT {
        Some(Request::Insert { timestamp: first, price: second })
    } else if bytes[0] == QUERY {
        Some(Request::Query { mintime: first, maxtime: second })
    } else {
        None
    }
}

/// The prices of one connection, each with its timestamp, in the order in
/// which they were stored.
pub struct PriceLog {
    entries: Vec<(i32, i32)>,
}

impl View for PriceLog {
    type V = Seq<(i32, i32)>;

    closed spec fn view(&self) -> Seq<(i32, i32)> {
        self.entries@
    }
}

impl PriceLog {
    /// A log without prices.
    pub fn new() -> (log: Self)
        ensures
            log@ == Seq::<(i32, i32)>::empty(),
    {
        PriceLog { entries: Vec::new() }
    }

    /// The number of prices stored.
    pub fn len(&self) -> (n: usize)
        ensures
            n == self@.len(),
    {
        self.entries.len()
    }

    /// Stores `price` at `timestamp`.
    pub fn insert(&mut self, timestamp: i32, price: i32)
        ensures
            final(self)@ == old(self)@.push((timestamp, price)),
    {
        self.entries.push((timestamp, price));
    }

    /// The mean of the prices from `mintime` to `maxtime`.
    pub fn mean(&self, mintime: i32, maxtime: i32) -> (m: i32)
        ensures
            m == mean_in(self@, mintime, maxtime),
    {
        let mut count: u64 = 0;
        let mut total: i128 = 0;
        let mut i: usize = 0;
        proof {
            assert(self@.take(0) == Seq::<(i32, i32)>::empty());
        }
        while i < self.entries.len()
            invariant
                i <= self.entries.len(),
                count == count_in(self@.take(i as int), mintime, maxtime),
                total == total_in(self@.take(i as int), mintime, maxtime),
                count <= i,
                -0x8000_0000 * count <= total <= 0x7fff_ffff * count,
            decreases self.entries.len() - i,
        {
            proof {
                assert(self@.take(i + 1).drop_last() == self@.take(i as int));
                lemma_total_bounds(self@.take(i + 1), mintime, maxtime);
            }
            let (timestamp, price) = self.entries[i];
            if mintime <= timestamp && timestamp <= maxtime {
                count += 1;
                total += price as i128;
            }
            i += 1;
        }
        proof {
            assert(self@.take(self@.len() as int) == self@);
        }
        if count == 0 {
            0
        } else if total >= 0 {
            let q: u128 = (total as u128) / (count as u128);
            assert(q <= 0x7fff_ffff) by (nonlinear_arith)
                requires
                    q == (total as int) / (count as int),
                    0 <= total <= 0x7fff_ffff * count,
                    count > 0,
            ;
            q as i32
        } else {
            let q: u128 = ((-total) as u128) / (count as u128);
            assert(q <= 0x8000_0000) by (nonlinear_arith)
                requires
                    q == (-total as int) / (count as int),
                    0 <= -total <= 0x8000_0000 * count,
                    count > 0,
            ;
            (-(q as i64)) as i32
        }
    }

    /// Applies a request: an insertion stores its price and gives nothing,
    /// a query gives the mean it asks for.
    pub fn apply(&mut self, request: Request) -> (r: Option<i32>)
        ensures
            match request {
                Request::Insert { timestamp, price } => r is None && final(self)@ == old(
                    self,
                )@.push((timestamp, price)),
                Request::Query { mintime, maxtime } => r == Some(
                    mean_in(old(self)@, mintime, maxtime) as i32,
                ) && final(self)@ == old(self)@,
            },
    {
        match request {
            Request::Insert { timestamp, price } => {
                self.insert(timestamp, price);
                None
            },
            Request::Query { mintime, maxtime } => Some(self.mean(mintime, maxtime)),
        }
    }
}

} // verus!
