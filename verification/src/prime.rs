//! Primality of the numbers that arrive as JSON.
//!
//! A JSON number is prime when it is a non-negative integer that fits 64
//! bits and is a prime number. Negative numbers and numbers with a
//! fraction are not.
use vstd::prelude::*;
use vstd::string::StringExecFns;

verus! {

/// The JSON number of `serde_json`. Its content is read through
/// [`number_as_u64`] only.
#[verifier::external_type_specification]
#[verifier::external_body]
pub struct ExNumber(serde_json::Number);

/// What `serde_json::Number::as_u64` gives for a number: the number itself
/// where it is held as a non-negative integer of 64 bits, and nothing
/// otherwise.
pub uninterp spec fn number_as_u64(value: serde_json::Number) -> Option<u64>;

/// Calls `serde_json::Number::as_u64`. The call reads the number and
/// changes nothing, so the same number always gives the same result; the
/// contract claims no more than that, by naming the result.
#[verifier::external_body]
fn as_u64(value: &serde_json::Number) -> (r: Option<u64>)
    ensures
        r == number_as_u64(*value),
{
    value.as_u64()
}

/// Whether `n` is a prime number: at least 2 and divisible by no number
/// from 2 up to, but not including, itself.
pub open spec fn is_prime_number(n: nat) -> bool {
    n >= 2 && forall|d: nat| 2 <= d < n ==> #[trigger] (n % d) != 0
}

/// A number without a divisor from 2 below `bound`, where the square of
/// `bound` is beyond the number, has no divisor from 2 below itself.
proof fn lemma_no_divisor_below_root(n: nat, bound: nat)
    requires
        n >= 2,
        bound >= 2,
        bound * bound > n,
        forall|d: nat| 2 <= d < bound ==> #[trigger] (n % d) != 0,
    ensures
        is_prime_number(n),
{
    assert forall|d: nat| 2 <= d < n implies #[trigger] (n % d) != 0 by {
        if d >= bound && n % d == 0 {
            let q = n / d;
            assert(n == d * q) by {
                vstd::arithmetic::div_mod::lemma_fundamental_div_mod(n as int, d as int);
            }
            assert(q >= 2) by (nonlinear_arith)
                requires
                    n == d * q,
                    2 <= d < n,
            ;
            assert(q < bound) by (nonlinear_arith)
                requires
                    n == d * q,
                    d >= bound,
                    bound * bound > n,
                    bound >= 2,
            ;
            assert(n % q == 0) by (nonlinear_arith)
                requires
                    n == d * q,
                    q >= 2,
            ;
        }
    }
}

/// Whether `n` is a prime number.
pub fn is_prime_u64(n: u64) -> (r: bool)
    ensures
        r == is_prime_number(n as nat),
{
    if n < 2 {
        return false;
    }
    let mut i: u64 = 2;
    while i <= n / i
        invariant
            n >= 2,
            2 <= i,
            i <= n,
            forall|d: nat| 2 <= d < i ==> #[trigger] ((n as nat) % d) != 0,
        decreases n - i,
    {
        assert(i < n) by (nonlinear_arith)
            requires
                i <= n / i,
                i >= 2,
        ;
        if n % i == 0 {
            return false;
        }
        i += 1;
    }
    proof {
        assert((i as nat) * (i as nat) > n) by (nonlinear_arith)
            requires
                i > n / i,
                i >= 2,
                n >= 2,
        ;
        lemma_no_divisor_below_root(n as nat, i as nat);
    }
    true
}

/// Whether a JSON number is a prime number.
pub fn is_prime(value: serde_json::Number) -> (r: bool)
    ensures
        r == match number_as_u64(value) {
            Some(n) => is_prime_number(n as nat),
            None => false,
        },
{
    match as_u64(&value) {
        Some(n) => is_prime_u64(n),
        None => false,
    }
}

/// The answer to a request: whether its number is prime, if its method is
/// `isPrime`. Any other method makes the request malformed.
pub fn answer(method: &str, number: serde_json::Number) -> (r: Option<bool>)
    ensures
        r == if method@ == "isPrime"@ {
            Some(
                match number_as_u64(number) {
                    Some(n) => is_prime_number(n as nat),
                    None => false,
                },
            )
        } else {
            None
        },
{
    let asked = String::from_str(method);
    let known = String::from_str("isPrime");
    if asked == known {
        Some(is_prime(number))
    } else {
        None
    }
}

/// What is sent in answer to a malformed request, before the connection
/// is closed: an opening brace and a newline.
pub fn malformed() -> (text: [u8; 2])
    ensures
        text@ == seq![0x7bu8, 0x0au8],
{
    let text: [u8; 2] = [0x7b, 0x0a];
    assert(text@ =~= seq![0x7bu8, 0x0au8]);
    text
}

} // verus!
