//! The messages that producer threads and tasks send over their channels.

use vstd::prelude::*;

verus! {

/// The character of decimal digit `d` (`'0'` to `'9'`).
pub open spec fn digit_char(d: nat) -> char {
    (48 + d) as char
}

/// `n` in decimal: its digits, most significant first, without sign,
/// padding or leading zeros.
pub open spec fn decimal(n: nat) -> Seq<char>
    decreases n,
{
    if n < 10 {
        seq![digit_char(n)]
    } else {
        decimal(n / 10).push(digit_char(n % 10))
    }
}

/// `n` written in decimal.
///
/// Trusted: calls std's `ToString` on `usize` (its `Display`), which the
/// std documentation gives as the plain decimal digits of the number; the
/// contract claims exactly that.
#[verifier::external_body]
fn decimal_text(n: usize) -> (s: String)
    ensures
        s@ == decimal(n as nat),
{
    n.to_string()
}

/// The message that producer `id` sends over a thread channel:
/// `"msg from {id}"`.
pub fn producer_message(id: usize) -> (msg: String)
    ensures
        msg@ == "msg from "@ + decimal(id as nat),
{
    let digits = decimal_text(id);
    String::from_str("msg from ").concat(digits.as_str())
}

/// The message that producer task `id` sends over an async channel:
/// `"producer {id}: message"`.
pub fn fan_in_message(id: usize) -> (msg: String)
    ensures
        msg@ == "producer "@ + decimal(id as nat) + ": message"@,
{
    let digits = decimal_text(id);
    String::from_str("producer ").concat(digits.as_str()).concat(": message")
}

} // verus!
