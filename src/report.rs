use vstd::prelude::*;

use crate::count::CountResult;
use crate::search::{decimal, decimal_bytes};

verus! {

/// Three decimal digits of `r` (below 1000), with leading zeros.
pub open spec fn three_digits(r: nat) -> Seq<u8> {
    seq![(r / 100 + 48) as u8, (r / 10 % 10 + 48) as u8, (r % 10 + 48) as u8]
}

/// `n` in decimal with a comma before each group of three digits counted from the right.
pub open spec fn grouped_decimal(n: nat) -> Seq<u8>
    decreases n,
{
    if n < 1000 {
        decimal(n)
    } else {
        grouped_decimal(n / 1000) + seq![44u8] + three_digits(n % 1000)
    }
}

/// Relies on indicatif's `HumanCount` and its `Display` impl: `n` in decimal with commas
/// between groups of three digits.
#[verifier::external_body]
fn human_count(n: u64) -> (r: Vec<u8>)
    ensures
        r@ == grouped_decimal(n as nat),
{
    format!("{}", indicatif::HumanCount(n)).into_bytes()
}

/// A number as printed: plain decimal, or grouped for reading.
pub open spec fn number_text(n: u64, human: bool) -> Seq<u8> {
    if human {
        grouped_decimal(n as nat)
    } else {
        decimal(n as nat)
    }
}

/// The line a count prints: the count, then `;` and the width when the width was asked for.
pub open spec fn count_line_text(c: CountResult, want_width: bool, human: bool) -> Seq<u8> {
    if want_width {
        number_text(c.count, human) + seq![59u8] + number_text(c.width as u64, human)
    } else {
        number_text(c.count, human)
    }
}

fn number_bytes(n: u64, human: bool) -> (r: Vec<u8>)
    ensures
        r@ == number_text(n, human),
{
    if human {
        human_count(n)
    } else {
        decimal_bytes(n)
    }
}

/// Renders the result of a count as the line that is printed, without its line break.
pub fn count_line(c: CountResult, want_width: bool, human: bool) -> (r: Vec<u8>)
    ensures
        r@ == count_line_text(c, want_width, human),
{
    let mut out = number_bytes(c.count, human);
    if want_width {
        out.push(59u8);
        let mut w = number_bytes(c.width as u64, human);
        out.append(&mut w);
    }
    out
}

} // verus!
