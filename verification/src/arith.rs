use vstd::prelude::*;

use cosmwasm_std::Uint128;
use vstd::std_specs::iter::IteratorSpec;

verus! {

/// Calls `cosmwasm_std::Uint128::multiply_ratio`, which computes
/// `value * numerator / denominator` floored, through a 256-bit product.
/// It panics when the denominator is zero or the quotient does not fit in
/// 128 bits; `requires` leaves both inputs out.
#[verifier::external_body]
pub(crate) fn multiply_ratio(value: u128, numerator: u128, denominator: u128) -> (r: u128)
    requires
        denominator > 0,
        (value as int) * (numerator as int) / (denominator as int) <= u128::MAX,
    ensures
        r == (value as int) * (numerator as int) / (denominator as int),
{
    Uint128::new(value).multiply_ratio(numerator, denominator).u128()
}

/// The decimal digits of `n`, most significant first, without leading zeros.
pub open spec fn decimal_text(n: nat) -> Seq<char>
    decreases n,
{
    if n < 10 {
        seq![digit_char(n)]
    } else {
        decimal_text(n / 10).push(digit_char(n % 10))
    }
}

/// The character of a decimal digit.
pub open spec fn digit_char(d: nat) -> char {
    if d == 0 { '0' }
    else if d == 1 { '1' }
    else if d == 2 { '2' }
    else if d == 3 { '3' }
    else if d == 4 { '4' }
    else if d == 5 { '5' }
    else if d == 6 { '6' }
    else if d == 7 { '7' }
    else if d == 8 { '8' }
    else { '9' }
}

/// Calls `u128::to_string`, which std documents (through `Display`) as the
/// number in decimal digits without sign or leading zeros.
#[verifier::external_body]
pub(crate) fn amount_text(n: u128) -> (r: String)
    ensures
        r@ == decimal_text(n as nat),
{
    n.to_string()
}

/// The lexicographic order of texts by their characters (which is also the
/// order of their UTF-8 bytes).
pub open spec fn text_lt(a: Seq<char>, b: Seq<char>) -> bool
    decreases a.len(),
{
    if a.len() == 0 {
        b.len() > 0
    } else if b.len() == 0 {
        false
    } else if a[0] != b[0] {
        (a[0] as int) < (b[0] as int)
    } else {
        text_lt(a.drop_first(), b.drop_first())
    }
}

/// Whether `a` comes before `b` in the order of their characters.
pub fn str_lt(a: &str, b: &str) -> (r: bool)
    ensures
        r == text_lt(a@, b@),
{
    broadcast use vstd::string::axiom_spec_iter, vstd::string::next_postcondition;

    let mut ia = a.chars();
    let mut ib = b.chars();
    loop
        invariant
            text_lt(a@, b@) == text_lt(ia.remaining(), ib.remaining()),
            ia.decrease() is Some,
        decreases ia.decrease()->0,
    {
        let ghost ra = ia.remaining();
        let ghost rb = ib.remaining();
        let ca = ia.next();
        let cb = ib.next();
        match (ca, cb) {
            (None, None) => {
                return false;
            },
            (None, Some(_)) => {
                return true;
            },
            (Some(_), None) => {
                return false;
            },
            (Some(x), Some(y)) => {
                if x != y {
                    return x < y;
                }
                assert(ia.remaining() == ra.drop_first());
            },
        }
    }
}

} // verus!
