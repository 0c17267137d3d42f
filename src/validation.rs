use vstd::prelude::*;

verus! {

pub open spec fn is_digit(c: char) -> bool {
    '0' <= c <= '9'
}

/// The value of a run of decimal digits.
pub open spec fn digits_value(s: Seq<char>) -> int
    decreases s.len(),
{
    if s.len() == 0 {
        0
    } else {
        digits_value(s.drop_last()) * 10 + (s.last() as int - '0' as int)
    }
}

/// The `i32` that `s` spells in decimal: an optional `+` or `-`, then one or
/// more ASCII digits, with a value in range.
pub open spec fn decimal_i32(s: Seq<char>) -> Option<int> {
    let neg = s.len() > 0 && s[0] == '-';
    let body = if s.len() > 0 && (s[0] == '-' || s[0] == '+') {
        s.drop_first()
    } else {
        s
    };
    let v = if neg {
        -digits_value(body)
    } else {
        digits_value(body)
    };
    if body.len() > 0 && (forall|i: int| 0 <= i < body.len() ==> is_digit(#[trigger] body[i]))
        && i32::MIN <= v <= i32::MAX {
        Some(v)
    } else {
        None
    }
}

pub open spec fn digit_char(d: nat) -> char {
    ('0' as u32 + d) as char
}

/// The decimal digits of `n`, without leading zeros.
pub open spec fn digits_of(n: nat) -> Seq<char>
    decreases n,
{
    if n < 10 {
        seq![digit_char(n)]
    } else {
        digits_of(n / 10).push(digit_char(n % 10))
    }
}

/// `i` written in decimal, with a `-` if it is negative.
pub open spec fn decimal_text(i: int) -> Seq<char> {
    if i < 0 {
        seq!['-'] + digits_of((-i) as nat)
    } else {
        digits_of(i as nat)
    }
}

/// Relies on `i32::from_str_radix` with radix 10: an optional sign, then
/// ASCII digits, and an error where the value does not fit.
#[verifier::external_body]
fn parse_decimal(s: &str) -> (r: Option<i32>)
    ensures
        r is Some ==> decimal_i32(s@) == Some(r.unwrap() as int),
        r is None ==> decimal_i32(s@) is None,
{
    i32::from_str_radix(s, 10).ok()
}

/// Relies on `i32::to_string`: the decimal text of the value.
#[verifier::external_body]
fn int_text(i: i32) -> (r: String)
    ensures
        r@ == decimal_text(i as int),
{
    i.to_string()
}

/// Accepts a whole number that is not negative.
pub fn nonnegative(value: String) -> (r: Result<(), String>)
    ensures
        decimal_i32(value@) is None ==> r is Err && r->Err_0@ == value@ + " not a number"@,
        decimal_i32(value@) is Some && decimal_i32(value@).unwrap() < 0 ==> r is Err && r->Err_0@
            == decimal_text(decimal_i32(value@).unwrap()) + " is negative"@,
        decimal_i32(value@) is Some && decimal_i32(value@).unwrap() >= 0 ==> r is Ok,
{
    match parse_decimal(value.as_str()) {
        Some(i) => {
            if i < 0 {
                let mut msg = int_text(i);
                msg.append(" is negative");
                Err(msg)
            } else {
                Ok(())
            }
        },
        None => {
            let mut msg = value.clone();
            msg.append(" not a number");
            Err(msg)
        },
    }
}

} // verus!
