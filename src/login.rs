use rand::Rng;
use vstd::prelude::*;

verus! {

/// How long a login confirmation code stays valid, in microseconds (30 minutes).
pub const CONFIRMATION_EXPIRY_MICROS: i64 = 30 * 60 * 1_000_000;

/// How long an authentication token stays valid, in microseconds (30 days).
pub const TOKEN_EXPIRY_MICROS: i64 = 30 * 24 * 60 * 60 * 1_000_000;

/// The character of a decimal digit.
pub open spec fn digit_char(d: nat) -> char {
    seq!['0', '1', '2', '3', '4', '5', '6', '7', '8', '9'][d as int]
}

/// The decimal representation of `n`, without sign or leading zeros.
pub open spec fn decimal_digits(n: nat) -> Seq<char>
    decreases n,
{
    if n < 10 {
        seq![digit_char(n)]
    } else {
        decimal_digits(n / 10).push(digit_char(n % 10))
    }
}

/// The six-digit code built from two random draws: a leading digit from 1
/// to 9 followed by five digits.
pub open spec fn spec_login_code(lead: nat, rest: nat) -> nat {
    (lead % 9 + 1) * 100000 + rest % 100000
}

/// Relies on rand's `Rng::gen::<usize>` with the thread-local generator; any
/// value may come back.
#[verifier::external_body]
fn random_usize() -> (r: usize) {
    rand::thread_rng().gen::<usize>()
}

/// Relies on std's `ToString` for `u32`: the number in decimal, with no sign
/// or padding.
#[verifier::external_body]
fn decimal(n: u32) -> (r: String)
    ensures
        r@ == decimal_digits(n as nat),
{
    n.to_string()
}

/// The login code for two random draws.
pub fn login_code(lead: usize, rest: usize) -> (r: u32)
    ensures
        r == spec_login_code(lead as nat, rest as nat),
        100000 <= r < 1000000,
{
    let first = (lead % 9 + 1) as u32;
    let tail = (rest % 100000) as u32;
    first * 100000 + tail
}

/// A fresh random six-digit login confirmation code, as decimal text.
pub fn rand_code() -> (r: String)
    ensures
        exists|code: nat| 100000 <= code < 1000000 && r@ == decimal_digits(code),
{
    let lead = random_usize();
    let rest = random_usize();
    let code = login_code(lead, rest);
    decimal(code)
}

/// Whether a confirmation code issued at `issued_at` is still valid at `now`
/// (both in microseconds since the epoch).
pub fn confirmation_is_current(issued_at: i64, now: i64) -> (r: bool)
    ensures
        r == (issued_at + CONFIRMATION_EXPIRY_MICROS > now),
{
    if issued_at > i64::MAX - CONFIRMATION_EXPIRY_MICROS {
        true
    } else {
        issued_at + CONFIRMATION_EXPIRY_MICROS > now
    }
}

/// Whether a user's stored confirmation code can be handed out again rather
/// than replaced: there is one, with its issue time, and it is still valid.
pub fn reusable_confirmation(code: &Option<String>, issued_at: Option<i64>, now: i64) -> (r: bool)
    ensures
        r == (code is Some && issued_at is Some && issued_at->0 + CONFIRMATION_EXPIRY_MICROS
            > now),
{
    match (code, issued_at) {
        (Some(_), Some(at)) => confirmation_is_current(at, now),
        _ => false,
    }
}

/// Whether `given` confirms a login: the stored code can still be used and
/// equals `given`.
pub fn confirmation_accepted(
    code: &Option<String>,
    issued_at: Option<i64>,
    given: &String,
    now: i64,
) -> (r: bool)
    ensures
        r == (code is Some && issued_at is Some && issued_at->0 + CONFIRMATION_EXPIRY_MICROS > now
            && code->0@ == given@),
{
    match (code, issued_at) {
        (Some(c), Some(at)) => confirmation_is_current(at, now) && c.eq(given),
        _ => false,
    }
}

/// The earliest creation time of an authentication token still valid at `now`.
pub fn token_cutoff(now: i64) -> (r: i64)
    requires
        now >= i64::MIN + TOKEN_EXPIRY_MICROS,
    ensures
        r == now - TOKEN_EXPIRY_MICROS,
{
    now - TOKEN_EXPIRY_MICROS
}

} // verus!
