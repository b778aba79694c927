//! Timing a piece of work and reporting it when it was slow.

use vstd::prelude::*;
use std::time::Instant;
use core::time::Duration;

verus! {

/// `std::time::Instant`, a reading of the monotonic clock. Nothing is known of what
/// a reading holds.
#[verifier::external_type_specification]
#[verifier::external_body]
pub struct ExInstant(Instant);

/// `Instant::now` reads the clock. Nothing is claimed of the reading.
pub assume_specification[ Instant::now ]() -> (now: Instant)
;

/// `Instant::elapsed` gives the time gone by since the reading was taken. Nothing is
/// claimed of its length.
pub assume_specification[ Instant::elapsed ](start: &Instant) -> (elapsed: Duration)
;

/// `Duration::as_nanos` gives a length of time in whole nanoseconds. Nothing is
/// claimed of the number.
pub assume_specification[ Duration::as_nanos ](length: &Duration) -> (nanos: u128)
;

/// Work that took fewer milliseconds than this is not reported.
pub const SLOW_MS: u128 = 5;

/// The nanoseconds in a millisecond.
pub const NANOS_PER_MS: u128 = 1000000;

/// The decimal digit for a number below ten.
pub open spec fn digit(d: nat) -> char {
    if d == 0 {
        '0'
    } else if d == 1 {
        '1'
    } else if d == 2 {
        '2'
    } else if d == 3 {
        '3'
    } else if d == 4 {
        '4'
    } else if d == 5 {
        '5'
    } else if d == 6 {
        '6'
    } else if d == 7 {
        '7'
    } else if d == 8 {
        '8'
    } else {
        '9'
    }
}

/// A number written in decimal, without leading zeros.
pub open spec fn decimal(n: nat) -> Seq<char>
    decreases n,
{
    if n < 10 {
        seq![digit(n)]
    } else {
        decimal(n / 10).push(digit(n % 10))
    }
}

/// The whole milliseconds in a number of nanoseconds.
pub open spec fn whole_ms(nanos: u128) -> nat {
    (nanos / NANOS_PER_MS) as nat
}

/// The line that reports work called `msg` that took `nanos` nanoseconds; nothing
/// where the work took less than `SLOW_MS` milliseconds.
pub open spec fn report_text(msg: Seq<char>, nanos: u128) -> Option<Seq<char>> {
    if whole_ms(nanos) >= SLOW_MS {
        Some(msg + " took "@ + decimal(whole_ms(nanos)) + " ms"@)
    } else {
        None
    }
}

/// The characters of an optional string.
pub open spec fn text_of(line: Option<String>) -> Option<Seq<char>> {
    match line {
        Some(s) => Some(s@),
        None => None,
    }
}

/// The text of one decimal digit.
pub fn digit_str(d: u8) -> (s: &'static str)
    requires
        d < 10,
    ensures
        s@ == seq![digit(d as nat)],
{
    proof {
        reveal_strlit("0");
        reveal_strlit("1");
        reveal_strlit("2");
        reveal_strlit("3");
        reveal_strlit("4");
        reveal_strlit("5");
        reveal_strlit("6");
        reveal_strlit("7");
        reveal_strlit("8");
        reveal_strlit("9");
    }
    let s = if d == 0 {
        "0"
    } else if d == 1 {
        "1"
    } else if d == 2 {
        "2"
    } else if d == 3 {
        "3"
    } else if d == 4 {
        "4"
    } else if d == 5 {
        "5"
    } else if d == 6 {
        "6"
    } else if d == 7 {
        "7"
    } else if d == 8 {
        "8"
    } else {
        "9"
    };
    s
}

/// Writes a number in decimal.
pub fn decimal_string(n: u128) -> (text: String)
    ensures
        text@ == decimal(n as nat),
{
    let mut rest: u128 = n;
    let mut text = String::new();
    while rest >= 10
        invariant
            decimal(n as nat) == decimal(rest as nat) + text@,
        decreases rest,
    {
        let d = (rest % 10) as u8;
        text = String::from_str(digit_str(d)).concat(text.as_str());
        rest = rest / 10;
    }
    let d = rest as u8;
    String::from_str(digit_str(d)).concat(text.as_str())
}

/// The line to log for work called `msg` that took `nanos` nanoseconds, if it was
/// slow enough to be worth a line.
pub fn slow_report(msg: &str, nanos: u128) -> (line: Option<String>)
    ensures
        text_of(line) == report_text(msg@, nanos),
{
    let ms = nanos / NANOS_PER_MS;
    if ms >= SLOW_MS {
        let number = decimal_string(ms);
        let line = String::from_str(msg).concat(" took ").concat(number.as_str()).concat(" ms");
        Some(line)
    } else {
        None
    }
}

/// Runs `callback` and measures how long it takes. Returns what `callback` returned,
/// and beside it the line to log where the work took `SLOW_MS` milliseconds or more.
pub fn time<T, F: FnOnce() -> T>(msg: &str, callback: F) -> (timed: (T, Option<String>))
    requires
        callback.requires(()),
    ensures
        callback.ensures((), timed.0),
        exists|nanos: u128| text_of(timed.1) == #[trigger] report_text(msg@, nanos),
{
    let start = Instant::now();
    let val = callback();
    let nanos = start.elapsed().as_nanos();
    (val, slow_report(msg, nanos))
}

} // verus!
