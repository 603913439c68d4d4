//! Small helpers: time-of-day formatting, the wall clock, and a timing
//! wrapper for measuring a computation.
use vstd::prelude::*;

verus! {

/// The std monotonic clock reading; opaque to the library.
#[verifier::external_type_specification]
#[verifier::external_body]
pub struct ExInstant(std::time::Instant);

/// Relies on std's `Instant::now`: an opaque reading of the monotonic
/// clock; nothing is promised of the value.
#[verifier::external_body]
fn monotonic_now() -> std::time::Instant {
    std::time::Instant::now()
}

/// Relies on std's `Instant::elapsed` and `Duration::as_millis`: the
/// whole milliseconds since the reading; nothing is promised of the
/// value.
#[verifier::external_body]
fn elapsed_millis(start: &std::time::Instant) -> u64 {
    start.elapsed().as_millis() as u64
}

/// Relies on chrono's `Local::now`, `DateTime::time` and
/// `Timelike::num_seconds_from_midnight`: the current local time of day
/// in seconds, which is hour * 3600 + minute * 60 + second and therefore
/// always below 86 400.
#[verifier::external_body]
pub fn local_seconds_of_day() -> (r: u32)
    ensures
        r < 86400,
{
    chrono::Timelike::num_seconds_from_midnight(&chrono::Local::now().time())
}

/// The character for one decimal digit.
pub open spec fn digit_char(d: int) -> char {
    if d == 0 {
        '0'
    } else if d == 1 {
        '1'
    } else if d == 2 {
        '2'
    } else if d == 3 {
        '3'
    } else if d == 4 {
        '4'
    } else if d == 5 {
        '5'
    } else if d == 6 {
        '6'
    } else if d == 7 {
        '7'
    } else if d == 8 {
        '8'
    } else {
        '9'
    }
}

/// The decimal digits of a number, most significant first.
pub open spec fn dec_chars(n: int) -> Seq<char>
    recommends
        n >= 0,
    decreases n,
{
    if n < 10 {
        seq![digit_char(n)]
    } else {
        dec_chars(n / 10).push(digit_char(n % 10))
    }
}

/// The decimal digits, padded with a zero to at least two places.
pub open spec fn two_pad(n: int) -> Seq<char> {
    if n < 10 {
        seq!['0'] + dec_chars(n)
    } else {
        dec_chars(n)
    }
}

/// The string for one decimal digit.
fn digit_str(d: u64) -> (r: &'static str)
    requires
        d < 10,
    ensures
        r@ == seq![digit_char(d as int)],
{
    proof {
        reveal_strlit("0");
        reveal_strlit("1");
        reveal_strlit("2");
        reveal_strlit("3");
        reveal_strlit("4");
        reveal_strlit("5");
        reveal_strlit("6");
        reveal_strlit("7");
        reveal_strlit("8");
        reveal_strlit("9");
    }
    let r: &'static str = if d == 0 {
        "0"
    } else if d == 1 {
        "1"
    } else if d == 2 {
        "2"
    } else if d == 3 {
        "3"
    } else if d == 4 {
        "4"
    } else if d == 5 {
        "5"
    } else if d == 6 {
        "6"
    } else if d == 7 {
        "7"
    } else if d == 8 {
        "8"
    } else {
        "9"
    };
    proof {
        assert(r@ =~= seq![digit_char(d as int)]);
    }
    r
}

/// A number written in decimal.
pub fn u64_to_decimal(n: u64) -> (r: String)
    ensures
        r@ == dec_chars(n as int),
    decreases n,
{
    if n < 10 {
        let s = String::from_str(digit_str(n));
        s
    } else {
        let mut s = u64_to_decimal(n / 10);
        s.append(digit_str(n % 10));
        proof {
            assert(s@ =~= dec_chars(n as int));
        }
        s
    }
}

/// A number written in decimal, zero-padded to at least two places.
fn pad_two(n: u64) -> (r: String)
    ensures
        r@ == two_pad(n as int),
{
    if n < 10 {
        let mut s = String::from_str("0");
        let d = u64_to_decimal(n);
        s.append(d.as_str());
        proof {
            reveal_strlit("0");
            assert(s@ =~= two_pad(n as int));
        }
        s
    } else {
        u64_to_decimal(n)
    }
}

/// A time of day written as `HH:MM`: hours are the seconds divided by
/// 3600, minutes the seconds divided by 60, modulo 60, both zero-padded
/// to two places.
pub fn format_u32_time(time: u32) -> (r: String)
    ensures
        r@ == two_pad(time as int / 3600) + seq![':'] + two_pad((time as int / 60) % 60),
{
    let hours = time / 3600;
    let minutes = (time / 60) % 60;
    let mut s = pad_two(hours as u64);
    s.append(":");
    let m = pad_two(minutes as u64);
    s.append(m.as_str());
    proof {
        reveal_strlit(":");
        assert(s@ =~= two_pad(time as int / 3600) + seq![':'] + two_pad(
            (time as int / 60) % 60,
        ));
    }
    s
}

/// Run a computation and report how long it took: the computation's own
/// result, and the elapsed wall time written as a decimal number of
/// whole milliseconds followed by " ms".
pub fn measure<F, R>(func: F) -> (r: (R, String)) where F: FnOnce() -> R
    requires
        call_requires(func, ()),
    ensures
        call_ensures(func, (), r.0),
        exists|ms: u64| r.1@ == #[trigger] dec_chars(ms as int) + " ms"@,
{
    let start = monotonic_now();
    let result = func();
    let ms = elapsed_millis(&start);
    let mut s = u64_to_decimal(ms);
    s.append(" ms");
    proof {
        assert(s@ == dec_chars(ms as int) + " ms"@);
    }
    (result, s)
}

} // verus!
