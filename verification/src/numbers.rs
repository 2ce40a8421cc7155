//! Decimal rendering of the integers the library prints: seed dates,
//! time controls, leaderboard column headers.

use vstd::prelude::*;

verus! {

/// The character of one decimal digit.
pub open spec fn dec_digit(d: int) -> char {
    if d == 0 {
        '0'
    } else if d == 1 {
        '1'
    } else if d == 2 {
        '2'
    } else if d == 3 {
        '3'
    } else if d == 4 {
        '4'
    } else if d == 5 {
        '5'
    } else if d == 6 {
        '6'
    } else if d == 7 {
        '7'
    } else if d == 8 {
        '8'
    } else {
        '9'
    }
}

/// The usual base-10 rendering of a non-negative integer.
pub open spec fn dec_str(n: int) -> Seq<char>
    decreases n,
{
    if n < 10 {
        seq![dec_digit(n)]
    } else {
        dec_str(n / 10).push(dec_digit(n % 10))
    }
}

/// A two-digit zero-padded rendering.
pub open spec fn dec2(n: int) -> Seq<char> {
    seq![dec_digit(n / 10), dec_digit(n % 10)]
}

/// A four-digit zero-padded rendering.
pub open spec fn dec4(n: int) -> Seq<char> {
    seq![
        dec_digit(n / 1000),
        dec_digit((n / 100) % 10),
        dec_digit((n / 10) % 10),
        dec_digit(n % 10),
    ]
}

/// One digit as a string.
fn digit_string(d: u64) -> (s: String)
    requires
        d < 10,
    ensures
        s@ =~= seq![dec_digit(d as int)],
{
    proof {
        reveal_strlit("0");
        reveal_strlit("1");
        reveal_strlit("2");
        reveal_strlit("3");
        reveal_strlit("4");
        reveal_strlit("5");
        reveal_strlit("6");
        reveal_strlit("7");
        reveal_strlit("8");
        reveal_strlit("9");
    }
    let s = match d {
        0 => "0",
        1 => "1",
        2 => "2",
        3 => "3",
        4 => "4",
        5 => "5",
        6 => "6",
        7 => "7",
        8 => "8",
        _ => "9",
    };
    s.to_owned()
}

/// Render a number in base 10.
pub fn u64_to_string(n: u64) -> (s: String)
    ensures
        s@ == dec_str(n as int),
    decreases n,
{
    if n < 10 {
        let s = digit_string(n);
        proof {
            assert(s@ == dec_str(n as int));
        }
        s
    } else {
        let mut s = u64_to_string(n / 10);
        let d = digit_string(n % 10);
        s.append(d.as_str());
        proof {
            assert(s@ =~= dec_str((n / 10) as int).push(dec_digit((n % 10) as int)));
        }
        s
    }
}

/// Render a number zero-padded to two digits.
pub fn two_digit_string(n: u8) -> (s: String)
    requires
        n < 100,
    ensures
        s@ == dec2(n as int),
{
    let mut s = digit_string((n / 10) as u64);
    let d = digit_string((n % 10) as u64);
    s.append(d.as_str());
    proof {
        assert(s@ =~= dec2(n as int));
    }
    s
}

/// Render a number zero-padded to four digits.
pub fn four_digit_string(n: u16) -> (s: String)
    requires
        n < 10000,
    ensures
        s@ == dec4(n as int),
{
    let mut s = digit_string((n / 1000) as u64);
    let d2 = digit_string(((n / 100) % 10) as u64);
    let d3 = digit_string(((n / 10) % 10) as u64);
    let d4 = digit_string((n % 10) as u64);
    s.append(d2.as_str());
    s.append(d3.as_str());
    s.append(d4.as_str());
    proof {
        assert(s@ =~= dec4(n as int));
    }
    s
}


/// The base-10 rendering of any integer: a minus sign before the
/// magnitude for negative values.
pub open spec fn dec_signed(n: int) -> Seq<char> {
    if n < 0 {
        seq!['-'] + dec_str(-n)
    } else {
        dec_str(n)
    }
}

/// Render a signed number in base 10.
pub fn i64_to_string(n: i64) -> (s: String)
    ensures
        s@ == dec_signed(n as int),
{
    if n >= 0 {
        u64_to_string(n as u64)
    } else {
        let magnitude: u64 = ((-(n + 1)) as u64) + 1;
        proof {
            assert(magnitude == -(n as int));
        }
        let mut s = String::new();
        s.append("-");
        s.append(u64_to_string(magnitude).as_str());
        proof {
            reveal_strlit("-");
            assert(s@ =~= seq!['-'] + dec_str(magnitude as int));
        }
        s
    }
}

/// The quotient of division truncated toward zero, as Rust's `/`
/// computes it on signed integers.
pub open spec fn trunc_div(n: int, d: int) -> int {
    if n >= 0 {
        n / d
    } else {
        -((-n) / d)
    }
}

/// The remainder matching `trunc_div`, as Rust's `%` computes it.
pub open spec fn trunc_rem(n: int, d: int) -> int {
    n - d * trunc_div(n, d)
}

/// Whole minutes of a signed number of seconds, truncated toward zero.
pub fn minutes_of(seconds: i16) -> (m: i16)
    ensures
        m == trunc_div(seconds as int, 60),
{
    if seconds >= 0 {
        seconds / 60
    } else {
        let widened: i32 = -(seconds as i32);
        let q: i32 = widened / 60;
        (-q) as i16
    }
}

/// Leftover seconds beside `minutes_of`, truncated toward zero.
pub fn leftover_seconds_of(seconds: i16) -> (r: i16)
    ensures
        r == trunc_rem(seconds as int, 60),
{
    let m = minutes_of(seconds);
    let widened: i32 = (seconds as i32) - 60 * (m as i32);
    widened as i16
}

} // verus!
