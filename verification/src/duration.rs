//! Rendering a duration in seconds as a short human-readable string:
//! seconds below a minute, then minutes, hours or days rounded to the
//! nearest whole unit. A negative duration is unknown and shown as
//! "N/A".

use vstd::prelude::*;

verus! {

/// The decimal digit character for a value below ten.
pub open spec fn spec_digit_char(d: int) -> char {
    if d == 0 {
        '0'
    } else if d == 1 {
        '1'
    } else if d == 2 {
        '2'
    } else if d == 3 {
        '3'
    } else if d == 4 {
        '4'
    } else if d == 5 {
        '5'
    } else if d == 6 {
        '6'
    } else if d == 7 {
        '7'
    } else if d == 8 {
        '8'
    } else {
        '9'
    }
}

/// The decimal digit string of a nonnegative value, most significant
/// digit first, without leading zeroes (a lone zero for zero).
pub open spec fn spec_dec(n: int) -> Seq<char>
    decreases n,
    when n >= 0
{
    if n < 10 {
        seq![spec_digit_char(n)]
    } else {
        spec_dec(n / 10).push(spec_digit_char(n % 10))
    }
}

/// Division by a positive unit, rounded to the nearest whole number;
/// a remainder of exactly half a unit rounds to the even neighbour.
pub open spec fn spec_div_round(n: int, d: int) -> int {
    if (n % d) * 2 == d {
        if (n / d) % 2 == 0 {
            n / d
        } else {
            n / d + 1
        }
    } else if (n % d) * 2 > d {
        n / d + 1
    } else {
        n / d
    }
}

/// The rendering that `format_duration` produces.
pub open spec fn spec_format_duration(secs: int) -> Seq<char> {
    if secs < 0 {
        "N/A"@
    } else if secs < 60 {
        spec_dec(secs) + "s"@
    } else if secs < 3600 {
        spec_dec(spec_div_round(secs, 60)) + "m"@
    } else if secs < 86400 {
        spec_dec(spec_div_round(secs, 3600)) + "h"@
    } else {
        spec_dec(spec_div_round(secs, 86400)) + "d"@
    }
}

fn digit_str(d: u64) -> (s: &'static str)
    requires
        d < 10,
    ensures
        s@ == seq![spec_digit_char(d as int)],
{
    proof {
        reveal_strlit("0");
        reveal_strlit("1");
        reveal_strlit("2");
        reveal_strlit("3");
        reveal_strlit("4");
        reveal_strlit("5");
        reveal_strlit("6");
        reveal_strlit("7");
        reveal_strlit("8");
        reveal_strlit("9");
    }
    let s = match d {
        0 => "0",
        1 => "1",
        2 => "2",
        3 => "3",
        4 => "4",
        5 => "5",
        6 => "6",
        7 => "7",
        8 => "8",
        _ => "9",
    };
    proof {
        assert(s@ =~= seq![spec_digit_char(d as int)]);
    }
    s
}

/// The decimal digit string of a value, most significant digit first.
fn dec_string(n: u64) -> (s: String)
    ensures
        s@ == spec_dec(n as int),
    decreases n,
{
    if n < 10 {
        digit_str(n).to_owned()
    } else {
        let q = n / 10;
        let r = n % 10;
        let prefix = dec_string(q);
        let s = prefix.concat(digit_str(r));
        proof {
            assert(s@ =~= spec_dec(n as int));
        }
        s
    }
}

/// Render a duration in seconds: "N/A" when negative, whole seconds
/// below a minute, and minutes, hours or days rounded to the nearest
/// whole unit above that, halves to the even neighbour.
pub fn format_duration(secs: i64) -> (r: String)
    ensures
        r@ == spec_format_duration(secs as int),
{
    if secs < 0 {
        "N/A".to_owned()
    } else if secs < 60 {
        dec_string(secs as u64).concat("s")
    } else if secs < 3600 {
        dec_string(div_round(secs, 60) as u64).concat("m")
    } else if secs < 86400 {
        dec_string(div_round(secs, 3600) as u64).concat("h")
    } else {
        dec_string(div_round(secs, 86400) as u64).concat("d")
    }
}

/// Divide by a positive unit and round to the nearest whole number,
/// halves to the even neighbour.
fn div_round(n: i64, d: i64) -> (r: i64)
    requires
        0 <= n,
        2 <= d <= 86400,
    ensures
        r == spec_div_round(n as int, d as int),
{
    let q = n / d;
    let rem = n % d;
    proof {
        vstd::arithmetic::div_mod::lemma_div_is_ordered_by_denominator(n as int, 2, d as int);
        assert(q <= n / 2);
    }
    if rem * 2 == d {
        if q % 2 == 0 {
            q
        } else {
            q + 1
        }
    } else if rem * 2 > d {
        q + 1
    } else {
        q
    }
}

} // verus!
