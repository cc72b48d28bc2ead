//! Verified text building: decimal rendering of numbers and the
//! human-readable form of a remaining lifespan.

use vstd::prelude::*;

verus! {

/// Relies on `String::push`: appends the given character to the end of the
/// string.
pub assume_specification[ String::push ](s: &mut String, ch: char)
    ensures
        final(s)@ == old(s)@.push(ch),
;

/// The decimal digit character for a value below ten.
pub open spec fn spec_digit_char(d: int) -> char {
    if d == 0 {
        '0'
    } else if d == 1 {
        '1'
    } else if d == 2 {
        '2'
    } else if d == 3 {
        '3'
    } else if d == 4 {
        '4'
    } else if d == 5 {
        '5'
    } else if d == 6 {
        '6'
    } else if d == 7 {
        '7'
    } else if d == 8 {
        '8'
    } else {
        '9'
    }
}

/// The decimal rendering of a non-negative number, most significant digit
/// first.
pub open spec fn spec_digits(n: int) -> Seq<char>
    decreases n,
{
    if n < 10 {
        seq![spec_digit_char(n)]
    } else {
        spec_digits(n / 10).push(spec_digit_char(n % 10))
    }
}

/// A one-character string slice holding the digit character.
fn digit_str(d: u64) -> (s: &'static str)
    requires
        d < 10,
    ensures
        s@ == seq![spec_digit_char(d as int)],
{
    proof {
        reveal_strlit("0");
        reveal_strlit("1");
        reveal_strlit("2");
        reveal_strlit("3");
        reveal_strlit("4");
        reveal_strlit("5");
        reveal_strlit("6");
        reveal_strlit("7");
        reveal_strlit("8");
        reveal_strlit("9");
    }
    if d == 0 {
        "0"
    } else if d == 1 {
        "1"
    } else if d == 2 {
        "2"
    } else if d == 3 {
        "3"
    } else if d == 4 {
        "4"
    } else if d == 5 {
        "5"
    } else if d == 6 {
        "6"
    } else if d == 7 {
        "7"
    } else if d == 8 {
        "8"
    } else {
        "9"
    }
}

/// Appends the decimal rendering of `n` to `out`.
pub fn push_u64(n: u64, out: &mut String)
    ensures
        final(out)@ == old(out)@ + spec_digits(n as int),
    decreases n,
{
    if n >= 10 {
        push_u64(n / 10, out);
    }
    let ghost mid = out@;
    out.append(digit_str(n % 10));
    proof {
        if n < 10 {
            assert(old(out)@ + spec_digits(n as int) =~= old(out)@ + seq![
                spec_digit_char(n as int),
            ]);
            assert(out@ =~= old(out)@ + seq![spec_digit_char(n as int)]);
        } else {
            assert(mid == old(out)@ + spec_digits(n as int / 10));
            assert(out@ =~= old(out)@ + spec_digits(n as int / 10).push(
                spec_digit_char(n as int % 10),
            ));
        }
    }
}

/// The decimal rendering of a number as a fresh string.
pub fn u64_to_string(n: u64) -> (s: String)
    ensures
        s@ == spec_digits(n as int),
{
    let mut s = String::new();
    push_u64(n, &mut s);
    proof {
        assert(Seq::<char>::empty() + spec_digits(n as int) =~= spec_digits(n as int));
    }
    s
}

/// The plural suffix: an `s` for more than one unit.
pub open spec fn spec_plural(n: int) -> Seq<char> {
    if n > 1 {
        "s"@
    } else {
        Seq::empty()
    }
}

/// The human-readable form of a duration in seconds: days, hours and
/// minutes, where each non-zero unit is written out and minutes appear
/// whenever nothing larger carries the message alone.
pub open spec fn spec_time_text(diff: int) -> Seq<char> {
    let days = diff / 86400;
    let rem = diff % 86400;
    let hours = rem / 3600;
    let minutes = rem % 3600 % 60;
    let d = if days > 0 {
        spec_digits(days) + " day"@ + spec_plural(days)
    } else {
        Seq::empty()
    };
    let h = if hours > 0 {
        spec_digits(hours) + " hour"@ + spec_plural(hours)
    } else {
        Seq::empty()
    };
    let m = if minutes > 0 || !(days > 0 || hours > 1) {
        spec_digits(minutes) + " minute"@ + spec_plural(minutes)
    } else {
        Seq::empty()
    };
    d + h + m
}

/// Renders a remaining lifespan, exactly as [`spec_time_text`] lays it out.
pub fn time_to_text(diff: u64) -> (s: String)
    ensures
        s@ == spec_time_text(diff as int),
{
    let days = diff / 86400;
    let remainder = diff % 86400;
    let hours = remainder / 3600;
    let minutes = remainder % 3600 % 60;
    let mut s = String::new();
    let ghost d_part = if days as int > 0 {
        spec_digits(days as int) + " day"@ + spec_plural(days as int)
    } else {
        Seq::<char>::empty()
    };
    let ghost h_part = if hours as int > 0 {
        spec_digits(hours as int) + " hour"@ + spec_plural(hours as int)
    } else {
        Seq::<char>::empty()
    };
    let ghost m_part = if minutes as int > 0 || !(days as int > 0 || hours as int > 1) {
        spec_digits(minutes as int) + " minute"@ + spec_plural(minutes as int)
    } else {
        Seq::<char>::empty()
    };
    if days > 0 {
        push_u64(days, &mut s);
        s.append(" day");
        if days > 1 {
            s.append("s");
        }
        proof {
            assert(s@ =~= d_part);
        }
    }
    let ghost after_days = s@;
    proof {
        assert(after_days =~= Seq::<char>::empty() + d_part);
    }
    if hours > 0 {
        push_u64(hours, &mut s);
        s.append(" hour");
        if hours > 1 {
            s.append("s");
        }
        proof {
            assert(s@ =~= after_days + h_part);
        }
    }
    let ghost after_hours = s@;
    proof {
        assert(after_hours =~= d_part + h_part);
    }
    if minutes > 0 || !(days > 0 || hours > 1) {
        push_u64(minutes, &mut s);
        s.append(" minute");
        if minutes > 1 {
            s.append("s");
        }
        proof {
            assert(s@ =~= after_hours + m_part);
        }
    }
    proof {
        assert(s@ =~= d_part + h_part + m_part);
        assert(s@ =~= spec_time_text(diff as int));
    }
    s
}

} // verus!
