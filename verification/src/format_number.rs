//! Rendering numbers as text: decimal digit strings and human-readable
//! magnitudes.
//!
//! The human-readable formatters scale a byte count by powers of 1000
//! (decimal) or 1024 (binary) and print one decimal place, rounding half away
//! from zero.

use vstd::prelude::*;

verus! {

/// The character of one decimal digit.
pub open spec fn digit_char(d: int) -> char {
    if d == 0 {
        '0'
    } else if d == 1 {
        '1'
    } else if d == 2 {
        '2'
    } else if d == 3 {
        '3'
    } else if d == 4 {
        '4'
    } else if d == 5 {
        '5'
    } else if d == 6 {
        '6'
    } else if d == 7 {
        '7'
    } else if d == 8 {
        '8'
    } else {
        '9'
    }
}

/// The decimal digits of a number, most significant first.
pub open spec fn dec_digits(n: int) -> Seq<char>
    decreases n,
{
    if n < 10 {
        seq![digit_char(n)]
    } else {
        dec_digits(n / 10).push(digit_char(n % 10))
    }
}

/// One decimal digit as text.
fn digit_str(d: u64) -> (r: &'static str)
    requires
        d < 10,
    ensures
        r@ == seq![digit_char(d as int)],
{
    if d == 0 {
        proof {
            reveal_strlit("0");
            assert("0"@ =~= seq![digit_char(0)]);
        }
        "0"
    } else if d == 1 {
        proof {
            reveal_strlit("1");
            assert("1"@ =~= seq![digit_char(1)]);
        }
        "1"
    } else if d == 2 {
        proof {
            reveal_strlit("2");
            assert("2"@ =~= seq![digit_char(2)]);
        }
        "2"
    } else if d == 3 {
        proof {
            reveal_strlit("3");
            assert("3"@ =~= seq![digit_char(3)]);
        }
        "3"
    } else if d == 4 {
        proof {
            reveal_strlit("4");
            assert("4"@ =~= seq![digit_char(4)]);
        }
        "4"
    } else if d == 5 {
        proof {
            reveal_strlit("5");
            assert("5"@ =~= seq![digit_char(5)]);
        }
        "5"
    } else if d == 6 {
        proof {
            reveal_strlit("6");
            assert("6"@ =~= seq![digit_char(6)]);
        }
        "6"
    } else if d == 7 {
        proof {
            reveal_strlit("7");
            assert("7"@ =~= seq![digit_char(7)]);
        }
        "7"
    } else if d == 8 {
        proof {
            reveal_strlit("8");
            assert("8"@ =~= seq![digit_char(8)]);
        }
        "8"
    } else {
        proof {
            reveal_strlit("9");
            assert("9"@ =~= seq![digit_char(9)]);
        }
        "9"
    }
}

/// A number as its decimal digits.
pub fn u64_to_string(n: u64) -> (r: String)
    ensures
        r@ == dec_digits(n as int),
    decreases n,
{
    if n < 10 {
        digit_str(n).to_owned()
    } else {
        let s = u64_to_string(n / 10);
        let r = s.concat(digit_str(n % 10));
        proof {
            assert(r@ =~= dec_digits(n as int / 10).push(digit_char(n as int % 10)));
        }
        r
    }
}

/// The text humansize renders a byte count as, in decimal (power-of-1000)
/// units.
pub uninterp spec fn decimal_size_of(n: u64) -> Seq<char>;

/// Relies on humansize::format_size with the DECIMAL options: the rendered
/// text depends on the number alone.
#[verifier::external_body]
pub(crate) fn format_size_decimal(n: u64) -> (r: String)
    ensures
        r@ == decimal_size_of(n),
{
    humansize::format_size(n, humansize::DECIMAL)
}

/// The scale a decimal-unit rendering of `n` uses: the largest power of 1000
/// not above `n`, capped at the prefixes available.
pub open spec fn decimal_scale(n: u64) -> int {
    if n < 1000 {
        0
    } else if n < 1000000 {
        1
    } else if n < 1000000000 {
        2
    } else if n < 1000000000000 {
        3
    } else if n < 1000000000000000 {
        4
    } else {
        5
    }
}

/// 1000 raised to a scale between 0 and 5.
pub open spec fn decimal_divisor(p: int) -> int {
    if p <= 0 {
        1
    } else if p == 1 {
        1000
    } else if p == 2 {
        1000000
    } else if p == 3 {
        1000000000
    } else if p == 4 {
        1000000000000
    } else {
        1000000000000000
    }
}

/// The unit prefix of a decimal scale.
pub open spec fn decimal_suffix(p: int) -> Seq<char> {
    if p <= 0 {
        Seq::<char>::empty()
    } else if p == 1 {
        "K"@
    } else if p == 2 {
        "M"@
    } else if p == 3 {
        "G"@
    } else if p == 4 {
        "T"@
    } else {
        "P"@
    }
}

/// `n` scaled down by `d`, in tenths, rounded half away from zero.
pub open spec fn rounded_tenths(n: u64, d: int) -> int {
    let q = (n * 10) / d;
    let r = (n * 10) % d;
    if 2 * r >= d {
        q + 1
    } else {
        q
    }
}

/// A number rendered with one decimal place at its decimal scale, with the
/// scale's unit prefix.
pub open spec fn spec_human_decimal(n: u64) -> Seq<char> {
    let t = rounded_tenths(n, decimal_divisor(decimal_scale(n)));
    dec_digits(t / 10) + seq!['.'] + seq![digit_char(t % 10)] + decimal_suffix(decimal_scale(n))
}

/// A byte count in human-readable decimal (power-of-1000) units, one decimal
/// place.  Numbers of a fourth of an exabyte and beyond exceed the available
/// unit prefixes.
pub fn human_num_decimal(num: u64) -> (r: String)
    requires
        num < 1000000000000000000,
    ensures
        r@ == spec_human_decimal(num),
{
    let div: u64 = if num < 1000 {
        1
    } else if num < 1000000 {
        1000
    } else if num < 1000000000 {
        1000000
    } else if num < 1000000000000 {
        1000000000
    } else if num < 1000000000000000 {
        1000000000000
    } else {
        1000000000000000
    };
    let suffix: &'static str = if num < 1000 {
        proof {
            reveal_strlit("");
            assert(""@ =~= Seq::<char>::empty());
        }
        ""
    } else if num < 1000000 {
        "K"
    } else if num < 1000000000 {
        "M"
    } else if num < 1000000000000 {
        "G"
    } else if num < 1000000000000000 {
        "T"
    } else {
        "P"
    };
    let tenfold = num * 10;
    let q = tenfold / div;
    let rm = tenfold % div;
    let t = if 2 * rm >= div {
        q + 1
    } else {
        q
    };
    let mut s = u64_to_string(t / 10);
    proof {
        reveal_strlit(".");
        assert("."@ =~= seq!['.']);
    }
    s.append(".");
    s.append(digit_str(t % 10));
    s.append(suffix);
    s
}

/// The scale a binary-unit rendering of `n` uses: the largest power of 1024
/// not above `n`, capped at the prefixes available.
pub open spec fn binary_scale(n: u64) -> int {
    if n < 1024 {
        0
    } else if n < 1048576 {
        1
    } else if n < 1073741824 {
        2
    } else if n < 1099511627776 {
        3
    } else if n < 1125899906842624 {
        4
    } else {
        5
    }
}

/// 1024 raised to a scale between 0 and 5.
pub open spec fn binary_divisor(p: int) -> int {
    if p <= 0 {
        1
    } else if p == 1 {
        1024
    } else if p == 2 {
        1048576
    } else if p == 3 {
        1073741824
    } else if p == 4 {
        1099511627776
    } else {
        1125899906842624
    }
}

/// The unit prefix of a binary scale.
pub open spec fn binary_suffix(p: int) -> Seq<char> {
    if p <= 0 {
        Seq::<char>::empty()
    } else if p == 1 {
        "Ki"@
    } else if p == 2 {
        "Mi"@
    } else if p == 3 {
        "Gi"@
    } else if p == 4 {
        "Ti"@
    } else {
        "Pi"@
    }
}

/// A number rendered with one decimal place at its binary scale, with the
/// scale's unit prefix.
pub open spec fn spec_human_binary(n: u64) -> Seq<char> {
    let t = rounded_tenths(n, binary_divisor(binary_scale(n)));
    dec_digits(t / 10) + seq!['.'] + seq![digit_char(t % 10)] + binary_suffix(binary_scale(n))
}

/// A byte count in human-readable binary (power-of-1024) units, one decimal
/// place.  Numbers of an exbibyte and beyond exceed the available unit
/// prefixes.
pub fn human_num_binary(num: u64) -> (r: String)
    requires
        num < 1152921504606846976,
    ensures
        r@ == spec_human_binary(num),
{
    let div: u64 = if num < 1024 {
        1
    } else if num < 1048576 {
        1024
    } else if num < 1073741824 {
        1048576
    } else if num < 1099511627776 {
        1073741824
    } else if num < 1125899906842624 {
        1099511627776
    } else {
        1125899906842624
    };
    let suffix: &'static str = if num < 1024 {
        proof {
            reveal_strlit("");
            assert(""@ =~= Seq::<char>::empty());
        }
        ""
    } else if num < 1048576 {
        "Ki"
    } else if num < 1073741824 {
        "Mi"
    } else if num < 1099511627776 {
        "Gi"
    } else if num < 1125899906842624 {
        "Ti"
    } else {
        "Pi"
    };
    let tenfold = num * 10;
    let q = tenfold / div;
    let rm = tenfold % div;
    let t = if 2 * rm >= div {
        q + 1
    } else {
        q
    };
    let mut s = u64_to_string(t / 10);
    proof {
        reveal_strlit(".");
        assert("."@ =~= seq!['.']);
    }
    s.append(".");
    s.append(digit_str(t % 10));
    s.append(suffix);
    s
}

} // verus!
