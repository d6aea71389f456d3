//! Human-readable rendering of a byte count.
//!
//! Sizes below one kilobyte are printed as whole bytes (`512 B`); larger
//! sizes are scaled by the largest applicable binary unit and printed with
//! two decimals (`1.50 KB`, `1.00 GB`), the hundredths rounded to nearest
//! with ties to even. All arithmetic is exact integer arithmetic, so the
//! contract pins every character of the result.

use vstd::prelude::*;
use vstd::string::StringExecFns;

verus! {

/// Bytes per kilobyte.
pub const KB: u64 = 1024;

/// Bytes per megabyte.
pub const MB: u64 = 1024 * 1024;

/// Bytes per gigabyte.
pub const GB: u64 = 1024 * 1024 * 1024;

/// The decimal digit `d` as a character.
pub open spec fn digit_char(d: int) -> char {
    if d == 0 {
        '0'
    } else if d == 1 {
        '1'
    } else if d == 2 {
        '2'
    } else if d == 3 {
        '3'
    } else if d == 4 {
        '4'
    } else if d == 5 {
        '5'
    } else if d == 6 {
        '6'
    } else if d == 7 {
        '7'
    } else if d == 8 {
        '8'
    } else {
        '9'
    }
}

/// The decimal numeral of `n`, most significant digit first, no leading
/// zeros (except for `n == 0` itself).
pub open spec fn dec_digits(n: nat) -> Seq<char>
    decreases n,
{
    if n < 10 {
        seq![digit_char(n as int)]
    } else {
        dec_digits(n / 10).push(digit_char((n % 10) as int))
    }
}

/// `100 * size / div` rounded to the nearest integer, ties to even.
pub open spec fn scaled_hundredths(size: nat, div: nat) -> nat {
    let q = (100 * size) / div;
    let r = (100 * size) % div;
    if 2 * r > div {
        q + 1
    } else if 2 * r < div {
        q
    } else if q % 2 == 0 {
        q
    } else {
        q + 1
    }
}

/// The scaled rendering `<whole>.<hundredths>` of `size` against unit `div`.
pub open spec fn scaled_chars(size: nat, div: nat) -> Seq<char> {
    let h = scaled_hundredths(size, div);
    dec_digits(h / 100) + seq!['.', digit_char(((h / 10) % 10) as int), digit_char((h % 10) as int)]
}

/// The full rendering of a byte count: whole bytes below 1 KB, otherwise
/// scaled by the largest applicable unit with two decimals.
pub open spec fn spec_format_size(size: nat) -> Seq<char> {
    if size >= GB {
        scaled_chars(size, GB as nat) + seq![' ', 'G', 'B']
    } else if size >= MB {
        scaled_chars(size, MB as nat) + seq![' ', 'M', 'B']
    } else if size >= KB {
        scaled_chars(size, KB as nat) + seq![' ', 'K', 'B']
    } else {
        dec_digits(size) + seq![' ', 'B']
    }
}

/// One decimal digit as a string slice.
fn digit_str(d: u64) -> (s: &'static str)
    requires
        d < 10,
    ensures
        s@ == seq![digit_char(d as int)],
{
    if d == 0 {
        proof {
            reveal_strlit("0");
            assert("0"@ =~= seq![digit_char(0)]);
        }
        "0"
    } else if d == 1 {
        proof {
            reveal_strlit("1");
            assert("1"@ =~= seq![digit_char(1)]);
        }
        "1"
    } else if d == 2 {
        proof {
            reveal_strlit("2");
            assert("2"@ =~= seq![digit_char(2)]);
        }
        "2"
    } else if d == 3 {
        proof {
            reveal_strlit("3");
            assert("3"@ =~= seq![digit_char(3)]);
        }
        "3"
    } else if d == 4 {
        proof {
            reveal_strlit("4");
            assert("4"@ =~= seq![digit_char(4)]);
        }
        "4"
    } else if d == 5 {
        proof {
            reveal_strlit("5");
            assert("5"@ =~= seq![digit_char(5)]);
        }
        "5"
    } else if d == 6 {
        proof {
            reveal_strlit("6");
            assert("6"@ =~= seq![digit_char(6)]);
        }
        "6"
    } else if d == 7 {
        proof {
            reveal_strlit("7");
            assert("7"@ =~= seq![digit_char(7)]);
        }
        "7"
    } else if d == 8 {
        proof {
            reveal_strlit("8");
            assert("8"@ =~= seq![digit_char(8)]);
        }
        "8"
    } else {
        proof {
            reveal_strlit("9");
            assert("9"@ =~= seq![digit_char(9)]);
        }
        "9"
    }
}

/// Appends the decimal numeral of `n`.
fn push_decimal(out: &mut String, n: u64)
    ensures
        final(out)@ == old(out)@ + dec_digits(n as nat),
    decreases n,
{
    if n >= 10 {
        push_decimal(out, n / 10);
        out.append(digit_str(n % 10));
        proof {
            assert(out@ =~= old(out)@ + dec_digits(n as nat));
        }
    } else {
        out.append(digit_str(n));
        proof {
            assert(out@ =~= old(out)@ + dec_digits(n as nat));
        }
    }
}

/// Appends the scaled rendering of `size` against unit `div`.
fn push_scaled(out: &mut String, size: u64, div: u64)
    requires
        1024 <= div,
    ensures
        final(out)@ == old(out)@ + scaled_chars(size as nat, div as nat),
{
    let total: u128 = (size as u128) * 100;
    let d: u128 = div as u128;
    let q: u128 = total / d;
    let r: u128 = total % d;
    let h: u128 = if 2 * r > d {
        q + 1
    } else if 2 * r < d {
        q
    } else if q % 2 == 0 {
        q
    } else {
        q + 1
    };
    proof {
        assert(h as nat == scaled_hundredths(size as nat, div as nat));
        assert(total < 0x1_0000_0000_0000_0000_0000_0000u128);
        assert(q <= total / 1024) by {
            vstd::arithmetic::div_mod::lemma_div_is_ordered_by_denominator(
                total as int,
                1024,
                d as int,
            );
        }
        assert(h <= u64::MAX);
    }
    let h64: u64 = h as u64;
    push_decimal(out, h64 / 100);
    out.append(".");
    out.append(digit_str((h64 / 10) % 10));
    out.append(digit_str(h64 % 10));
    proof {
        reveal_strlit(".");
        assert("."@ =~= seq!['.']);
        assert((h64 / 100) as nat == scaled_hundredths(size as nat, div as nat) / 100);
        assert(((h64 / 10) % 10) as int == ((h as nat) / 10) % 10);
        assert((h64 % 10) as int == (h as nat) % 10);
        assert(out@ =~= old(out)@ + scaled_chars(size as nat, div as nat));
    }
}

/// Renders a byte count for people: whole bytes below 1 KB, otherwise the
/// size scaled by the largest applicable binary unit with exactly two
/// decimals, ties rounded to even.
pub fn format_size(size: u64) -> (s: String)
    ensures
        s@ == spec_format_size(size as nat),
{
    let mut out = String::new();
    if size >= GB {
        push_scaled(&mut out, size, GB);
        out.append(" GB");
        proof {
            reveal_strlit(" GB");
            assert(" GB"@ =~= seq![' ', 'G', 'B']);
            assert(out@ =~= spec_format_size(size as nat));
        }
    } else if size >= MB {
        push_scaled(&mut out, size, MB);
        out.append(" MB");
        proof {
            reveal_strlit(" MB");
            assert(" MB"@ =~= seq![' ', 'M', 'B']);
            assert(out@ =~= spec_format_size(size as nat));
        }
    } else if size >= KB {
        push_scaled(&mut out, size, KB);
        out.append(" KB");
        proof {
            reveal_strlit(" KB");
            assert(" KB"@ =~= seq![' ', 'K', 'B']);
            assert(out@ =~= spec_format_size(size as nat));
        }
    } else {
        push_decimal(&mut out, size);
        out.append(" B");
        proof {
            reveal_strlit(" B");
            assert(" B"@ =~= seq![' ', 'B']);
            assert(out@ =~= spec_format_size(size as nat));
        }
    }
    out
}

} // verus!
