//! Decimal rendering of canonical (non-negative) values: the digit sequence
//! of a number, most significant digit first, and its executable form.

use vstd::prelude::*;
use vstd::string::StringExecFns;

verus! {

/// The character for one decimal digit.
pub open spec fn digit_char(d: int) -> char {
    if d == 1 {
        '1'
    } else if d == 2 {
        '2'
    } else if d == 3 {
        '3'
    } else if d == 4 {
        '4'
    } else if d == 5 {
        '5'
    } else if d == 6 {
        '6'
    } else if d == 7 {
        '7'
    } else if d == 8 {
        '8'
    } else if d == 9 {
        '9'
    } else {
        '0'
    }
}

/// The decimal rendering of a non-negative number, most significant digit
/// first, with no leading zeros (a single `'0'` for zero itself).
pub open spec fn dec_seq(n: int) -> Seq<char>
    decreases n,
{
    if n < 10 {
        seq![digit_char(n)]
    } else {
        dec_seq(n / 10).push(digit_char(n % 10))
    }
}

/// A rendered number is never empty, and has at most one digit per unit of
/// its magnitude (a loose bound that rules out overflow when counting).
pub proof fn lemma_dec_seq_len(n: int)
    ensures
        dec_seq(n).len() >= 1,
        n >= 0 ==> dec_seq(n).len() <= n + 1,
    decreases n,
{
    if n >= 10 {
        lemma_dec_seq_len(n / 10);
    }
}

/// The single-character string for one decimal digit.
pub fn digit_str(d: u32) -> (r: &'static str)
    requires
        d < 10,
    ensures
        r@ == seq![digit_char(d as int)],
{
    if d == 0 {
        proof {
            reveal_strlit("0");
            assert("0"@ =~= seq![digit_char(0)]);
        }
        "0"
    } else if d == 1 {
        proof {
            reveal_strlit("1");
            assert("1"@ =~= seq![digit_char(1)]);
        }
        "1"
    } else if d == 2 {
        proof {
            reveal_strlit("2");
            assert("2"@ =~= seq![digit_char(2)]);
        }
        "2"
    } else if d == 3 {
        proof {
            reveal_strlit("3");
            assert("3"@ =~= seq![digit_char(3)]);
        }
        "3"
    } else if d == 4 {
        proof {
            reveal_strlit("4");
            assert("4"@ =~= seq![digit_char(4)]);
        }
        "4"
    } else if d == 5 {
        proof {
            reveal_strlit("5");
            assert("5"@ =~= seq![digit_char(5)]);
        }
        "5"
    } else if d == 6 {
        proof {
            reveal_strlit("6");
            assert("6"@ =~= seq![digit_char(6)]);
        }
        "6"
    } else if d == 7 {
        proof {
            reveal_strlit("7");
            assert("7"@ =~= seq![digit_char(7)]);
        }
        "7"
    } else if d == 8 {
        proof {
            reveal_strlit("8");
            assert("8"@ =~= seq![digit_char(8)]);
        }
        "8"
    } else {
        proof {
            reveal_strlit("9");
            assert("9"@ =~= seq![digit_char(9)]);
        }
        "9"
    }
}

/// Render an unsigned number in decimal.
pub fn dec_string_u32(u: u32) -> (r: String)
    ensures
        r@ == dec_seq(u as int),
    decreases u,
{
    if u < 10 {
        let r = digit_str(u).to_owned();
        r
    } else {
        let mut s = dec_string_u32(u / 10);
        s.append(digit_str(u % 10));
        proof {
            assert(s@ =~= dec_seq(u as int));
        }
        s
    }
}

/// Render a canonical (non-negative) value in decimal.
pub fn dec_string(n: i32) -> (r: String)
    requires
        n >= 0,
    ensures
        r@ == dec_seq(n as int),
{
    dec_string_u32(n as u32)
}

/// The number of decimal digits of an unsigned number.
pub fn dec_width_u32(u: u32) -> (w: usize)
    ensures
        w == dec_seq(u as int).len(),
    decreases u,
{
    if u < 10 {
        1
    } else {
        let rest = dec_width_u32(u / 10);
        proof {
            lemma_dec_seq_len(u as int / 10);
        }
        rest + 1
    }
}

/// The number of decimal digits of a canonical (non-negative) value.
pub fn dec_width(n: i32) -> (w: usize)
    requires
        n >= 0,
    ensures
        w == dec_seq(n as int).len(),
{
    dec_width_u32(n as u32)
}

} // verus!
