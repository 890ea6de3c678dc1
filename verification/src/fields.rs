//! The names under which the repetition ratios are reported.

use vstd::prelude::*;
use vstd::string::StringExecFns;

verus! {

/// The character of a decimal digit.
pub open spec fn digit_char(d: nat) -> char {
    if d == 0 {
        '0'
    } else if d == 1 {
        '1'
    } else if d == 2 {
        '2'
    } else if d == 3 {
        '3'
    } else if d == 4 {
        '4'
    } else if d == 5 {
        '5'
    } else if d == 6 {
        '6'
    } else if d == 7 {
        '7'
    } else if d == 8 {
        '8'
    } else {
        '9'
    }
}

/// The decimal numeral of `n`, without leading zeros.
pub open spec fn decimal_digits(n: nat) -> Seq<char>
    decreases n,
{
    if n < 10 {
        seq![digit_char(n)]
    } else {
        decimal_digits(n / 10).push(digit_char(n % 10))
    }
}

/// The name of the ratio at index `i`: `top_<i+1>_gram_char_ratio` below
/// `num_top`, `dup_<i+1>_gram_char_ratio` from there on.
pub open spec fn fieldname_spec(num_top: usize, i: usize) -> Seq<char> {
    (if i < num_top {
        "top_"@
    } else {
        "dup_"@
    }) + decimal_digits((i + 1) as nat) + "_gram_char_ratio"@
}

fn digit_str(d: usize) -> (s: &'static str)
    requires
        d < 10,
    ensures
        s@ == seq![digit_char(d as nat)],
{
    proof {
        reveal_strlit("0");
        reveal_strlit("1");
        reveal_strlit("2");
        reveal_strlit("3");
        reveal_strlit("4");
        reveal_strlit("5");
        reveal_strlit("6");
        reveal_strlit("7");
        reveal_strlit("8");
        reveal_strlit("9");
    }
    let s = if d == 0 {
        "0"
    } else if d == 1 {
        "1"
    } else if d == 2 {
        "2"
    } else if d == 3 {
        "3"
    } else if d == 4 {
        "4"
    } else if d == 5 {
        "5"
    } else if d == 6 {
        "6"
    } else if d == 7 {
        "7"
    } else if d == 8 {
        "8"
    } else {
        "9"
    };
    assert(s@ =~= seq![digit_char(d as nat)]);
    s
}

/// Writes `n` as a decimal numeral.
pub fn decimal(n: usize) -> (s: String)
    ensures
        s@ == decimal_digits(n as nat),
{
    let mut acc: String = String::from_str(digit_str(n % 10));
    let mut rest: usize = n / 10;
    while rest > 0
        invariant
            decimal_digits(n as nat) == (if rest > 0 {
                decimal_digits(rest as nat) + acc@
            } else {
                acc@
            }),
        decreases rest,
    {
        let head: String = String::from_str(digit_str(rest % 10));
        proof {
            if rest >= 10 {
                assert(decimal_digits(rest as nat) + acc@ =~= decimal_digits((rest / 10) as nat)
                    + (head@ + acc@));
            } else {
                assert(decimal_digits(rest as nat) + acc@ =~= head@ + acc@);
            }
        }
        acc = head.concat(acc.as_str());
        rest = rest / 10;
    }
    acc
}

/// The name of the ratio at index `i` of `num_dup` ratios, of which the
/// first `num_top` are top-gram ratios.
pub fn fieldname(num_top: usize, num_dup: usize, i: usize) -> (name: String)
    requires
        i < num_dup,
    ensures
        name@ == fieldname_spec(num_top, i),
{
    let mut name: String = if i < num_top {
        String::from_str("top_")
    } else {
        String::from_str("dup_")
    };
    let number: String = decimal(i + 1);
    name.append(number.as_str());
    name.append("_gram_char_ratio");
    name
}

} // verus!
