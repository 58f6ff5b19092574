//! Names of the files that extracted messages are written to.

use vstd::prelude::*;
use vstd::string::StringExecFns;

verus! {

/// The character of the decimal digit `d`.
pub open spec fn digit_char(d: nat) -> char {
    if d == 0 {
        '0'
    } else if d == 1 {
        '1'
    } else if d == 2 {
        '2'
    } else if d == 3 {
        '3'
    } else if d == 4 {
        '4'
    } else if d == 5 {
        '5'
    } else if d == 6 {
        '6'
    } else if d == 7 {
        '7'
    } else if d == 8 {
        '8'
    } else {
        '9'
    }
}

/// `n` written in decimal digits, without leading zeros.
pub open spec fn decimal(n: nat) -> Seq<char>
    decreases n,
{
    if n < 10 {
        seq![digit_char(n)]
    } else {
        decimal(n / 10).push(digit_char(n % 10))
    }
}

/// The name of the file for message `index` of `count`: `base` itself
/// where there is one message only, else `base`, a dot and the index.
pub open spec fn output_name_spec(base: Seq<char>, index: nat, count: nat) -> Seq<char> {
    if count == 1 {
        base
    } else {
        base + seq!['.'] + decimal(index)
    }
}

/// The text of one decimal digit.
fn digit_text(d: usize) -> (text: &'static str)
    requires
        d < 10,
    ensures
        text@ == seq![digit_char(d as nat)],
{
    proof {
        reveal_strlit("0");
        reveal_strlit("1");
        reveal_strlit("2");
        reveal_strlit("3");
        reveal_strlit("4");
        reveal_strlit("5");
        reveal_strlit("6");
        reveal_strlit("7");
        reveal_strlit("8");
        reveal_strlit("9");
    }
    let text = if d == 0 {
        "0"
    } else if d == 1 {
        "1"
    } else if d == 2 {
        "2"
    } else if d == 3 {
        "3"
    } else if d == 4 {
        "4"
    } else if d == 5 {
        "5"
    } else if d == 6 {
        "6"
    } else if d == 7 {
        "7"
    } else if d == 8 {
        "8"
    } else {
        "9"
    };
    assert(text@ =~= seq![digit_char(d as nat)]);
    text
}

/// Appends `n` in decimal digits to `name`.
fn append_decimal(name: &mut String, n: usize)
    ensures
        final(name)@ == old(name)@ + decimal(n as nat),
    decreases n,
{
    if n >= 10 {
        append_decimal(name, n / 10);
    }
    name.append(digit_text(n % 10));
    assert(name@ =~= old(name)@ + decimal(n as nat));
}

/// The name of the file that message `index` of `count` is written to.
pub fn output_name(base: &str, index: usize, count: usize) -> (name: String)
    ensures
        name@ == output_name_spec(base@, index as nat, count as nat),
{
    let mut name = String::from_str(base);
    if count != 1 {
        proof {
            reveal_strlit(".");
        }
        name.append(".");
        assert(name@ =~= base@ + seq!['.']);
        append_decimal(&mut name, index);
    }
    name
}

} // verus!
