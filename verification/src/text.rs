//! The texts that the interpreter puts out: numbers in decimal, and the
//! message for a register that is printed before any command has created it.

use vstd::prelude::*;
use vstd::string::StringExecFns;

verus! {

/// The character that stands for a digit below ten.
pub open spec fn digit(d: nat) -> char {
    if d == 0 {
        '0'
    } else if d == 1 {
        '1'
    } else if d == 2 {
        '2'
    } else if d == 3 {
        '3'
    } else if d == 4 {
        '4'
    } else if d == 5 {
        '5'
    } else if d == 6 {
        '6'
    } else if d == 7 {
        '7'
    } else if d == 8 {
        '8'
    } else {
        '9'
    }
}

/// The decimal digits of a natural number, most significant first, with no
/// leading zero (zero itself is the single digit `0`).
pub open spec fn digits(n: nat) -> Seq<char>
    decreases n,
{
    if n < 10 {
        seq![digit(n)]
    } else {
        digits(n / 10).push(digit(n % 10))
    }
}

/// The decimal text of an integer: a minus sign for a negative one, then the
/// digits of its magnitude.
pub open spec fn decimal(i: int) -> Seq<char> {
    if i < 0 {
        seq!['-'] + digits((-i) as nat)
    } else {
        digits(i as nat)
    }
}

/// What printing the register `name` yields when the command at position
/// `index` finds the register unknown.
pub open spec fn uninitialized_text(name: Seq<char>, index: nat) -> Seq<char> {
    "Register "@ + name + " was uninitialized when command PRINT with index "@ + decimal(
        index as int,
    ) + " was executed."@
}

fn digit_text(d: usize) -> (text: &'static str)
    requires
        d < 10,
    ensures
        text@ == seq![digit(d as nat)],
{
    proof {
        reveal_strlit("0");
        reveal_strlit("1");
        reveal_strlit("2");
        reveal_strlit("3");
        reveal_strlit("4");
        reveal_strlit("5");
        reveal_strlit("6");
        reveal_strlit("7");
        reveal_strlit("8");
        reveal_strlit("9");
    }
    let text = if d == 0 {
        "0"
    } else if d == 1 {
        "1"
    } else if d == 2 {
        "2"
    } else if d == 3 {
        "3"
    } else if d == 4 {
        "4"
    } else if d == 5 {
        "5"
    } else if d == 6 {
        "6"
    } else if d == 7 {
        "7"
    } else if d == 8 {
        "8"
    } else {
        "9"
    };
    assert(text@ =~= seq![digit(d as nat)]);
    text
}

fn append_digits(out: &mut String, n: usize)
    ensures
        final(out)@ == old(out)@ + digits(n as nat),
    decreases n,
{
    if n >= 10 {
        append_digits(out, n / 10);
    }
    out.append(digit_text(n % 10));
    assert(final(out)@ =~= old(out)@ + digits(n as nat));
}

/// Writes a number in decimal, with a leading minus sign where it is
/// negative.
pub fn isize_to_string(n: isize) -> (text: String)
    ensures
        text@ == decimal(n as int),
{
    if n < 0 {
        let magnitude: usize = (-(n + 1)) as usize + 1;
        let mut text = String::from_str("-");
        proof {
            reveal_strlit("-");
        }
        append_digits(&mut text, magnitude);
        assert(text@ =~= decimal(n as int));
        text
    } else {
        let mut text = String::new();
        append_digits(&mut text, n as usize);
        assert(text@ =~= decimal(n as int));
        text
    }
}

/// The message for a print of the register `name`, at position `index` of
/// the command sequence, that finds the register unknown.
pub fn uninitialized_message(name: &String, index: usize) -> (text: String)
    ensures
        text@ == uninitialized_text(name@, index as nat),
{
    let mut text = String::from_str("Register ");
    text.append(name.as_str());
    text.append(" was uninitialized when command PRINT with index ");
    append_digits(&mut text, index);
    text.append(" was executed.");
    assert(text@ =~= uninitialized_text(name@, index as nat));
    text
}

} // verus!
