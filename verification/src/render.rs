//! The lines of a listing: the rendered form of an instruction, or the bare
//! address in hexadecimal where nothing was decoded.

use vstd::prelude::*;
use vstd::string::StringExecFns;

use crate::address_map::FormView;

verus! {

/// The hexadecimal digit of a value below sixteen, in lower case.
pub open spec fn hex_digit(d: nat) -> char {
    if d == 0 {
        '0'
    } else if d == 1 {
        '1'
    } else if d == 2 {
        '2'
    } else if d == 3 {
        '3'
    } else if d == 4 {
        '4'
    } else if d == 5 {
        '5'
    } else if d == 6 {
        '6'
    } else if d == 7 {
        '7'
    } else if d == 8 {
        '8'
    } else if d == 9 {
        '9'
    } else if d == 10 {
        'a'
    } else if d == 11 {
        'b'
    } else if d == 12 {
        'c'
    } else if d == 13 {
        'd'
    } else if d == 14 {
        'e'
    } else {
        'f'
    }
}

/// The hexadecimal digits of `n`, most significant first, without leading zeros.
pub open spec fn hex_digits(n: nat) -> Seq<char>
    decreases n,
{
    if n < 16 {
        seq![hex_digit(n)]
    } else {
        hex_digits(n / 16).push(hex_digit(n % 16))
    }
}

/// The marker of an address without a decoded form: `0x` and the digits.
pub open spec fn hex_marker(address: u64) -> Seq<char> {
    seq!['0', 'x'] + hex_digits(address as nat)
}

/// The line that the listing shows for one entry of the instruction map.
pub open spec fn line_of(address: u64, record: Option<FormView>) -> Seq<char> {
    match record {
        Some(form) => form.text,
        None => hex_marker(address),
    }
}

fn digit_text(d: u64) -> (text: &'static str)
    requires
        d < 16,
    ensures
        text@ == seq![hex_digit(d as nat)],
{
    proof {
        reveal_strlit("0");
        reveal_strlit("1");
        reveal_strlit("2");
        reveal_strlit("3");
        reveal_strlit("4");
        reveal_strlit("5");
        reveal_strlit("6");
        reveal_strlit("7");
        reveal_strlit("8");
        reveal_strlit("9");
        reveal_strlit("a");
        reveal_strlit("b");
        reveal_strlit("c");
        reveal_strlit("d");
        reveal_strlit("e");
        reveal_strlit("f");
    }
    let text = if d == 0 {
        "0"
    } else if d == 1 {
        "1"
    } else if d == 2 {
        "2"
    } else if d == 3 {
        "3"
    } else if d == 4 {
        "4"
    } else if d == 5 {
        "5"
    } else if d == 6 {
        "6"
    } else if d == 7 {
        "7"
    } else if d == 8 {
        "8"
    } else if d == 9 {
        "9"
    } else if d == 10 {
        "a"
    } else if d == 11 {
        "b"
    } else if d == 12 {
        "c"
    } else if d == 13 {
        "d"
    } else if d == 14 {
        "e"
    } else {
        "f"
    };
    assert(text@ =~= seq![hex_digit(d as nat)]);
    text
}

fn append_hex(line: &mut String, n: u64)
    ensures
        final(line)@ == old(line)@ + hex_digits(n as nat),
    decreases n,
{
    if n >= 16 {
        append_hex(line, n / 16);
    }
    line.append(digit_text(n % 16));
    assert(line@ =~= old(line)@ + hex_digits(n as nat));
}

/// Renders the marker of an address: `0x` and its hexadecimal digits.
pub fn render_marker(address: u64) -> (line: String)
    ensures
        line@ == hex_marker(address),
{
    proof {
        reveal_strlit("0x");
    }
    let mut line = String::from_str("0x");
    append_hex(&mut line, address);
    assert(line@ =~= hex_marker(address));
    line
}

} // verus!
