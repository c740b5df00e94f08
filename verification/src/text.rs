//! The text of edge symbols: hexadecimal and binary digits.

use vstd::prelude::*;
use vstd::string::StringExecFns;

verus! {

/// The digit for a value below 16, in lower case.
pub open spec fn digit(value: int) -> char {
    if value == 0 {
        '0'
    } else if value == 1 {
        '1'
    } else if value == 2 {
        '2'
    } else if value == 3 {
        '3'
    } else if value == 4 {
        '4'
    } else if value == 5 {
        '5'
    } else if value == 6 {
        '6'
    } else if value == 7 {
        '7'
    } else if value == 8 {
        '8'
    } else if value == 9 {
        '9'
    } else if value == 10 {
        'a'
    } else if value == 11 {
        'b'
    } else if value == 12 {
        'c'
    } else if value == 13 {
        'd'
    } else if value == 14 {
        'e'
    } else {
        'f'
    }
}

/// A symbol as two hexadecimal digits.
pub open spec fn hex_pair(symbol: u8) -> Seq<char> {
    seq![digit(symbol as int / 16), digit(symbol as int % 16)]
}

/// A symbol as hexadecimal digits without a leading zero.
pub open spec fn hex_short(symbol: u8) -> Seq<char> {
    if symbol < 16 {
        seq![digit(symbol as int)]
    } else {
        hex_pair(symbol)
    }
}

/// A number as binary digits without a leading zero.
pub open spec fn binary(value: nat) -> Seq<char>
    decreases value,
{
    if value < 2 {
        seq![digit(value as int)]
    } else {
        binary(value / 2).push(digit(value as int % 2))
    }
}

/// The digits of each symbol in turn, one after the other.
pub open spec fn digits_of(symbols: Seq<u8>, digits: spec_fn(u8) -> Seq<char>) -> Seq<char>
    decreases symbols.len(),
{
    if symbols.len() == 0 {
        Seq::empty()
    } else {
        digits_of(symbols.drop_last(), digits) + digits(symbols.last())
    }
}

/// The digit for `value` as a string of one character.
fn digit_str(value: u8) -> (text: &'static str)
    requires
        value < 16,
    ensures
        text@ == seq![digit(value as int)],
{
    proof {
        reveal_strlit("0");
        reveal_strlit("1");
        reveal_strlit("2");
        reveal_strlit("3");
        reveal_strlit("4");
        reveal_strlit("5");
        reveal_strlit("6");
        reveal_strlit("7");
        reveal_strlit("8");
        reveal_strlit("9");
        reveal_strlit("a");
        reveal_strlit("b");
        reveal_strlit("c");
        reveal_strlit("d");
        reveal_strlit("e");
        reveal_strlit("f");
    }
    let text = match value {
        0 => "0",
        1 => "1",
        2 => "2",
        3 => "3",
        4 => "4",
        5 => "5",
        6 => "6",
        7 => "7",
        8 => "8",
        9 => "9",
        10 => "a",
        11 => "b",
        12 => "c",
        13 => "d",
        14 => "e",
        _ => "f",
    };
    proof {
        assert(text@ =~= seq![digit(value as int)]);
    }
    text
}

/// Append a symbol as two hexadecimal digits.
pub(crate) fn push_hex_pair(text: &mut String, symbol: u8)
    ensures
        final(text)@ == old(text)@ + hex_pair(symbol),
{
    text.append(digit_str(symbol / 16));
    text.append(digit_str(symbol % 16));
    proof {
        assert(text@ =~= old(text)@ + hex_pair(symbol));
    }
}

/// Append a symbol as hexadecimal digits without a leading zero.
pub(crate) fn push_hex_short(text: &mut String, symbol: u8)
    ensures
        final(text)@ == old(text)@ + hex_short(symbol),
{
    if symbol < 16 {
        text.append(digit_str(symbol));
    } else {
        push_hex_pair(text, symbol);
    }
}

/// Append a symbol as binary digits without a leading zero.
pub(crate) fn push_binary(text: &mut String, symbol: u8)
    ensures
        final(text)@ == old(text)@ + binary(symbol as nat),
    decreases symbol,
{
    if symbol >= 2 {
        push_binary(text, symbol / 2);
    }
    text.append(digit_str(symbol % 2));
    proof {
        assert(text@ =~= old(text)@ + binary(symbol as nat));
    }
}

} // verus!
