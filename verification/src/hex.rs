//! Bytes written out as hexadecimal text.

use vstd::prelude::*;
use vstd::string::StringExecFns;

verus! {

/// The upper-case hexadecimal digit for a value below sixteen.
pub open spec fn hex_digit(n: int) -> char {
    if n < 10 {
        (48 + n) as char
    } else {
        (55 + n) as char
    }
}

/// `bytes` as text: two upper-case hexadecimal digits for each byte, and one
/// space between neighbours.
pub open spec fn hex_text(bytes: Seq<u8>) -> Seq<char> {
    Seq::new(
        if bytes.len() == 0 {
            0nat
        } else {
            (3 * bytes.len() - 1) as nat
        },
        |p: int|
            if p % 3 == 0 {
                hex_digit(bytes[p / 3] as int / 16)
            } else if p % 3 == 1 {
                hex_digit(bytes[p / 3] as int % 16)
            } else {
                ' '
            },
    )
}

/// The digit for `n` as a string of one character.
fn hex_digit_str(n: u8) -> (digit: &'static str)
    requires
        n < 16,
    ensures
        digit@ == seq![hex_digit(n as int)],
{
    proof {
        reveal_strlit("0");
        reveal_strlit("1");
        reveal_strlit("2");
        reveal_strlit("3");
        reveal_strlit("4");
        reveal_strlit("5");
        reveal_strlit("6");
        reveal_strlit("7");
        reveal_strlit("8");
        reveal_strlit("9");
        reveal_strlit("A");
        reveal_strlit("B");
        reveal_strlit("C");
        reveal_strlit("D");
        reveal_strlit("E");
        reveal_strlit("F");
    }
    let digit = match n {
        0 => "0",
        1 => "1",
        2 => "2",
        3 => "3",
        4 => "4",
        5 => "5",
        6 => "6",
        7 => "7",
        8 => "8",
        9 => "9",
        10 => "A",
        11 => "B",
        12 => "C",
        13 => "D",
        14 => "E",
        _ => "F",
    };
    assert(digit@ =~= seq![hex_digit(n as int)]);
    digit
}

/// Writes `bytes` out in hexadecimal.
pub fn bytes_to_hex(bytes: &[u8]) -> (text: String)
    ensures
        text@ == hex_text(bytes@),
{
    let mut text = String::new();
    let mut i: usize = 0;
    while i < bytes.len()
        invariant
            i <= bytes@.len(),
            text@ == hex_text(bytes@.take(i as int)),
        decreases bytes@.len() - i,
    {
        let ghost before = text@;
        if i > 0 {
            proof {
                reveal_strlit(" ");
            }
            text.append(" ");
        }
        let b: u8 = bytes[i];
        text.append(hex_digit_str(b / 16));
        text.append(hex_digit_str(b % 16));
        proof {
            let grown = hex_text(bytes@.take(i + 1));
            assert(text@.len() == grown.len());
            assert forall|p: int| 0 <= p < grown.len() implies text@[p] == grown[p] by {
                if p < before.len() {
                    assert(bytes@.take(i as int)[p / 3] == bytes@.take(i + 1)[p / 3]);
                } else if p >= 3 * i {
                    assert(p / 3 == i);
                    assert(bytes@.take(i + 1)[p / 3] == b);
                }
            }
            assert(text@ =~= grown);
        }
        i = i + 1;
    }
    proof {
        assert(bytes@.take(i as int) =~= bytes@);
    }
    text
}

} // verus!
