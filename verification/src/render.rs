//! The board as text: nine lines of three groups of three cells, a blank
//! line after every third line, and `?` for an open cell.

use vstd::prelude::*;
use crate::board::{Cell, Field, SudBoard};

verus! {

/// `String::push` of std appends the character to the end of the string.
pub assume_specification[ String::push ](s: &mut String, ch: char)
    ensures
        final(s)@ == old(s)@.push(ch),
;

/// The character of a decimal digit.
pub open spec fn digit_char(d: int) -> char {
    if d == 0 {
        '0'
    } else if d == 1 {
        '1'
    } else if d == 2 {
        '2'
    } else if d == 3 {
        '3'
    } else if d == 4 {
        '4'
    } else if d == 5 {
        '5'
    } else if d == 6 {
        '6'
    } else if d == 7 {
        '7'
    } else if d == 8 {
        '8'
    } else {
        '9'
    }
}

/// The decimal digits of a natural number, without leading zeros.
pub open spec fn decimal(n: nat) -> Seq<char>
    decreases n,
{
    if n < 10 {
        seq![digit_char(n as int)]
    } else {
        decimal(n / 10).push(digit_char((n % 10) as int))
    }
}

/// A number in decimal, with a minus sign if it is negative.
pub open spec fn signed_decimal(n: int) -> Seq<char> {
    if n < 0 {
        seq!['-'] + decimal((-n) as nat)
    } else {
        decimal(n as nat)
    }
}

/// What stands for one cell: its digit, or `?` if it is open.
pub open spec fn cell_text(c: Cell) -> Seq<char> {
    match c {
        Cell::Value(n) => signed_decimal(n as int),
        Cell::Possible(_) => seq!['?'],
    }
}

/// What follows the cell at `i`: a space after every third cell, a line
/// break after every ninth, and one more after every twenty-seventh.
pub open spec fn gap_text(i: int) -> Seq<char> {
    (if i % 3 == 2 {
        seq![' ']
    } else {
        Seq::<char>::empty()
    }) + (if i % 9 == 8 {
        seq!['\n']
    } else {
        Seq::<char>::empty()
    }) + (if i % 27 == 26 {
        seq!['\n']
    } else {
        Seq::<char>::empty()
    })
}

/// The text of the first `n` cells.
pub open spec fn text_upto(g: Seq<Cell>, n: nat) -> Seq<char>
    decreases n,
{
    if n == 0 {
        Seq::<char>::empty()
    } else {
        text_upto(g, (n - 1) as nat) + cell_text(g[n - 1]) + gap_text(n - 1)
    }
}

/// The text of the whole board.
pub open spec fn board_text(g: Seq<Cell>) -> Seq<char> {
    text_upto(g, g.len())
}

/// The character of the decimal digit `d`.
fn digit(d: u8) -> (c: char)
    requires
        d < 10,
    ensures
        c == digit_char(d as int),
{
    if d == 0 {
        '0'
    } else if d == 1 {
        '1'
    } else if d == 2 {
        '2'
    } else if d == 3 {
        '3'
    } else if d == 4 {
        '4'
    } else if d == 5 {
        '5'
    } else if d == 6 {
        '6'
    } else if d == 7 {
        '7'
    } else if d == 8 {
        '8'
    } else {
        '9'
    }
}

/// Appends `n` in decimal.
fn push_number(out: &mut String, n: i8)
    ensures
        final(out)@ == old(out)@ + signed_decimal(n as int),
{
    let wide: i16 = n as i16;
    let size: i16 = if wide < 0 {
        out.push('-');
        -wide
    } else {
        wide
    };
    let m: u8 = size as u8;
    let ghost head = out@;
    proof {
        reveal_with_fuel(decimal, 3);
    }
    if m >= 100 {
        out.push(digit(m / 100));
    }
    if m >= 10 {
        out.push(digit(m / 10 % 10));
    }
    out.push(digit(m % 10));
    assert(out@ =~= head + decimal(m as nat));
    assert(out@ =~= old(out)@ + signed_decimal(n as int));
}

/// Renders the board as text.
pub fn render(sb: &SudBoard) -> (text: String)
    ensures
        text@ == board_text(sb@),
{
    let mut out = String::new();
    let mut i: usize = 0;
    assert(out@ =~= text_upto(sb@, 0));
    while i < sb.state.len()
        invariant
            i <= sb@.len(),
            sb@.len() == sb.state@.len(),
            out@ == text_upto(sb@, i as nat),
        decreases sb@.len() - i,
    {
        let ghost before = out@;
        match sb.get(i) {
            Field::Value(n) => {
                push_number(&mut out, *n);
            },
            Field::Possible(_) => {
                out.push('?');
            },
        }
        assert(out@ =~= before + cell_text(sb@[i as int]));
        let ghost mid = out@;
        if i % 3 == 2 {
            out.push(' ');
        }
        if i % 9 == 8 {
            out.push('\n');
        }
        if i % 27 == 26 {
            out.push('\n');
        }
        assert(out@ =~= mid + gap_text(i as int));
        i += 1;
    }
    out
}

} // verus!
