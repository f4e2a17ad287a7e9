//! Rows and boards as text: each exponent in decimal, at least two wide.
use super::row::ArrayRow;
use super::row::CachedRow;
use super::row::Row;
use super::State;
use vstd::prelude::*;
use vstd::string::StringExecFns;

verus! {

/// The character of the decimal digit `d`.
pub open spec fn digit(d: int) -> char {
    if d == 0 {
        '0'
    } else if d == 1 {
        '1'
    } else if d == 2 {
        '2'
    } else if d == 3 {
        '3'
    } else if d == 4 {
        '4'
    } else if d == 5 {
        '5'
    } else if d == 6 {
        '6'
    } else if d == 7 {
        '7'
    } else if d == 8 {
        '8'
    } else {
        '9'
    }
}

/// The exponent `x` in decimal, with a blank before a single digit.
pub open spec fn cell_text(x: int) -> Seq<char> {
    if x < 10 {
        seq![' ', digit(x)]
    } else if x < 100 {
        seq![digit(x / 10), digit(x % 10)]
    } else {
        seq![digit(x / 100), digit(x / 10 % 10), digit(x % 10)]
    }
}

/// The four exponents of a row, with a blank between two of them.
pub open spec fn row_text(cells: Seq<int>) -> Seq<char> {
    cell_text(cells[0]) + seq![' '] + cell_text(cells[1]) + seq![' '] + cell_text(cells[2]) + seq![
        ' ',
    ] + cell_text(cells[3])
}

/// The first `n` rows of a board, each followed by a line feed.
pub open spec fn board_text(board: Seq<int>, n: int) -> Seq<char>
    decreases n,
{
    if n <= 0 {
        Seq::empty()
    } else {
        board_text(board, n - 1) + row_text(super::board_row(board, n - 1)) + seq!['\n']
    }
}

fn digit_str(d: u8) -> (r: &'static str)
    requires
        d < 10,
    ensures
        r@ == seq![digit(d as int)],
{
    proof {
        reveal_strlit("0");
        reveal_strlit("1");
        reveal_strlit("2");
        reveal_strlit("3");
        reveal_strlit("4");
        reveal_strlit("5");
        reveal_strlit("6");
        reveal_strlit("7");
        reveal_strlit("8");
        reveal_strlit("9");
    }
    let r = match d {
        0 => "0",
        1 => "1",
        2 => "2",
        3 => "3",
        4 => "4",
        5 => "5",
        6 => "6",
        7 => "7",
        8 => "8",
        _ => "9",
    };
    assert(r@ =~= seq![digit(d as int)]);
    r
}

fn push_cell(out: &mut String, x: u8)
    ensures
        final(out)@ == old(out)@ + cell_text(x as int),
{
    proof {
        reveal_strlit(" ");
    }
    if x < 10 {
        out.append(" ");
        out.append(digit_str(x));
        assert(out@ =~= old(out)@ + cell_text(x as int));
    } else if x < 100 {
        out.append(digit_str(x / 10));
        out.append(digit_str(x % 10));
        assert(out@ =~= old(out)@ + cell_text(x as int));
    } else {
        out.append(digit_str(x / 100));
        out.append(digit_str(x / 10 % 10));
        out.append(digit_str(x % 10));
        assert(out@ =~= old(out)@ + cell_text(x as int));
    }
}

fn push_row(out: &mut String, row: &ArrayRow)
    ensures
        final(out)@ == old(out)@ + row_text(row.cells()),
{
    proof {
        reveal_strlit(" ");
    }
    push_cell(out, row.0[0]);
    out.append(" ");
    push_cell(out, row.0[1]);
    out.append(" ");
    push_cell(out, row.0[2]);
    out.append(" ");
    push_cell(out, row.0[3]);
    assert(out@ =~= old(out)@ + row_text(row.cells()));
}

impl ArrayRow {
    /// The row as text.
    pub fn to_string(&self) -> (r: String)
        ensures
            r@ == row_text(self.cells()),
    {
        let mut out = String::new();
        push_row(&mut out, self);
        assert(out@ =~= row_text(self.cells()));
        out
    }
}

impl CachedRow {
    /// The row as text.
    pub fn to_string(&self) -> (r: String)
        ensures
            r@ == row_text(self.cells()),
    {
        self.to_array().to_string()
    }
}

impl State {
    /// The board as text, one line for each row.
    pub fn to_string(&self) -> (r: String)
        ensures
            r@ == board_text(self.cells(), 4),
    {
        let mut out = String::new();
        for i in 0..4usize
            invariant
                out@ == board_text(self.cells(), i as int),
        {
            let row = self.0[i].to_array();
            proof {
                reveal_strlit("\n");
                assert(row.cells() =~= super::board_row(self.cells(), i as int));
            }
            push_row(&mut out, &row);
            out.append("\n");
        }
        out
    }
}

} // verus!
