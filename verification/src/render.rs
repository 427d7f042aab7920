//! What is written to a terminal to show a board: the frame, one cell,
//! and the movements of the cursor. Writing it is left to the caller.

use vstd::prelude::*;
use crate::board::{count_color, GameBoard};
use crate::color::{digits, escape, push_number, Color};
use crate::grid::cell;

verus! {

/// The sequence that moves the cursor to a row and a column: `ESC [`, the
/// row, `;`, the column, `H`.
pub open spec fn cursor(row: nat, col: nat) -> Seq<u8> {
    seq![27u8, 91u8] + digits(row) + seq![59u8] + digits(col) + seq![72u8]
}

/// `n` copies of `s`, one after the other.
pub open spec fn repeated(s: Seq<u8>, n: nat) -> Seq<u8>
    decreases n,
{
    if n == 0 {
        Seq::empty()
    } else {
        repeated(s, (n - 1) as nat) + s
    }
}

/// The top or bottom line of the frame: `+-`, two dashes for each column,
/// `+` and a line feed.
pub open spec fn rule(width: nat) -> Seq<u8> {
    seq![43u8, 45u8] + repeated(seq![45u8, 45u8], width) + seq![43u8, 10u8]
}

/// One empty line inside the frame: `| `, two blanks for each column, `|`
/// and a line feed.
pub open spec fn blank_row(width: nat) -> Seq<u8> {
    seq![124u8, 32u8] + repeated(seq![32u8, 32u8], width) + seq![124u8, 10u8]
}

/// The empty frame of a board, drawn from the top left corner of the
/// screen.
pub open spec fn frame_text(width: nat, height: nat) -> Seq<u8> {
    cursor(0, 0) + rule(width) + repeated(blank_row(width), height) + rule(width)
}

/// White, the colour that the screen is left in.
pub open spec fn white() -> Color {
    Color(255, 255, 255)
}

/// The switch to colour `c` when the screen is in white: nothing for white
/// itself.
pub open spec fn paint(c: Color) -> Seq<u8> {
    if c == white() {
        Seq::empty()
    } else {
        escape(c)
    }
}

/// The switch back to white from colour `c`: nothing for white itself.
pub open spec fn unpaint(c: Color) -> Seq<u8> {
    if c == white() {
        Seq::empty()
    } else {
        escape(white())
    }
}

/// Appends the sequence that moves the cursor.
pub fn push_cursor(buffer: &mut Vec<u8>, row: u128, col: u128)
    ensures
        final(buffer)@ == old(buffer)@ + cursor(row as nat, col as nat),
{
    buffer.push(27);
    buffer.push(91);
    push_number(buffer, row);
    buffer.push(59);
    push_number(buffer, col);
    buffer.push(72);
    proof {
        assert(buffer@ =~= old(buffer)@ + cursor(row as nat, col as nat));
    }
}

/// Appends `n` copies of the two bytes `a`, `b`.
fn push_pairs(buffer: &mut Vec<u8>, a: u8, b: u8, n: usize)
    ensures
        final(buffer)@ == old(buffer)@ + repeated(seq![a, b], n as nat),
{
    let mut i: usize = 0;
    proof {
        assert(buffer@ =~= old(buffer)@ + repeated(seq![a, b], 0));
    }
    while i < n
        invariant
            0 <= i <= n,
            buffer@ == old(buffer)@ + repeated(seq![a, b], i as nat),
        decreases n - i,
    {
        buffer.push(a);
        buffer.push(b);
        i += 1;
        proof {
            assert(buffer@ =~= old(buffer)@ + repeated(seq![a, b], i as nat));
        }
    }
}

/// Appends a top or bottom line of the frame.
fn push_rule(buffer: &mut Vec<u8>, width: usize)
    ensures
        final(buffer)@ == old(buffer)@ + rule(width as nat),
{
    buffer.push(43);
    buffer.push(45);
    push_pairs(buffer, 45, 45, width);
    buffer.push(43);
    buffer.push(10);
    proof {
        assert(buffer@ =~= old(buffer)@ + rule(width as nat));
    }
}

/// The empty frame of a board of the given shape.
pub fn frame(width: usize, height: usize) -> (r: Vec<u8>)
    ensures
        r@ == frame_text(width as nat, height as nat),
{
    let mut buffer: Vec<u8> = Vec::new();
    push_cursor(&mut buffer, 0, 0);
    push_rule(&mut buffer, width);
    let ghost head = buffer@;
    let mut y: usize = 0;
    proof {
        assert(buffer@ =~= head + repeated(blank_row(width as nat), 0));
    }
    while y < height
        invariant
            0 <= y <= height,
            buffer@ == head + repeated(blank_row(width as nat), y as nat),
        decreases height - y,
    {
        buffer.push(124);
        buffer.push(32);
        push_pairs(&mut buffer, 32, 32, width);
        buffer.push(124);
        buffer.push(10);
        y += 1;
        proof {
            assert(buffer@ =~= head + repeated(blank_row(width as nat), y as nat));
        }
    }
    push_rule(&mut buffer, width);
    proof {
        assert(buffer@ =~= frame_text(width as nat, height as nat));
    }
    buffer
}

impl GameBoard {
    /// What shows the cell `c`, with the cursor already on it and the
    /// screen in white: nothing for a cell not revealed; `* ` in green for
    /// a mine; `_ ` for a safe cell with no mine around it; else the count
    /// in its colour and a blank. The screen is left in white.
    pub open spec fn shown(&self, c: (int, int)) -> Seq<u8> {
        if !self.revealed.at(c) {
            Seq::empty()
        } else if self.mine.at(c) {
            escape(Color(0, 255, 0)) + seq![42u8, 32u8] + escape(white())
        } else if self.count.at(c) == 0 {
            seq![95u8, 32u8]
        } else {
            let colour = count_color(self.count.at(c));
            paint(colour) + digits(self.count.at(c) as nat) + seq![32u8] + unpaint(colour)
        }
    }

    /// What is written to show the cell at `(x, y)`: the cursor moves to
    /// the cell's place inside the frame, two columns for each cell, and
    /// the cell is shown there.
    pub fn display(&self, x: usize, y: usize) -> (r: Vec<u8>)
        requires
            self.shaped(),
            self.has(cell((x, y))),
        ensures
            r@ == cursor((y + 2) as nat, (2 * x + 2) as nat) + self.shown(cell((x, y))),
    {
        let ghost c = cell((x, y));
        let mut buffer: Vec<u8> = Vec::new();
        let mut color = Color(255, 255, 255);
        push_cursor(&mut buffer, y as u128 + 2, x as u128 * 2 + 2);
        let ghost head = buffer@;
        if *self.revealed.index_2d(x, y) {
            if *self.mine.index_2d(x, y) {
                color.set(&mut buffer, Color(0, 255, 0));
                buffer.push(42);
                buffer.push(32);
            } else {
                let count = *self.count.index_2d(x, y);
                if count == 0 {
                    color.set(&mut buffer, Color(255, 255, 255));
                    buffer.push(95);
                    buffer.push(32);
                } else {
                    color.set(&mut buffer, GameBoard::count_to_color(count));
                    push_number(&mut buffer, count as u128);
                    buffer.push(32);
                }
            }
        }
        color.set(&mut buffer, Color(255, 255, 255));
        proof {
            assert(buffer@ =~= head + self.shown(c));
        }
        buffer
    }

    /// What is written to put the text `s` at the place of the cell at
    /// `(x, y)`.
    pub fn draw(&self, x: usize, y: usize, s: &Vec<u8>) -> (r: Vec<u8>)
        ensures
            r@ == cursor((y + 2) as nat, (2 * x + 2) as nat) + s@,
    {
        let mut buffer: Vec<u8> = Vec::new();
        push_cursor(&mut buffer, y as u128 + 2, x as u128 * 2 + 2);
        let ghost head = buffer@;
        let mut i: usize = 0;
        proof {
            assert(buffer@ =~= head + s@.subrange(0, 0));
        }
        while i < s.len()
            invariant
                0 <= i <= s@.len(),
                buffer@ == head + s@.subrange(0, i as int),
            decreases s@.len() - i,
        {
            buffer.push(s[i]);
            i += 1;
            proof {
                assert(buffer@ =~= head + s@.subrange(0, i as int));
            }
        }
        proof {
            assert(s@.subrange(0, s@.len() as int) =~= s@);
        }
        buffer
    }

    /// What is written to park the cursor below the frame.
    pub fn reset_write_head(&self) -> (r: Vec<u8>)
        ensures
            r@ == cursor((self.height + 2) as nat, 0),
    {
        let mut buffer: Vec<u8> = Vec::new();
        push_cursor(&mut buffer, self.height as u128 + 2, 0);
        buffer
    }
}

} // verus!
