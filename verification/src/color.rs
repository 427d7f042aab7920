//! Colours for showing a board on a terminal, as escape sequences.

use vstd::prelude::*;

verus! {

/// A colour by its red, green and blue parts.
#[derive(Clone, Copy, Debug, PartialEq, Eq, Structural)]
pub struct Color(pub u8, pub u8, pub u8);

/// The decimal digits of `n` as characters, without leading zeros.
pub open spec fn digits(n: nat) -> Seq<u8>
    decreases n,
{
    if n < 10 {
        seq![(n + 48) as u8]
    } else {
        digits(n / 10).push((n % 10 + 48) as u8)
    }
}

/// The escape sequence that switches the foreground to colour `c`: the
/// bytes of `ESC [ 3 8 ; 2 ;`, then red, green and blue in decimal with
/// `;` between them, then `m`.
pub open spec fn escape(c: Color) -> Seq<u8> {
    seq![27u8, 91u8, 51u8, 56u8, 59u8, 50u8, 59u8] + digits(c.0 as nat) + seq![59u8] + digits(
        c.1 as nat,
    ) + seq![59u8] + digits(c.2 as nat) + seq![109u8]
}

/// Appends the decimal digits of `n`.
pub fn push_number(buffer: &mut Vec<u8>, n: u128)
    ensures
        final(buffer)@ == old(buffer)@ + digits(n as nat),
    decreases n,
{
    if n >= 10 {
        push_number(buffer, n / 10);
    }
    buffer.push((n % 10) as u8 + 48);
    proof {
        assert(buffer@ =~= old(buffer)@ + digits(n as nat));
    }
}

impl Color {
    /// Appends the escape sequence that switches to this colour.
    pub fn write(&self, buffer: &mut Vec<u8>)
        ensures
            final(buffer)@ == old(buffer)@ + escape(*self),
    {
        buffer.push(27);
        buffer.push(91);
        buffer.push(51);
        buffer.push(56);
        buffer.push(59);
        buffer.push(50);
        buffer.push(59);
        push_number(buffer, self.0 as u128);
        buffer.push(59);
        push_number(buffer, self.1 as u128);
        buffer.push(59);
        push_number(buffer, self.2 as u128);
        buffer.push(109);
        proof {
            assert(buffer@ =~= old(buffer)@ + escape(*self));
        }
    }

    /// Makes `new` the current colour. The escape sequence is appended only
    /// where the colour changes.
    pub fn set(&mut self, buffer: &mut Vec<u8>, new: Color)
        ensures
            *final(self) == new,
            final(buffer)@ == if *old(self) == new {
                old(buffer)@
            } else {
                old(buffer)@ + escape(new)
            },
    {
        if *self == new {
        } else {
            *self = new;
            self.write(buffer);
        }
    }
}

} // verus!
