//! Extended permission ranges (ioctl command numbers).

use vstd::prelude::*;

use crate::text::{hex4, push_hex4};

verus! {

/// The text of a range: `{ 0xLLLL }` for one value, `{ 0xLLLL-0xHHHH }`
/// for more, upper-case digits, after a `~` for a complement.
pub open spec fn xperm_text(x: Xperm) -> Seq<char> {
    (if x.reset {
        "~"@
    } else {
        seq![]
    }) + if x.low == x.high {
        "{ 0x"@ + hex4(x.low) + " }"@
    } else {
        "{ 0x"@ + hex4(x.low) + "-0x"@ + hex4(x.high) + " }"@
    }
}

/// Extended permission range for ioctl operations.
#[derive(Debug, Clone, Copy, PartialEq, Eq, Hash, Structural)]
pub struct Xperm {
    /// Low value of the range
    pub low: u16,
    /// High value of the range
    pub high: u16,
    /// Whether this is a complement (exclude) range
    pub reset: bool,
}

impl Xperm {
    /// Create a new Xperm.
    pub fn new(low: u16, high: u16, reset: bool) -> (x: Self)
        ensures
            x == (Xperm { low, high, reset }),
    {
        Xperm { low, high, reset }
    }

    /// Create a single-value Xperm.
    pub fn single(value: u16) -> (x: Self)
        ensures
            x == (Xperm { low: value, high: value, reset: false }),
    {
        Xperm { low: value, high: value, reset: false }
    }

    /// Create a range Xperm.
    pub fn range(low: u16, high: u16) -> (x: Self)
        ensures
            x == (Xperm { low, high, reset: false }),
    {
        Xperm { low, high, reset: false }
    }

    /// Create a complement Xperm (exclude range).
    pub fn complement(low: u16, high: u16) -> (x: Self)
        ensures
            x == (Xperm { low, high, reset: true }),
    {
        Xperm { low, high, reset: true }
    }

    /// Create an all-permissions Xperm.
    pub fn all() -> (x: Self)
        ensures
            x == (Xperm { low: 0x0000, high: 0xFFFF, reset: false }),
    {
        Xperm { low: 0x0000, high: 0xFFFF, reset: false }
    }

    /// The range as text: `{ 0xLLLL }` or `{ 0xLLLL-0xHHHH }`, with
    /// upper-case digits, after a `~` for a complement.
    pub fn to_text(&self) -> (r: String)
        ensures
            r@ == xperm_text(*self),
    {
        let mut r = if self.reset {
            String::from_str("~")
        } else {
            String::new()
        };
        r.append("{ 0x");
        push_hex4(&mut r, self.low);
        if self.low != self.high {
            r.append("-0x");
            push_hex4(&mut r, self.high);
        }
        r.append(" }");
        r
    }

    /// Check if a value is in the range.
    pub fn contains(&self, value: u16) -> (b: bool)
        ensures
            b == (self.low <= value <= self.high),
    {
        value >= self.low && value <= self.high
    }
}

} // verus!
