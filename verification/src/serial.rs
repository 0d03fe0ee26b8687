//! The NS16550A serial port: where its registers lie.

use vstd::prelude::*;

verus! {

/// An NS16550A UART whose registers start at `base`, register `k` lying at
/// `base + (k << shift)`.
pub struct Ns16550a {
    base: usize,
    shift: usize,
}

impl Ns16550a {
    /// Base address of the registers.
    pub closed spec fn base(&self) -> usize {
        self.base
    }

    /// Spacing of the registers, as a power of two.
    pub closed spec fn shift(&self) -> usize {
        self.shift
    }

    /// The port at `base` with register spacing `1 << shift`; the firmware has already set
    /// the device up.
    pub fn new(base: usize, shift: usize) -> (r: Ns16550a)
        ensures
            r.base() == base,
            r.shift() == shift,
    {
        Ns16550a { base, shift }
    }
}

} // verus!
