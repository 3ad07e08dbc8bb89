use vstd::prelude::*;

verus! {

/// The family of units in which amounts of data are shown.
#[derive(Clone, Copy, Debug, PartialEq, Eq, Structural)]
pub enum UnitFamily {
    /// bytes, in powers of 2^10
    BinBytes,
    /// bits, in powers of 2^10
    BinBits,
    /// bytes, in powers of 10^3
    SiBytes,
    /// bits, in powers of 10^3
    SiBits,
}

impl Default for UnitFamily {
    fn default() -> (r: UnitFamily)
        ensures
            r == UnitFamily::BinBytes,
    {
        UnitFamily::BinBytes
    }
}

/// Options that decide how amounts are rendered.
#[derive(Clone, Copy, Debug)]
pub struct RenderOpts {
    pub unit_family: UnitFamily,
}

} // verus!
