use vstd::prelude::*;

verus! {

/// One cell of an incidence cube.
///
/// `On` marks the symbol chosen for a row/column pair, `Off` an unchosen
/// one, and `Improper` the single transient flaw that the random walk may
/// carry from one move to the next.
#[derive(Copy, Clone, Debug, PartialEq, Eq, Structural)]
pub enum CubeEntry {
    On,
    Off,
    Improper,
}

/// The numeric weight of a cell: `On` counts 1, `Off` counts 0 and
/// `Improper` counts -1, so that every axis line of a cube in a legal
/// state weighs exactly 1.
pub open spec fn entry_val(e: CubeEntry) -> int {
    match e {
        CubeEntry::On => 1,
        CubeEntry::Off => 0,
        CubeEntry::Improper => -1,
    }
}

impl CubeEntry {
    /// One step down: `On` to `Off`, `Off` to `Improper`. Stepping below
    /// `Improper` would mean the walk broke its invariant, so that input
    /// is excluded here.
    pub fn toggle_off(&self) -> (r: CubeEntry)
        requires
            !(*self is Improper),
        ensures
            entry_val(r) == entry_val(*self) - 1,
    {
        if let CubeEntry::On = self {
            CubeEntry::Off
        } else {
            CubeEntry::Improper
        }
    }

    /// One step up: `Improper` to `Off`, `Off` to `On`. Stepping above
    /// `On` would mean the walk broke its invariant, so that input is
    /// excluded here.
    pub fn toggle_on(&self) -> (r: CubeEntry)
        requires
            !(*self is On),
        ensures
            entry_val(r) == entry_val(*self) + 1,
    {
        if let CubeEntry::Improper = self {
            CubeEntry::Off
        } else {
            CubeEntry::On
        }
    }

    /// The cell as the signed count used by the plus/minus-one moves.
    pub fn as_int(&self) -> (r: i32)
        ensures
            r as int == entry_val(*self),
    {
        match self {
            CubeEntry::On => 1,
            CubeEntry::Off => 0,
            CubeEntry::Improper => -1,
        }
    }
}

} // verus!
