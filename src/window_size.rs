use vstd::prelude::*;

verus! {

/// The size of the sliding window that a stream was compressed with.
#[derive(Debug, Clone, Copy, PartialEq, Eq, Structural)]
pub enum WindowSize {
    KB32,
    KB64,
    KB128,
    KB256,
    KB512,
    MB1,
    MB2,
}

impl WindowSize {
    /// The window's capacity in bytes.
    pub open spec fn spec_value(self) -> nat {
        match self {
            WindowSize::KB32 => 0x8000,
            WindowSize::KB64 => 0x1_0000,
            WindowSize::KB128 => 0x2_0000,
            WindowSize::KB256 => 0x4_0000,
            WindowSize::KB512 => 0x8_0000,
            WindowSize::MB1 => 0x10_0000,
            WindowSize::MB2 => 0x20_0000,
        }
    }

    /// The number of position slots that offsets within the window need.
    pub open spec fn spec_position_slots(self) -> nat {
        match self {
            WindowSize::KB32 => 30,
            WindowSize::KB64 => 32,
            WindowSize::KB128 => 34,
            WindowSize::KB256 => 36,
            WindowSize::KB512 => 38,
            WindowSize::MB1 => 42,
            WindowSize::MB2 => 50,
        }
    }

    /// The window's capacity in bytes.
    pub fn value(&self) -> (r: usize)
        ensures
            r == self.spec_value(),
    {
        match self {
            WindowSize::KB32 => 0x8000,
            WindowSize::KB64 => 0x1_0000,
            WindowSize::KB128 => 0x2_0000,
            WindowSize::KB256 => 0x4_0000,
            WindowSize::KB512 => 0x8_0000,
            WindowSize::MB1 => 0x10_0000,
            WindowSize::MB2 => 0x20_0000,
        }
    }

    /// The number of position slots that offsets within the window need.
    pub fn position_slots(&self) -> (r: usize)
        ensures
            r == self.spec_position_slots(),
    {
        match self {
            WindowSize::KB32 => 30,
            WindowSize::KB64 => 32,
            WindowSize::KB128 => 34,
            WindowSize::KB256 => 36,
            WindowSize::KB512 => 38,
            WindowSize::MB1 => 42,
            WindowSize::MB2 => 50,
        }
    }

    /// The size of the main tree's alphabet: 256 literals and 8 length headers per slot.
    pub fn main_tree_size(&self) -> (r: usize)
        ensures
            r == 256 + 8 * self.spec_position_slots(),
    {
        256 + 8 * self.position_slots()
    }
}

} // verus!
