use vstd::prelude::*;

verus! {

/// Where a tensor is placed.
#[derive(Clone, Copy, Debug, PartialEq, Eq, Structural)]
pub enum Device {
    /// General-purpose processor memory.
    Cpu,
    /// The memory of the GPU with the given ordinal.
    Cuda(usize),
}

impl Device {
    /// The GPU that the GPU runs use: ordinal zero.
    pub fn first_gpu() -> (d: Device)
        ensures
            d == Device::Cuda(0),
    {
        Device::Cuda(0)
    }
}

} // verus!
