//! Sizes of I/O buffers.

use vstd::prelude::*;

verus! {

/// The size of a buffer: one of three standard sizes or a custom one.
#[derive(Debug, Clone, Copy, PartialEq, Eq, Structural)]
pub enum BufferSize {
    /// 4 KiB.
    Size4K,
    /// 16 KiB.
    Size16K,
    /// 64 KiB.
    Size64K,
    /// Any number of bytes.
    Custom(usize),
}

impl BufferSize {
    /// The number of bytes of this size.
    pub open spec fn spec_size(self) -> usize {
        match self {
            BufferSize::Size4K => 4096,
            BufferSize::Size16K => 16384,
            BufferSize::Size64K => 65536,
            BufferSize::Custom(size) => size,
        }
    }

    /// The number of bytes of this size.
    pub fn size(&self) -> (r: usize)
        ensures
            r == self.spec_size(),
    {
        match self {
            BufferSize::Size4K => 4096,
            BufferSize::Size16K => 16384,
            BufferSize::Size64K => 65536,
            BufferSize::Custom(size) => *size,
        }
    }
}

} // verus!
