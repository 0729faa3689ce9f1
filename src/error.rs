//! Errors of an image build.

use vstd::prelude::*;

verus! {

/// Why an image could not be built.
#[derive(Clone, Copy, Debug, PartialEq, Eq, Structural)]
pub enum Error {
    /// The bootloader does not start with a valid common header.
    InvalidBootloader,
    /// The flash size, given by its identifier, has no header encoding.
    UnsupportedFlash(u8),
    /// The flash frequency has no encoding for the chip family.
    UnsupportedFlashFrequency,
    /// The partition table has neither a factory nor an application partition.
    NoAppPartition,
    /// The partition table could not be encoded.
    InvalidPartitionTable,
    /// The image, of the first size, does not fit the partition, of the second.
    ElfTooBig(u32, u32),
}

} // verus!
