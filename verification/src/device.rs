use crate::error::Error;
use vstd::prelude::*;

verus! {

/// The I/O size that is taken for every device for now: 1 MiB.
pub const DEFAULT_IO_SIZE: u64 = 1048576;

/// The size in bytes of the blocks in which `device` is laid out. The
/// answer has to stay the same over the life of the device, so it is a fixed
/// value, whatever the device.
pub fn get_io_size(device: &str) -> (r: Result<u64, Error>)
    ensures
        r == Ok::<u64, Error>(DEFAULT_IO_SIZE),
{
    Ok(DEFAULT_IO_SIZE)
}

} // verus!
