//! A minimal volume manager for a raw block device.
//!
//! The device is carved into named subvolumes, each a list of block extents.
//! The layout is kept in two redundant, checksummed superblock slots at the
//! tail of the device, and new subvolumes are cut out of the gaps between the
//! extents already handed out.
//!
//! Nothing here touches a device: the caller reads and writes the slots and
//! sets up the mappings, and hands over plain values.

pub mod device;
pub mod error;
pub mod extent;
pub mod frame;
pub mod gaps;
pub mod layout;
pub mod mapping;
pub mod partition;
pub mod slots;
pub mod subvol;

pub use device::get_io_size;
pub use error::Error;
pub use extent::Extent;
pub use mapping::Segment;
pub use partition::{Entry, SuperPartition};
pub use slots::Slot;
pub use subvol::SubVolume;
