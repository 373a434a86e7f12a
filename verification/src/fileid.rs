//! Filesystem identity: a platform-stable value naming a file's on-disk
//! data.  Two paths with equal identity are the same on-disk object, so
//! they are already linked together.

use vstd::prelude::*;

verus! {

/// A (volume, file-id) pair naming a file's on-disk data.  The three
/// variants mirror what the platform can report: an inode on Unix, a low-
/// or high-resolution file index on Windows.
#[derive(Debug, PartialEq, Eq, Structural, Clone, Copy)]
pub enum FileIdentity {
    /// Device and inode number, as on Unix.
    Inode { device_id: u64, inode_number: u64 },
    /// Volume serial number and low-resolution file index.
    LowRes { volume_serial_number: u32, file_index: u64 },
    /// Volume serial number and high-resolution file id.
    HighRes { volume_serial_number: u64, file_id: u128 },
}

/// The volume (device) component of a file identity.  Hard links can only
/// join files that live on the same volume.
pub open spec fn spec_device_id(id: FileIdentity) -> u64 {
    match id {
        FileIdentity::Inode { device_id, .. } => device_id,
        FileIdentity::LowRes { volume_serial_number, .. } => volume_serial_number as u64,
        FileIdentity::HighRes { volume_serial_number, .. } => volume_serial_number,
    }
}

/// The executable counterpart of [`spec_device_id`].
pub fn get_device_id(file_id: FileIdentity) -> (r: u64)
    ensures
        r == spec_device_id(file_id),
{
    match file_id {
        FileIdentity::Inode { device_id, inode_number: _ } => device_id,
        FileIdentity::LowRes { volume_serial_number, file_index: _ } => volume_serial_number as u64,
        FileIdentity::HighRes { volume_serial_number, file_id: _ } => volume_serial_number,
    }
}

} // verus!
