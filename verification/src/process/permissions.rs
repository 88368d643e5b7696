//! The permission bits of a region.

use vstd::prelude::*;

verus! {

/// The region can be read.
pub const READABLE: u8 = 0b0001;

/// The region can be written.
pub const WRITABLE: u8 = 0b0010;

/// The region can be executed.
pub const EXECUTABLE: u8 = 0b0100;

/// The region is shared with other processes.
pub const SHARED: u8 = 0b1000;

/// Every permission bit.
pub const ALL: u8 = 0b1111;

} // verus!
