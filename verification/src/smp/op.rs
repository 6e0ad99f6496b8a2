use vstd::prelude::*;

verus! {

/// Read request.
pub const READ: u8 = 0;
/// Response to a read request.
pub const READ_RSP: u8 = 1;
/// Write request.
pub const WRITE: u8 = 2;
/// Response to a write request.
pub const WRITE_RSP: u8 = 3;

} // verus!
