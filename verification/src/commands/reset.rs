use vstd::prelude::*;

verus! {

/// OS group ID.
pub const GROUP_OS: u16 = 0;
/// System reset command ID.
pub const CMD_RESET: u8 = 5;

} // verus!
