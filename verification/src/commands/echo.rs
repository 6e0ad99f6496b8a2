use vstd::prelude::*;

verus! {

/// OS group ID.
pub const GROUP_OS: u16 = 0;
/// Echo command ID.
pub const CMD_ECHO: u8 = 0;

} // verus!
