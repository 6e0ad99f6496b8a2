//! Verified core of a browser-side MCUmgr (SMP over serial) client: SMP
//! headers, the serial line framing, the request/response matching of a
//! transport session, and the decisions of the management commands.
#![allow(unused_imports)]

mod bytes;
pub mod commands;
pub mod framing;
pub mod primitives;
pub mod smp;
pub mod text;
pub mod transport;
