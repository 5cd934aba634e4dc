//! A client for the Source RCON protocol: the packet codec, and the login
//! and command exchanges, with the bytes moved by the caller.
use vstd::prelude::*;

pub mod codec;
pub mod session;

verus! {

} // verus!
