//! Transport endpoints as plain values.

use vstd::prelude::*;

verus! {

/// The address a datagram came from or goes to. Two endpoints are equal when
/// all of their fields are.
#[derive(Clone, Copy, Debug, PartialEq, Eq, Hash, Structural)]
pub enum Endpoint {
    V4 { ipv4: u32, port: u16 },
    V6 { ipv6: u128, port: u16, flowinfo: u32, scope_id: u32 },
}

} // verus!
