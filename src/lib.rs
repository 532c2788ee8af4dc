//! A TCP connect scanner's core: host specifications (an IPv4 address or a
//! CIDR block) and port specifications (ports and ranges) expanded into the
//! (host, port) pairs to probe, and the bookkeeping that hands those pairs out
//! under a concurrency limit and collects each probe's outcome per host.
use vstd::prelude::*;

pub mod engine;
pub mod hosts;
pub mod ports;
pub mod results;
pub mod text;

verus! {

/// Why a host or port specification was rejected.
#[derive(Debug, Clone, Copy, PartialEq, Eq, Structural)]
pub enum NetworkParseError {
    /// The host specification is empty.
    MissingAddress,
    /// The part before `/` is not a dotted-quad IPv4 address.
    BadIpAddress,
    /// The part after `/` is not a number from 0 to 32.
    BadNetmask,
    /// A port token is not a port, a range of ports, or `-`.
    InvalidPortNumber,
}

} // verus!
