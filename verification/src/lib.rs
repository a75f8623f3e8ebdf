//! A verified model of a small peer-to-peer networking stack: self-describing
//! endpoint addresses, protocol-upgrade negotiation, connection multiplexing,
//! a swarm that tracks listeners and live connections, and a flood-based
//! publish/subscribe overlay with message deduplication.
//!
//! The library holds the decision logic of the stack as plain values with
//! contracts; socket I/O and event-loop plumbing live outside it and drive
//! these functions with the events they observe.

use vstd::prelude::*;

pub mod addr;
pub mod floodsub;
pub mod lines;
pub mod mesh;
pub mod muxer;
pub mod negotiate;
pub mod swarm;
pub mod transport;

verus! {

/// The error taxonomy of the stack. Per-connection and per-stream errors are
/// local to that connection or stream; only listener bind failures are fatal
/// to a process.
#[derive(Clone, Copy, Debug, PartialEq, Eq, Structural)]
pub enum Error {
    /// No registered transport or upgrade handles the address or protocol.
    Unsupported,
    /// A listener could not bind its address.
    Bind,
    /// The remote end refused the connection.
    ConnectionRefused,
    /// A dial did not resolve in time.
    Timeout,
    /// Protocol negotiation found no identifier common to both peers.
    NoCommonProtocol,
    /// The underlying connection is closed; all its streams fail with this.
    ConnectionClosed,
    /// A control or data frame violated the protocol framing.
    Malformed,
}

} // verus!
