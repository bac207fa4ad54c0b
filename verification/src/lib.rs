//! Overlay routing core of a peer-to-peer node: signed edges between peers,
//! the peer graph with its shortest-path first hops, and the routing table
//! that answers next-hop queries.
//!
//! Every executable function carries a contract that Verus proves, but
//! for a few small functions that call into other crates and are marked
//! as trusted where they stand.

pub mod byte_array;
pub mod hash;
pub mod crypto;
pub mod types;
pub mod edge;
pub mod paths;
pub mod graph;
pub mod forwarding;
pub mod keyed;
pub mod route_back;
pub mod signer;
pub mod clock;
pub mod selection;
pub mod routing;
pub mod wire;
