//! The decision core of an authenticated Kademlia node.
//!
//! The crate holds the data structures, wire rules and replica decisions of the
//! node. Sockets, timers and cryptographic back ends stay with the caller, who
//! performs what the functions of this crate ask for and hands the results back.

pub mod clock;
pub mod crawling;
pub mod crypto;
pub mod endpoint;
pub mod fragmentation;
pub mod long_id;
pub mod network;
pub mod node;
pub mod peers;
pub mod protocol;
pub mod py_bindings;
pub mod reassembly;
pub mod storage;
pub mod text;
pub mod utils;
