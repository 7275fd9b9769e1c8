//! Wire codec and server-side decision logic for a road speed-enforcement
//! service: cameras report number plates, dispatchers receive tickets.
pub mod network;
pub mod bytes_buf;
pub mod text;
pub mod messages;
pub mod roundtrip;
pub mod session;
pub mod speed;
pub mod tickets;
pub mod input;
pub mod client;
