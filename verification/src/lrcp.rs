//! Line reversal over a reliable session transport.
//!
//! Datagrams may be lost, duplicated and reordered. Each session counts the
//! bytes it has received in order and the bytes its peer has confirmed, and
//! resends what is unconfirmed until it is.
pub mod escape;
pub mod frame;
pub mod message;
pub mod lines;
pub mod segment;
pub mod session;
pub mod table;
pub mod laws;
