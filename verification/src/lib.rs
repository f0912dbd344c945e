//! Verified cores of a family of small network services.
//!
//! The heart of the crate is [`lrcp`], a reliable byte-stream transport on
//! top of an unreliable datagram medium: a wire codec, a table of sessions,
//! the transition that one message makes on the table, a segmenter that
//! cuts pending output into bounded chunks, and the line-reversing
//! application that rides on the transport.
//!
//! The other modules hold what the simpler services decide and compute:
//!
//! - [`prime`]: whether a JSON number is prime;
//! - [`prices`]: the mean price over a span of time;
//! - [`chat`]: who is in a chat room and who is told what;
//! - [`kv`]: a key-value store asked by datagram;
//! - [`proxy`]: payment addresses rewritten in passing;
//! - [`cipher`] and [`toys`]: a stream cipher and the request it carries;
//! - [`jobs`]: queues of jobs taken by priority;
//! - [`names`], [`storage`] and [`requests`]: a store of versioned files.
//!
//! [`number`], [`text`], [`bytemap`] and [`unicode`] serve several of them.
//!
//! Nothing here reads or writes a socket. Every function takes plain values
//! and gives plain values back, and says in its contract what they are.
pub mod bytemap;
pub mod chat;
pub mod cipher;
pub mod jobs;
pub mod kv;
pub mod lrcp;
pub mod names;
pub mod number;
pub mod prices;
pub mod prime;
pub mod proxy;
pub mod requests;
pub mod storage;
pub mod text;
pub mod toys;
pub mod unicode;
