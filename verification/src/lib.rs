//! FastCGI for web servers: record encoding and decoding, request and response
//! handling over one multiplexed connection, and the settings of a connection pool.
//!
//! The crate computes; it does not touch a socket. Every function that would write to
//! the FastCGI application queues the bytes instead, and every function that would read
//! from it is handed what was read. A runtime moves the bytes.
//!
//! - [`fastcgi`]: records, name-value pairs and the incremental record reader.
//! - [`codec`]: streams of records, written into an output queue.
//! - [`client`]: requests multiplexed on a connection, and the pool settings.
//! - [`httpparse`]: the CGI response head.
//! - [`bufvec`], [`number`], [`error`]: a queue of buffers, decimal numbers, and refusals.
//!
//! What is taken as given about other crates stands in [`buffer`] (`bytes`), [`headers`]
//! (`http`), [`httpparse`] (`httparse`) and [`client::connection::requests`] (`slab`).

pub mod buffer;
pub mod bufvec;
pub mod client;
pub mod codec;
pub mod error;
pub mod fastcgi;
pub mod headers;
pub mod httpparse;
pub mod number;
pub mod server;
