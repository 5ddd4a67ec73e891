//! A single connection (TCP or Unix) to an FCGI application.
//!
//! Multiple Requests can be multiplexed on it.
pub mod body;
pub mod inner;
pub mod laws;
pub mod poll_laws;
pub mod request;
pub mod request_laws;
pub mod requests;
pub mod response;
