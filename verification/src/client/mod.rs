//! Fast CGI client/webserver side
pub mod connection;
pub mod con_pool;
