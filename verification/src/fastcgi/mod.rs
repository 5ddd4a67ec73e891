//! Contains constants and models for fcgi data records.
//!
//! ```
//! use async_fcgi::fastcgi::{BeginRequestBody, FastCGIRole, NVBody, NameValuePair, RecordType};
//! use bytes::{Bytes, BytesMut};
//! let mut b = BytesMut::with_capacity(96);
//! BeginRequestBody::new(FastCGIRole::Responder, 0, 1).append(&mut b);
//! let mut nv = NVBody::new();
//! nv.add(NameValuePair::new(
//!     Bytes::from(&b"SCRIPT_FILENAME"[..]),
//!     Bytes::from(&b"/home/daniel/Public/test.php"[..]),
//! ))
//! .expect("record full");
//! nv.to_record(RecordType::Params, 1).append(&mut b);
//! NVBody::new().to_record(RecordType::Params, 1).append(&mut b);
//! ```
pub mod codes;
pub mod laws;
pub mod params;
pub mod reader;
pub mod record;

pub use codes::{
    FastCGIRole, ProtoStatus, RecordType, LISTENSOCK_FILENO, MAX_CONNS, MAX_REQS, MPXS_CONNS,
};
pub use params::{NVBody, NVBodyList, NVDrain, NameValuePair};
pub use reader::RecordReader;
pub use record::{
    BeginRequestBody, Body, EndRequestBody, Header, Record, STDINBody, UnknownTypeBody,
};
