//! A minimal HTTP/1.1 server core: request parsing, route dispatch and
//! response framing over plain byte sequences.

pub mod scan;
pub mod headers;
pub mod request;
pub mod response;
pub mod router;
