//! A minimal HTTP/1.1 request framer, router and response serialiser.

pub mod bytes;
pub mod content_type;
pub mod decimal;
pub mod files;
pub mod framer;
pub mod request;
pub mod response;
pub mod router;
pub mod server;
