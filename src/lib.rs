//! Parsing of a complete, buffered HTTP/1.x request head into a
//! CGI-style environment of normalized field names and raw values.

pub mod bytes;
pub mod environ;
pub mod request;

pub use environ::Environ;
pub use request::{parse_request, ParseError, WebRequest};
