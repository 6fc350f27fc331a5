//! Radar: the verified core of a small container watcher that talks to the
//! Docker engine over HTTP/1.1.
//!
//! The library frames the requests it sends, parses the responses it gets
//! back (status line, header lines, chunked transfer encoding, body), and
//! builds the script that turns a container description into a
//! `docker run` command line.

pub mod bytes;
pub mod number;
pub mod text;
pub mod http;
pub mod docker;
pub mod json;
pub mod ffi;
pub mod laws;

