//! A verified request builder for the Bellande probability web service.
//!
//! The service does all probability computation remotely; this crate's job is
//! to assemble the request: pick one of two endpoint paths and one of two
//! fixed authentication objects from a single boolean flag, embed the caller's
//! parameters in a JSON body, and decode the JSON the service sends back.
//! The JSON text handling and the request assembly are verified; the actual
//! HTTP transport lives outside the library.

pub mod json;
pub mod laws;
pub mod parse;
pub mod request;
