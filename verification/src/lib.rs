//! A small library for an HTTP file-upload server: it parses the query
//! string of a POST request, decides which file (if any) the request asks
//! to create, and models the effect of a request on the output directory,
//! where file creation is exclusive and never overwrites an existing file.

pub mod config;
pub mod handler;
pub mod query;
pub mod storage;
