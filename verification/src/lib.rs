//! A request/response engine for the Gopher protocol: a codec for
//! directory-entry wire lines, listings built from stored map files or
//! directory scans, a boolean search-query language over entry
//! descriptions, and the per-connection request resolver that ties them
//! together. Transport, configuration and privilege handling live with
//! the caller.
pub mod directoryentry;
pub mod errors;
pub mod gophermap;
pub mod gophertype;
pub mod query;
pub mod request;
pub mod text;
