//! A book catalogue backend's library: chunked file transfer (uploads taken
//! in parts, assembled in index order, read back by byte range), the request
//! models of the catalogue, and the pure parts of its token handling.

pub mod naming;
pub mod transfer;
pub mod store;
pub mod models;
pub mod security;
