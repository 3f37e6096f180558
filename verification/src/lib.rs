//! Streaming encrypted-blob engine of a storage gateway: chunked authenticated
//! encryption, byte-range planning, stream adapters, limiter accounting and
//! drive allocation, with machine-checked contracts.

pub mod auth;
pub mod chunk;
pub mod cipher;
pub mod db;
pub mod drive;
pub mod header;
pub mod http;
pub mod rate_limit;
pub mod server;
pub mod store;
pub mod stream;
pub mod text;
