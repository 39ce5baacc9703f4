//! A minimal document-fetch library: URL parsing into a tagged scheme model,
//! a connection pool keyed by origin, an HTTP/1.1 protocol handler with
//! chunked-transfer decoding, gzip decompression, redirect following and
//! cache-control negotiation, a freshness-aware response cache, and a markup
//! lexer for the fetched text.

pub mod cache;
pub mod config;
pub mod html;
pub mod http;
pub mod text;
pub mod url;

pub use cache::RequestCache;
pub use http::request;
pub use http::connection_pool::ConnectionPool;
pub use html::lex;
pub use url::Url;
