//! A minimal content backend, verified: each post is one Markdown file whose
//! name is a canonical timestamp, and two derived views — a
//! reverse-chronological index and an Atom feed — are re-derived from the raw
//! file set on every request. This crate holds the storage model, the
//! identity format, the title extractor, the two view generators and the
//! cache-invalidation plan; the HTTP layer and the actual filesystem and
//! network calls live outside it and hand it plain values.

pub mod config;
pub mod error;
pub mod index;
pub mod post_id;
pub mod rss;
pub mod store;
pub mod text;
pub mod utils;

pub use error::AppError;
pub use post_id::PostId;
