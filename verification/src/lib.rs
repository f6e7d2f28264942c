//! Verified core of a local semantic file search engine: path
//! classification, text extraction and chunking, and the decisions around
//! the embedding server, the watcher and the index.

pub mod text;
pub mod chunker;
pub mod paths;
pub mod harvester;
pub mod config;
pub mod vectorstore;
pub mod embedding;
pub mod server;
pub mod indexer;
pub mod chunk_laws;
