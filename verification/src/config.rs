//! Application-wide configuration.

use vstd::prelude::*;

verus! {

/// Application-wide configuration, read from `config.json` at startup.
///
/// Centralizes every value that would otherwise be hardcoded: where the
/// embedding server and its model live, which port it listens on, where the
/// vector database is, which directories are indexed, the dimension of the
/// embedding vectors and the model name sent with embedding requests.
pub struct AppConfig {
    /// Directory containing `llama-server.exe` and its DLLs.
    pub llama_dir: String,
    /// Path to the `.gguf` model file.
    pub model_path: String,
    /// TCP port for the llama-server HTTP endpoint.
    pub server_port: u16,
    /// Path to the LanceDB database directory.
    pub db_path: String,
    /// Directories to watch for file changes and index on startup.
    pub watch_dirs: Vec<String>,
    /// Dimensionality of the embedding vectors (e.g. 768 for Nomic Embed Text v1.5).
    pub vector_dim: i32,
    /// Model identifier sent to the `/v1/embeddings` endpoint.
    pub model_name: String,
}

} // verus!
