# embi_search

The verified core of a local semantic file search engine. Files are read,
split into chunks sized for an embedding model, embedded by a local
llama.cpp server and stored in a LanceDB vector table; a search embeds the
query and returns the nearest chunks.

- `src/` is the library, written in Verus: path and extension handling,
  text extraction and chunking (`chunker`), what chunking promises of every
  input (`chunk_laws`), the events of the directory scan and the watcher
  (`harvester`), the indexing pipeline as a step function (`indexer`), the
  server's arguments and readiness decisions (`server`), the embeddings
  endpoint (`embedding`), and the delete filter of the vector store
  (`vectorstore`).
- `app/` runs it: configuration loading, PDF text extraction, the HTTP client, the child
  process, the file-system walker and watcher, the LanceDB table and the
  Tauri window.
- `tests/` exercises the library on concrete inputs.
