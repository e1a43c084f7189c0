//! Local semantic code search: line-aware chunking, a content-addressed index
//! of chunk records, metadata filters and result ranking.
//!
//! The library holds the rules of the search; the vectors, the embedding
//! model and the file tree stay with its caller. Files are split into
//! overlapping chunks of whole lines by `chunker`. `index` keeps the chunk
//! records with the hash of every indexed file, `indexer` brings them in
//! step with the files that were found, and `searcher` turns the neighbours
//! that a vector store finds for a query into ranked and filtered results.
pub mod chunker;
pub mod chunker_proofs;
pub mod config;
pub mod embedder;
pub mod error;
pub mod filter;
pub mod format;
pub mod hashes;
pub mod hashing;
pub mod history;
pub mod index;
pub mod indexer;
pub mod indexer_proofs;
pub mod paths;
pub mod patterns;
pub mod ranking;
pub mod searcher;
pub mod text;
pub mod watcher;

pub use chunker::{detect_language, Chunk, Chunker};
pub use config::{should_index_file, Config, EmbeddingModel};
pub use error::LgrepError;
pub use filter::SearchFilter;
pub use format::format_results;
pub use hashing::compute_hash;
pub use history::{QueryEntry, QueryHistory};
pub use index::{IndexMetadata, VectorIndex};
pub use indexer::{FileToIndex, Indexer, UpdateOutcome, UpdateStats};
pub use ranking::SearchResult;
pub use searcher::{IndexStats, Searcher};
pub use watcher::IndexWatcher;
