//! A small retrieval pipeline over a corpus of documentation files: documents
//! are split into chunks (paragraphs and fenced code blocks), chunks are held
//! in a vector index keyed by an embedding, and a query is answered by finding
//! the best-scoring chunk and handing it, with the question, to a generation
//! model. The chunker, the index, the retrieval step and the stream-fragment
//! logic are verified here; network calls and serving stay outside.

pub mod chunk_laws;
pub mod contents;
pub mod errors;
pub mod finder;
pub mod llm;
pub mod pipeline;
pub mod vector;
