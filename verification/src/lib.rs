//! Reranking of conversation search results, and the remote endpoints that embed and
//! rerank them.

pub mod json;
pub mod laws;
pub mod remote;
pub mod rerank;
pub mod score;
pub mod text;
