//! A vector-space ranking engine: given precomputed corpus statistics (an
//! IDF table, a TF-IDF term-document matrix, and a document index) and one
//! query's token stream, it orders the documents by cosine similarity.
//!
//! Weights are kept as exact scaled integers (a decimal numeral is read as a
//! mantissa over a power of ten), so every similarity comparison is exact:
//! two documents are ordered by comparing the squares of their cosine
//! similarities as integer fractions, never by rounded arithmetic.
pub mod text;
pub mod corpus;
pub mod tokens;
pub mod rank;
pub mod laws;
