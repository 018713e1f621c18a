//! A verified WordPiece subword tokenizer.
//!
//! The crate implements the inference-time half of a BERT-style tokenizer:
//! text normalization (CJK spacing, accent stripping, case folding,
//! whitespace cleanup), special-token-aware pre-tokenization, greedy
//! longest-match-first WordPiece segmentation, id assembly with character
//! offsets, decoding back to readable text, and a registry/service layer
//! with fixed-capacity output buffers and per-query status flags.

pub mod chars;
pub mod decode;
pub mod encode;
pub mod normalize;
pub mod pretoken;
pub mod service;
pub mod vocab;
pub mod wordpiece;
