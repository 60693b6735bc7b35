//! A dictionary-driven morphological segmenter for languages written
//! without explicit word boundaries.
//!
//! The library rewrites the character stream through a configurable
//! character-filter pipeline, splits the filtered text into lexical
//! units by a minimum-cost search over a lattice of dictionary
//! matches, and post-processes the resulting tokens through a
//! configurable token-filter pipeline.  An offline builder compiles
//! tabular lexicons into the binary dictionary format the segmenter
//! loads.

pub mod builder;
pub mod char_filter;
pub mod config;
pub mod dictionary;
pub mod error;
pub mod lattice;
pub mod mode;
pub mod offsets;
pub mod search;
pub mod segmenter;
pub mod text;
pub mod token;
pub mod token_filter;
pub mod tokenizer;

pub use config::ConfigValue;
pub use dictionary::{ConnectionMatrix, Dictionary, Metadata, UserDictionary, WordEntry};
pub use error::{LinderaError, LinderaErrorKind};
pub use mode::{Mode, Penalty};
pub use segmenter::Segmenter;
pub use token::Token;
pub use tokenizer::{Tokenizer, TokenizerBuilder, TokenizerConfig};
