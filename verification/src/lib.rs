//! Core text-tokenization infrastructure: an added-vocabulary matching
//! engine, the `Encoding` alignment record, a pluggable encode/decode
//! pipeline, and an explicit execution policy for batch operations.

pub mod encoding;
pub mod error;
pub mod matcher;
pub mod parallel;
pub mod pipeline;
pub mod stages;
pub mod token;
pub mod vocab;

pub use encoding::Encoding;
pub use encoding::Offset;
pub use error::TokenizerError;
pub use parallel::ExecutionStrategy;
pub use pipeline::TokenizerBuilder;
pub use pipeline::TokenizerImpl;
pub use token::TokenExtension;
pub use token::TokenExtensionID;
pub use vocab::SplitSpan;
pub use vocab::VocabExtension;
