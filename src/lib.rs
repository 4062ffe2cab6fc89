//! Lossless tokenizer that replaces runs of classified atoms by dictionary templates.

pub mod bench;
pub mod bundle;
pub mod canonical;
pub mod decode;
pub mod encode;
pub mod interner;
pub mod laws;
pub mod loader_v92;
pub mod render;
pub mod template;
pub mod tokenize;
pub mod trie;

pub use bundle::Encoder;
pub use encode::{EncTok, EncodeResult, EncodeStats};
pub use interner::{AtomId, AtomKind, Interner, PayloadId, SlotValue};
pub use template::Template;
pub use tokenize::{StructuredInput, TokenizeConfig};
pub use trie::Trie;
