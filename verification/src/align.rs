//! Word alignment: splitting text by language, and everything around the
//! acoustic model that is not floating-point arithmetic.

pub mod aligner;
pub mod job;
pub mod logits;
pub mod script;
pub mod script_dispatch;
pub mod speech;
pub mod words;
