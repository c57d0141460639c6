//! A verified core for an editor word service: incremental document buffers,
//! a line-aware tokenizer, a workspace completion index, and a dictionary
//! spell checker with fuzzy suggestions.

pub mod actions;
pub mod source_file;
pub mod spell;
pub mod state;
pub mod tokenizer;
