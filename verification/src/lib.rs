//! Furigana annotation for Japanese text.
//!
//! A token stream is merged against a dictionary of known readings into the
//! longest dictionary-backed fragments, each fragment's candidate readings are
//! ranked, a selection policy picks one of them or none, and the chosen
//! reading spans are typeset in a markup format around the untouched text.

pub mod annotate;
pub mod dictionary;
pub mod filtering;
pub mod format;
pub mod frequency;
pub mod index;
pub mod kana;
pub mod order;
pub mod parse;
pub mod rank;
pub mod render;
pub mod segment;
pub mod select;
pub mod selector;
pub mod store;
pub mod text;
pub mod text_processor;
pub mod tokenizer;

