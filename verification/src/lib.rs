//! A verified codec for the Bencode data-interchange format.
//!
//! `decoder::parse` reads a document from bytes into a `value::BData` tree and
//! `encoder::stringify` writes a tree as the canonical document of its value.
//!
//! What a document means and how a value is written is defined in `grammar`,
//! over the mathematical values of `value` and `dictionary`. Every function of the decoder and
//! of the encoder is proved to compute what `grammar` says. `roundtrip` proves
//! that a written value is read back as it was, and `canonical` says which
//! documents are canonical and proves that these are the documents that come
//! back unchanged.

pub mod canonical;
pub mod decimal;
pub mod decoder;
pub mod dictionary;
pub mod encoder;
pub mod equality;
pub mod grammar;
pub mod order;
pub mod roundtrip;
pub mod value;
