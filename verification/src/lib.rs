//! Extraction core for a binary account container and its sticker index.
//!
//! Two components: a tagged-field scanner that pulls length-prefixed string
//! fields out of a raw byte buffer by searching for a marker byte sequence,
//! and a streaming property-list walker that pairs label strings with the
//! URL strings that follow them at a fixed element path.

pub mod account;
pub mod scanner;
pub mod walker;
