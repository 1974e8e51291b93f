//! Decoding of binary full-colour Netpbm images ("P6") from an in-memory buffer.
pub mod image;
pub mod lemmas;
pub mod ppm;
pub mod tokenizer;
