//! Hides binary messages in text generated by a language model: a range coder, the
//! framing of a payload as bits, and the rules that couple the coder to a model's
//! next-token distributions.

pub mod coder_laws;
pub mod coder_lemmas;
pub mod coder_model;
pub mod compress_laws;
pub mod decoder;
pub mod framing;
pub mod gate_laws;
pub mod generation_context;
pub mod hiding_laws;
pub mod prob_table;
pub mod range_coder;
pub mod sample;
pub mod steganography;
pub mod stenography;
