//! SLIP (Serial Line Internet Protocol) framing: byte-stuffing of payloads into
//! END-terminated datagrams, and the reverse.
//!
//! `model` states what encoding and decoding mean, `framer` holds the verified
//! encoder and decoder, and `laws` proves their properties over the model.
pub mod framer;
pub mod laws;
pub mod model;

pub use framer::{SlipDatagrams, SlipError};
