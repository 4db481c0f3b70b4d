//! The bencoding codec: the wire values, their mathematical model, the
//! decoder, the encoder, and the laws that tie the two together.

pub mod decoder;
pub mod encoder;
pub mod laws;
pub mod model;
pub mod values;
