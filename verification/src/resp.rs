//! The RESP codec: frame model, encoder, length scanner and decoder.

pub mod decode;
pub mod encode;
pub mod err;
pub mod frame;
pub mod laws;
pub mod wire;
