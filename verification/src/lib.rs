//! A WebSocket protocol engine: frame codec, message assembly and the close
//! handshake, written against byte buffers so that any transport can drive it.

pub mod buffer;
pub mod close_code;
pub mod codec;
pub mod error;
pub mod frame;
pub mod laws;
pub mod mask;
pub mod message;
pub mod opcode;
pub mod stream;
pub mod utf8;
