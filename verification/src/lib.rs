//! Verified core of a room-based chat server: the wire encodings (Base64,
//! hexadecimal room keys, length-prefixed frames), message rendering, the
//! room registry and the decisions a client session takes on each input.

pub mod text;
pub mod base64;
pub mod crypto;
pub mod message;
pub mod ids;
pub mod rooms;
pub mod session;
pub mod heartbeat;
pub mod history;
pub mod http;
