//! Client-side WebSocket framing: opcodes, the frame codec with masking and
//! extended length encoding, the incremental read buffer, and the reassembly
//! of fragmented messages.

pub mod frame;
pub mod handshake;
pub mod message;
pub mod opcode;
pub mod reader;

pub use frame::{DecodeError, WebSocketFrame};
pub use handshake::{WebSocketClient, WebSocketHelpers};
pub use message::{MessageError, WebSocketMessage};
pub use opcode::WebSocketOpcode;
pub use reader::{MessageStep, ReadBuffer, ReadError};
