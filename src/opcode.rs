use vstd::prelude::*;

verus! {

/// The kind of a WebSocket frame, carried in the low four bits of its first byte.
#[derive(Debug, Clone, Copy, PartialEq, Eq, Structural)]
pub enum WebSocketOpcode {
    Continuation,
    Text,
    Binary,
    Close,
    Ping,
    Pong,
}

impl WebSocketOpcode {
    /// The wire value of an opcode.
    pub open spec fn spec_value(self) -> u8 {
        match self {
            WebSocketOpcode::Continuation => 0x0,
            WebSocketOpcode::Text => 0x1,
            WebSocketOpcode::Binary => 0x2,
            WebSocketOpcode::Close => 0x8,
            WebSocketOpcode::Ping => 0x9,
            WebSocketOpcode::Pong => 0xA,
        }
    }

    /// The opcode whose wire value is `value`, if there is one.
    pub open spec fn spec_from_u8(value: u8) -> Option<WebSocketOpcode> {
        if value == 0x0 {
            Some(WebSocketOpcode::Continuation)
        } else if value == 0x1 {
            Some(WebSocketOpcode::Text)
        } else if value == 0x2 {
            Some(WebSocketOpcode::Binary)
        } else if value == 0x8 {
            Some(WebSocketOpcode::Close)
        } else if value == 0x9 {
            Some(WebSocketOpcode::Ping)
        } else if value == 0xA {
            Some(WebSocketOpcode::Pong)
        } else {
            None
        }
    }

    /// Maps a wire value to its opcode; values outside the six defined ones
    /// give `None`.
    pub fn from_u8(value: u8) -> (r: Option<WebSocketOpcode>)
        ensures
            r == Self::spec_from_u8(value),
            r matches Some(op) ==> op.spec_value() == value,
    {
        match value {
            0x0 => Some(WebSocketOpcode::Continuation),
            0x1 => Some(WebSocketOpcode::Text),
            0x2 => Some(WebSocketOpcode::Binary),
            0x8 => Some(WebSocketOpcode::Close),
            0x9 => Some(WebSocketOpcode::Ping),
            0xA => Some(WebSocketOpcode::Pong),
            _ => None,
        }
    }

    /// The wire value of this opcode.
    pub fn to_u8(self) -> (r: u8)
        ensures
            r == self.spec_value(),
            r < 16,
            Self::spec_from_u8(r) == Some(self),
    {
        match self {
            WebSocketOpcode::Continuation => 0x0,
            WebSocketOpcode::Text => 0x1,
            WebSocketOpcode::Binary => 0x2,
            WebSocketOpcode::Close => 0x8,
            WebSocketOpcode::Ping => 0x9,
            WebSocketOpcode::Pong => 0xA,
        }
    }
}

} // verus!
