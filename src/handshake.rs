use base64::Engine;
use vstd::prelude::*;
use vstd::string::StringExecFns;

use crate::frame::random_bytes;

verus! {

/// The standard, padded base64 encoding of `bytes`.
pub uninterp spec fn base64_standard(bytes: Seq<u8>) -> Seq<char>;

/// Relies on base64's STANDARD engine, `Engine::encode`: the padded base64 text
/// of the bytes, four characters for each started group of three bytes. The
/// length computation panics on overflow, which `requires` rules out.
#[verifier::external_body]
fn encode_base64(bytes: &[u8]) -> (r: String)
    requires
        bytes@.len() <= usize::MAX / 4,
    ensures
        r@ == base64_standard(bytes@),
        r@.len() == 4 * ((bytes@.len() + 2) / 3),
{
    base64::prelude::BASE64_STANDARD.encode(bytes)
}

/// Helpers for the opening handshake.
pub struct WebSocketHelpers;

impl WebSocketHelpers {
    /// A fresh `Sec-WebSocket-Key` value: sixteen random bytes in base64.
    pub fn generate_sec_websocket_key() -> (r: String)
        ensures
            exists|key: Seq<u8>| key.len() == 16 && r@ == base64_standard(key),
            r@.len() == 24,
    {
        let key = random_bytes(16);
        let r = encode_base64(key.as_slice());
        assert(key@.len() == 16 && r@ == base64_standard(key@));
        r
    }
}

/// Opens WebSocket connections over an HTTP/1.1 upgrade.
pub struct WebSocketClient;

impl WebSocketClient {
    /// The headers that ask the server to upgrade the connection, as name and
    /// value, with `key` as `Sec-WebSocket-Key`.
    pub fn upgrade_headers(key: &str) -> (r: Vec<(String, String)>)
        ensures
            r@.len() == 4,
            r@[0].0@ == "Connection"@ && r@[0].1@ == "Upgrade"@,
            r@[1].0@ == "Upgrade"@ && r@[1].1@ == "websocket"@,
            r@[2].0@ == "Sec-WebSocket-Version"@ && r@[2].1@ == "13"@,
            r@[3].0@ == "Sec-WebSocket-Key"@ && r@[3].1@ == key@,
    {
        let mut headers: Vec<(String, String)> = Vec::new();
        headers.push((String::from_str("Connection"), String::from_str("Upgrade")));
        headers.push((String::from_str("Upgrade"), String::from_str("websocket")));
        headers.push((String::from_str("Sec-WebSocket-Version"), String::from_str("13")));
        headers.push((String::from_str("Sec-WebSocket-Key"), String::from_str(key)));
        headers
    }
}

} // verus!
