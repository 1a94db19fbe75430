use websocket_client::{DecodeError, ReadBuffer, ReadError, WebSocketFrame, WebSocketOpcode};

fn frame_with(len: usize, fin: bool, opcode: WebSocketOpcode) -> WebSocketFrame {
    let payload: Vec<u8> = (0..len).map(|i| (i % 251) as u8).collect();
    WebSocketFrame { fin, opcode, payload }
}

fn header_len(bytes: &[u8]) -> usize {
    let base = bytes[1] & 0x7F;
    let ext = if base == 126 {
        2
    } else if base == 127 {
        8
    } else {
        0
    };
    let masked = if bytes[1] & 0x80 != 0 { 4 } else { 0 };
    2 + ext + masked
}

#[test]
fn opcode_from_u8_known_values() {
    assert_eq!(WebSocketOpcode::from_u8(0x0), Some(WebSocketOpcode::Continuation));
    assert_eq!(WebSocketOpcode::from_u8(0x1), Some(WebSocketOpcode::Text));
    assert_eq!(WebSocketOpcode::from_u8(0x2), Some(WebSocketOpcode::Binary));
    assert_eq!(WebSocketOpcode::from_u8(0x8), Some(WebSocketOpcode::Close));
    assert_eq!(WebSocketOpcode::from_u8(0x9), Some(WebSocketOpcode::Ping));
    assert_eq!(WebSocketOpcode::from_u8(0xA), Some(WebSocketOpcode::Pong));
}

#[test]
fn opcode_from_u8_rejects_reserved_values() {
    for v in [0x3u8, 0x4, 0x7, 0xB, 0xF, 0x10, 0xFF] {
        assert_eq!(WebSocketOpcode::from_u8(v), None);
    }
}

#[test]
fn opcode_to_u8_inverts_from_u8() {
    for v in 0u8..16 {
        if let Some(op) = WebSocketOpcode::from_u8(v) {
            assert_eq!(op.to_u8(), v);
        }
    }
}

#[test]
fn round_trip_all_length_classes() {
    for len in [0usize, 1, 125, 126, 65535, 65536] {
        let f = frame_with(len, len % 2 == 0, WebSocketOpcode::Binary);
        let mut bytes = f.to_bytes();
        bytes.extend_from_slice(&[0x81, 0x00]);
        let (n, g) = WebSocketFrame::parse(&bytes).unwrap();
        assert_eq!(n, bytes.len() - 2);
        assert_eq!(g.fin, f.fin);
        assert_eq!(g.opcode, f.opcode);
        assert_eq!(g.payload, f.payload);
    }
}

#[test]
fn masked_encoding_exact_bytes() {
    let f = WebSocketFrame::from_message("Hi");
    let bytes = f.to_bytes_masked([1, 2, 3, 4]);
    assert_eq!(bytes, vec![0x81, 0x82, 1, 2, 3, 4, b'H' ^ 1, b'i' ^ 2]);
}

#[test]
fn non_final_frame_clears_fin_bit() {
    let f = WebSocketFrame { fin: false, opcode: WebSocketOpcode::Continuation, payload: vec![] };
    assert_eq!(f.to_bytes_masked([9, 9, 9, 9]), vec![0x00, 0x80, 9, 9, 9, 9]);
}

#[test]
fn sixteen_bit_length_encoding() {
    let f = frame_with(126, true, WebSocketOpcode::Binary);
    let bytes = f.to_bytes_masked([0, 0, 0, 0]);
    assert_eq!(&bytes[..4], &[0x82, 0xFE, 0x00, 0x7E]);
    assert_eq!(bytes.len(), 2 + 2 + 4 + 126);
    let f = frame_with(65535, true, WebSocketOpcode::Binary);
    let bytes = f.to_bytes_masked([0, 0, 0, 0]);
    assert_eq!(&bytes[..4], &[0x82, 0xFE, 0xFF, 0xFF]);
}

#[test]
fn sixty_four_bit_length_encoding() {
    let f = frame_with(65536, true, WebSocketOpcode::Binary);
    let bytes = f.to_bytes_masked([0, 0, 0, 0]);
    assert_eq!(&bytes[..10], &[0x82, 0xFF, 0, 0, 0, 0, 0, 1, 0, 0]);
    assert_eq!(bytes.len(), 2 + 8 + 4 + 65536);
}

#[test]
fn masking_recovers_payload_for_every_phase() {
    for len in [0usize, 1, 3, 4, 5, 1000] {
        let f = frame_with(len, true, WebSocketOpcode::Text);
        let bytes = f.to_bytes();
        let h = header_len(&bytes);
        assert_eq!(bytes.len(), h + len);
        let key = &bytes[h - 4..h];
        let unmasked: Vec<u8> = bytes[h..].iter().enumerate().map(|(i, b)| b ^ key[i % 4]).collect();
        assert_eq!(unmasked, f.payload);
    }
}

#[test]
fn masking_applies_key() {
    let f = WebSocketFrame { fin: true, opcode: WebSocketOpcode::Binary, payload: vec![0u8; 5] };
    let bytes = f.to_bytes_masked([0xA, 0xB, 0xC, 0xD]);
    assert_eq!(&bytes[6..], &[0xA, 0xB, 0xC, 0xD, 0xA]);
}

#[test]
fn parse_unmasked_server_frame() {
    let bytes = [0x81, 0x05, b'h', b'e', b'l', b'l', b'o', 0x89];
    let (n, f) = WebSocketFrame::parse(&bytes).unwrap();
    assert_eq!(n, 7);
    assert!(f.fin);
    assert_eq!(f.opcode, WebSocketOpcode::Text);
    assert_eq!(f.payload, b"hello".to_vec());
}

#[test]
fn parse_sixty_four_bit_length() {
    let bytes = [0x02, 127, 0, 0, 0, 0, 0, 0, 0, 3, 7, 8, 9];
    let (n, f) = WebSocketFrame::parse(&bytes).unwrap();
    assert_eq!(n, 13);
    assert!(!f.fin);
    assert_eq!(f.opcode, WebSocketOpcode::Binary);
    assert_eq!(f.payload, vec![7, 8, 9]);
}

#[test]
fn parse_masked_frame_unmasks() {
    let bytes = [0x8A, 0x83, 1, 2, 3, 4, 1 ^ 10, 2 ^ 20, 3 ^ 30];
    let (n, f) = WebSocketFrame::parse(&bytes).unwrap();
    assert_eq!(n, 9);
    assert_eq!(f.opcode, WebSocketOpcode::Pong);
    assert_eq!(f.payload, vec![10, 20, 30]);
}

#[test]
fn parse_reports_incomplete() {
    assert_eq!(WebSocketFrame::parse(&[]).err(), Some(DecodeError::Incomplete));
    assert_eq!(WebSocketFrame::parse(&[0x81]).err(), Some(DecodeError::Incomplete));
    assert_eq!(WebSocketFrame::parse(&[0x81, 126, 0]).err(), Some(DecodeError::Incomplete));
    assert_eq!(WebSocketFrame::parse(&[0x81, 0x82, 1, 2, 3]).err(), Some(DecodeError::Incomplete));
    assert_eq!(WebSocketFrame::parse(&[0x81, 0x03, 1, 2]).err(), Some(DecodeError::Incomplete));
}

#[test]
fn unknown_opcode_is_malformed() {
    assert_eq!(WebSocketFrame::parse(&[0x83, 0x00]).err(), Some(DecodeError::Malformed));
    assert_eq!(WebSocketFrame::parse(&[0x8B, 0x01, 0]).err(), Some(DecodeError::Malformed));
    let mut buffer = ReadBuffer::new();
    assert_eq!(buffer.receive(&[0x03, 0x00]), Ok(true));
    assert_eq!(buffer.parse_frame().err(), Some(ReadError::Malformed));
}

#[test]
fn reserved_bits_are_ignored_on_decode() {
    let (n, f) = WebSocketFrame::parse(&[0xF1, 0x01, b'x']).unwrap();
    assert_eq!(n, 3);
    assert_eq!(f.opcode, WebSocketOpcode::Text);
}

#[test]
fn builders_set_fields() {
    let t = WebSocketFrame::from_message("abc");
    assert!(t.fin);
    assert_eq!(t.opcode, WebSocketOpcode::Text);
    assert_eq!(t.payload, b"abc".to_vec());
    let c = WebSocketFrame::build_close_frame();
    assert!(c.fin);
    assert_eq!(c.opcode, WebSocketOpcode::Close);
    assert!(c.payload.is_empty());
    let bytes = c.to_bytes();
    assert_eq!(bytes[0], 0x88);
    assert_eq!(bytes[1], 0x80);
    assert_eq!(bytes.len(), 6);
}
