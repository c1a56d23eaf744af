use httpbis::frame::{
    server_settings_frame, starts_with_client_preface,
    decode_frame, decode_frames, decode_settings, encode_frame, encode_frames, FrameError,
    RawFrame, KIND_DATA, KIND_HEADERS, FLAG_END_HEADERS, FLAG_END_STREAM,
};
use httpbis::headers::{request_headers, validate_request, Header, HeaderError, HeadersPlace};
use httpbis::stream::{PeerEvent, ServerStream};

fn h(name: &str, value: &str) -> Header {
    Header { name: name.as_bytes().to_vec(), value: value.as_bytes().to_vec() }
}

fn frame(kind: u8, flags: u8, stream_id: u32, payload: &[u8]) -> RawFrame {
    RawFrame { kind, flags, stream_id, payload: payload.to_vec() }
}

#[test]
fn frame_header_bytes() {
    let mut out = Vec::new();
    encode_frame(&frame(KIND_DATA, FLAG_END_STREAM, 0x01020304, &[9, 8]), &mut out);
    assert_eq!(out, vec![0, 0, 2, 0, 1, 1, 2, 3, 4, 9, 8]);
}

#[test]
fn headers_data_trailers_round_trip() {
    let frames = vec![
        frame(KIND_HEADERS, FLAG_END_HEADERS, 1, &[0x82, 0x86, 0x84]),
        frame(KIND_DATA, 0, 1, b"payload bytes"),
        frame(KIND_HEADERS, FLAG_END_HEADERS | FLAG_END_STREAM, 1, &[0x40, 0x01, 0x78]),
    ];
    let bytes = encode_frames(&frames);
    assert_eq!(bytes.len(), 27 + 3 + 13 + 3);
    assert_eq!(decode_frames(&bytes, 16384), Ok(frames));
}

#[test]
fn decode_frame_errors() {
    let bytes = encode_frames(&vec![frame(KIND_DATA, 0, 3, &[1, 2, 3, 4])]);
    assert_eq!(decode_frame(&bytes, 0, 16384).map(|(f, n)| (f.stream_id, n)), Ok((3, 13)));
    assert_eq!(decode_frame(&bytes[..12].to_vec(), 0, 16384).err(), Some(FrameError::Incomplete));
    assert_eq!(decode_frame(&bytes[..5].to_vec(), 0, 16384).err(), Some(FrameError::Incomplete));
    assert_eq!(decode_frame(&bytes, 0, 3).err(), Some(FrameError::FrameTooLarge));
    assert_eq!(decode_frames(&bytes[..12].to_vec(), 16384), Err(FrameError::Incomplete));
}

#[test]
fn reserved_bit_of_stream_id_is_ignored() {
    let bytes = vec![0, 0, 0, 8, 0, 0x80, 0, 0, 5];
    let (f, n) = decode_frame(&bytes, 0, 16384).unwrap();
    assert_eq!(f.stream_id, 5);
    assert_eq!(f.kind, 8);
    assert_eq!(n, 9);
}

#[test]
fn settings_payload() {
    let payload = vec![0, 4, 0, 0, 0x03, 0xe8, 0, 5, 0, 0, 0x40, 0];
    assert_eq!(decode_settings(&payload), Ok(vec![(4, 1000), (5, 16384)]));
    assert_eq!(decode_settings(&vec![0, 4, 0]), Err(FrameError::SettingsLength));
    assert_eq!(decode_settings(&vec![]), Ok(vec![]));
}

#[test]
fn request_header_validation() {
    let ok = vec![h(":method", "GET"), h(":scheme", "https"), h(":path", "/"), h(":authority", "a"), h("x", "y")];
    assert_eq!(validate_request(&ok, HeadersPlace::Initial), Ok(()));
    let after = vec![h(":method", "GET"), h("x", "y"), h(":scheme", "https"), h(":path", "/"), h(":authority", "a")];
    assert_eq!(validate_request(&after, HeadersPlace::Initial), Err(HeaderError::PseudoAfterRegular));
    let unknown = vec![h(":method", "GET"), h(":status", "200"), h(":scheme", "https"), h(":path", "/"), h(":authority", "a")];
    assert_eq!(validate_request(&unknown, HeadersPlace::Initial), Err(HeaderError::UnexpectedPseudo));
    let twice = vec![h(":method", "GET"), h(":method", "GET"), h(":scheme", "https"), h(":path", "/"), h(":authority", "a")];
    assert_eq!(validate_request(&twice, HeadersPlace::Initial), Err(HeaderError::PseudoCount));
    let missing = vec![h(":method", "GET"), h(":path", "/"), h(":authority", "a")];
    assert_eq!(validate_request(&missing, HeadersPlace::Initial), Err(HeaderError::PseudoCount));
    let no_authority = vec![h(":method", "GET"), h(":scheme", "https"), h(":path", "/")];
    assert_eq!(validate_request(&no_authority, HeadersPlace::Initial), Err(HeaderError::PseudoCount));
    let by_host = vec![h(":method", "GET"), h(":scheme", "https"), h(":path", "/"), h("host", "a")];
    assert_eq!(validate_request(&by_host, HeadersPlace::Initial), Ok(()));
    let two_authorities = vec![h(":method", "GET"), h(":scheme", "https"), h(":path", "/"), h(":authority", "a"), h(":authority", "b")];
    assert_eq!(validate_request(&two_authorities, HeadersPlace::Initial), Err(HeaderError::PseudoCount));
    assert_eq!(validate_request(&missing, HeadersPlace::Initial), Err(HeaderError::PseudoCount));
    assert_eq!(validate_request(&vec![], HeadersPlace::Initial), Err(HeaderError::PseudoCount));
    assert_eq!(validate_request(&vec![h("grpc-status", "0")], HeadersPlace::Trailing), Ok(()));
    assert_eq!(validate_request(&vec![], HeadersPlace::Trailing), Ok(()));
    assert_eq!(
        validate_request(&vec![h(":path", "/")], HeadersPlace::Trailing),
        Err(HeaderError::UnexpectedPseudo)
    );
}

#[test]
fn stream_trailers_recvd() {
    let mut s = ServerStream::new(1, 10, 20, false);
    s.trailers_recvd(vec![h("a", "b")]);
    assert_eq!(s.peer_tx, None);
    s.peer_tx = Some(vec![PeerEvent::EndOfStream]);
    s.trailers_recvd(vec![h("a", "b")]);
    assert_eq!(s.peer_tx, Some(vec![PeerEvent::EndOfStream, PeerEvent::Trailers(vec![h("a", "b")])]));
    assert_eq!(s.out_window, 10);
    assert_eq!(s.in_window, 20);
}

#[test]
fn client_preface_and_server_settings() {
    let mut b = b"PRI * HTTP/2.0\r\n\r\nSM\r\n\r\n".to_vec();
    assert!(starts_with_client_preface(&b));
    b.push(0);
    assert!(starts_with_client_preface(&b));
    assert!(!starts_with_client_preface(&b"PRI * HTTP/1.1\r\n\r\nSM\r\n\r\n".to_vec()));
    assert!(!starts_with_client_preface(&b"PRI".to_vec()));
    let f = server_settings_frame();
    let mut out = Vec::new();
    encode_frame(&f, &mut out);
    assert_eq!(out, vec![0, 0, 6, 4, 0, 0, 0, 0, 0, 0, 2, 0, 0, 0, 0]);
}

#[test]
fn request_headers_put_pseudo_headers_first() {
    let hs = request_headers(
        b"POST".to_vec(),
        b"/svc/Method".to_vec(),
        b"localhost".to_vec(),
        b"http".to_vec(),
        vec![h("te", "trailers")],
    );
    assert_eq!(
        hs,
        vec![
            h(":method", "POST"),
            h(":path", "/svc/Method"),
            h(":authority", "localhost"),
            h(":scheme", "http"),
            h("te", "trailers"),
        ]
    );
    assert_eq!(validate_request(&hs, HeadersPlace::Initial), Ok(()));
}
