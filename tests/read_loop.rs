use httpbis::conn::{headers_frame, ErrorCode, ConnError, OutFrame, ReadOutcome, ServerConn, HandlerOutcome, HeadersOutcome};
use httpbis::frame::{decode_frames, encode_frames, RawFrame};
use httpbis::headers::Header;

fn raw(kind: u8, flags: u8, stream_id: u32, payload: &[u8]) -> RawFrame {
    RawFrame { kind, flags, stream_id, payload: payload.to_vec() }
}

fn h(name: &str, value: &str) -> Header {
    Header { name: name.as_bytes().to_vec(), value: value.as_bytes().to_vec() }
}

fn request() -> Vec<Header> {
    vec![h(":method", "POST"), h(":path", "/x"), h(":scheme", "http"), h("host", "example.com")]
}

#[test]
fn headers_frame_comes_back_for_decoding() {
    let mut conn = ServerConn::new();
    let r = conn.process_frame(raw(1, 5, 1, &[0x82, 0x84]));
    assert_eq!(r, Ok(ReadOutcome::Headers { stream_id: 1, end_stream: true, block: vec![0x82, 0x84] }));
    assert!(conn.streams.is_empty());
}

#[test]
fn headers_padding_and_priority_are_taken_off() {
    let mut conn = ServerConn::new();
    // PADDED | END_HEADERS: pad length 2, block, 2 bytes of padding
    let r = conn.process_frame(raw(1, 0x0c, 1, &[2, 0x82, 0x84, 0, 0]));
    assert_eq!(r, Ok(ReadOutcome::Headers { stream_id: 1, end_stream: false, block: vec![0x82, 0x84] }));
    // PRIORITY | END_HEADERS: 5 bytes of priority fields first
    let r = conn.process_frame(raw(1, 0x24, 3, &[0, 0, 0, 0, 16, 0x82]));
    assert_eq!(r, Ok(ReadOutcome::Headers { stream_id: 3, end_stream: false, block: vec![0x82] }));
    // both, with END_STREAM
    let r = conn.process_frame(raw(1, 0x2d, 5, &[1, 0, 0, 0, 0, 16, 0x86, 9]));
    assert_eq!(r, Ok(ReadOutcome::Headers { stream_id: 5, end_stream: true, block: vec![0x86] }));
    // padding longer than the payload
    assert_eq!(conn.process_frame(raw(1, 0x0c, 7, &[5, 0x82])), Err(ConnError::Protocol));
    assert_eq!(conn.process_frame(raw(1, 0x24, 7, &[0, 0])), Err(ConnError::Protocol));
}

#[test]
fn continued_header_blocks_are_refused() {
    let mut conn = ServerConn::new();
    assert_eq!(conn.process_frame(raw(1, 1, 1, &[0x82])), Err(ConnError::HeaderBlockContinued));
    assert_eq!(conn.process_frame(raw(9, 4, 1, &[0x84])), Err(ConnError::Protocol));
}

#[test]
fn padded_data_counts_whole_frame_against_windows() {
    let mut conn = ServerConn::new();
    assert!(matches!(conn.process_headers(1, false, request()), Ok(HeadersOutcome::NewStream { .. })));
    assert_eq!(conn.process_frame(raw(0, 9, 1, &[3, 7, 8, 0, 0, 0])), Ok(ReadOutcome::Done));
    assert_eq!(conn.streams[0].in_data, vec![7, 8]);
    assert_eq!(conn.streams[0].in_window, 65535 - 6);
    assert_eq!(conn.in_window, 65535 - 6);
    assert!(conn.streams[0].remote_closed);
    assert!(matches!(conn.process_headers(3, false, request()), Ok(HeadersOutcome::NewStream { .. })));
    assert_eq!(conn.process_frame(raw(0, 8, 3, &[4, 1])), Err(ConnError::Protocol));
}

#[test]
fn data_frame_dispatch() {
    let mut conn = ServerConn::new();
    assert_eq!(conn.process_frame(raw(0, 0, 1, &[1])), Err(ConnError::UnknownStream(1)));
    assert!(matches!(conn.process_headers(1, false, request()), Ok(HeadersOutcome::NewStream { .. })));
    assert_eq!(conn.process_frame(raw(0, 1, 1, &[1, 2])), Ok(ReadOutcome::Done));
    assert_eq!(conn.streams[0].in_data, vec![1, 2]);
    assert!(conn.streams[0].remote_closed);
    assert_eq!(conn.process_frame(raw(0, 8, 1, &[0, 1])), Err(ConnError::StreamClosed(1)));
}

#[test]
fn settings_frame_dispatch() {
    let mut conn = ServerConn::new();
    assert_eq!(conn.process_frame(raw(4, 0, 1, &[])), Err(ConnError::Protocol));
    assert_eq!(conn.process_frame(raw(4, 1, 0, &[])), Ok(ReadOutcome::Done));
    assert_eq!(conn.process_frame(raw(4, 1, 0, &[0, 4, 0, 0, 0, 1])), Err(ConnError::FrameSize));
    assert_eq!(conn.process_frame(raw(4, 0, 0, &[0, 4, 0])), Err(ConnError::FrameSize));
    assert!(conn.to_write.is_empty());
    assert_eq!(conn.process_frame(raw(4, 0, 0, &[0, 4, 0, 0, 0x03, 0xe8])), Ok(ReadOutcome::Done));
    assert_eq!(conn.peer_initial_window, 1000);
    assert_eq!(conn.to_write, vec![OutFrame::SettingsAck]);
}

#[test]
fn window_update_frame_dispatch() {
    let mut conn = ServerConn::new();
    assert_eq!(conn.process_frame(raw(8, 0, 0, &[0, 0, 1])), Err(ConnError::FrameSize));
    assert_eq!(conn.process_frame(raw(8, 0, 0, &[0x80, 0, 0, 0])), Err(ConnError::ZeroWindowIncrement));
    assert_eq!(conn.process_frame(raw(8, 0, 0, &[0x80, 0, 1, 0])), Ok(ReadOutcome::Done));
    assert_eq!(conn.out_window, 65535 + 256);
}

#[test]
fn ping_frame_dispatch() {
    let mut conn = ServerConn::new();
    assert_eq!(conn.process_frame(raw(6, 0, 1, &[0; 8])), Err(ConnError::Protocol));
    assert_eq!(conn.process_frame(raw(6, 0, 0, &[0; 7])), Err(ConnError::FrameSize));
    assert_eq!(conn.process_frame(raw(6, 0, 0, &[1, 2, 3, 4, 5, 6, 7, 8])), Ok(ReadOutcome::Done));
    assert_eq!(conn.process_frame(raw(6, 1, 0, &[9; 8])), Ok(ReadOutcome::Done));
    assert_eq!(conn.to_write, vec![OutFrame::PingAck { data: 0x0102030405060708 }]);
}

#[test]
fn rst_goaway_and_unknown_frames() {
    let mut conn = ServerConn::new();
    assert!(matches!(conn.process_headers(1, false, request()), Ok(HeadersOutcome::NewStream { .. })));
    assert_eq!(conn.process_frame(raw(3, 0, 1, &[0, 0, 0])), Err(ConnError::FrameSize));
    assert_eq!(conn.process_frame(raw(3, 0, 1, &[0, 0, 0, 8])), Ok(ReadOutcome::Done));
    assert!(conn.streams.is_empty());
    assert_eq!(conn.process_frame(raw(2, 0, 1, &[0, 0, 0, 0, 16])), Ok(ReadOutcome::Done));
    assert_eq!(conn.process_frame(raw(0x20, 0, 0, &[1])), Ok(ReadOutcome::Done));
    assert!(!conn.goaway);
    assert_eq!(conn.process_frame(raw(7, 0, 0, &[0, 0, 0, 1, 0, 0, 0, 0])), Ok(ReadOutcome::Done));
    assert!(conn.goaway);
    assert!(conn.end_loop());
}

#[test]
fn bytes_through_the_read_loop() {
    let frames = vec![
        raw(4, 0, 0, &[0, 5, 0, 0, 0x40, 0x01]),
        raw(6, 0, 0, &[0, 0, 0, 0, 0, 0, 0, 42]),
        raw(8, 0, 0, &[0, 0, 0, 10]),
    ];
    let bytes = encode_frames(&frames);
    let mut conn = ServerConn::new();
    for f in decode_frames(&bytes, 16384).unwrap() {
        assert_eq!(conn.process_frame(f), Ok(ReadOutcome::Done));
    }
    assert_eq!(conn.peer_max_frame_size, 16385);
    assert_eq!(conn.out_window, 65545);
    assert_eq!(conn.to_write, vec![OutFrame::SettingsAck, OutFrame::PingAck { data: 42 }]);
}

#[test]
fn finished_streams_leave_the_table() {
    let mut conn = ServerConn::new();
    for id in [1u32, 3, 5] {
        match conn.process_headers(id, true, request()) {
            Ok(HeadersOutcome::NewStream { index, .. }) => {
                assert!(conn.start_request_done(index, HandlerOutcome::Returned, None))
            }
            other => panic!("{:?}", other),
        }
    }
    assert!(conn.send_data(1, vec![1, 2], true));
    assert!(conn.send_headers(5, vec![h(":status", "200")], true));
    conn.remove_closed_streams();
    // stream 5 is done; stream 1 still has bytes queued
    let ids: Vec<u32> = conn.streams.iter().map(|s| s.id).collect();
    assert_eq!(ids, vec![1, 3]);
    conn.flush();
    conn.remove_closed_streams();
    let ids: Vec<u32> = conn.streams.iter().map(|s| s.id).collect();
    assert_eq!(ids, vec![3]);
}

#[test]
fn control_frames_on_the_wire() {
    let wu = OutFrame::WindowUpdate { stream_id: 3, increment: 0x01020304 }.into_raw().unwrap();
    assert_eq!((wu.kind, wu.flags, wu.stream_id, wu.payload), (8, 0, 3, vec![1, 2, 3, 4]));
    let rst = OutFrame::RstStream { stream_id: 1, code: ErrorCode::RefusedStream }.into_raw().unwrap();
    assert_eq!((rst.kind, rst.stream_id, rst.payload), (3, 1, vec![0, 0, 0, 7]));
    let ping = OutFrame::PingAck { data: 0x0102030405060708 }.into_raw().unwrap();
    assert_eq!((ping.kind, ping.flags, ping.payload), (6, 1, vec![1, 2, 3, 4, 5, 6, 7, 8]));
    let ga = OutFrame::GoAway { last_stream_id: 5, code: ErrorCode::FlowControlError }.into_raw().unwrap();
    assert_eq!((ga.kind, ga.stream_id, ga.payload), (7, 0, vec![0, 0, 0, 5, 0, 0, 0, 3]));
    let ack = OutFrame::SettingsAck.into_raw().unwrap();
    assert_eq!((ack.kind, ack.flags, ack.payload.len()), (4, 1, 0));
    let d = OutFrame::Data { stream_id: 1, payload: vec![9], end_stream: true }.into_raw().unwrap();
    assert_eq!((d.kind, d.flags, d.stream_id, d.payload), (0, 1, 1, vec![9]));
    assert!(OutFrame::Headers { stream_id: 1, headers: vec![], end_stream: false }.into_raw().is_none());
    let hf = headers_frame(1, true, vec![0x88]);
    assert_eq!((hf.kind, hf.flags, hf.stream_id, hf.payload), (1, 5, 1, vec![0x88]));
    assert_eq!(headers_frame(3, false, vec![]).flags, 4);
}
