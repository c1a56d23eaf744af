use httpbis::conn::{
    CommonToWriteMessage, ConnError, ErrorCode, HandlerOutcome, HeadersOutcome, OutFrame,
    ServerConn, ServerToWriteMessage,
};
use httpbis::headers::Header;
use httpbis::stream::PeerEvent;

fn h(name: &str, value: &str) -> Header {
    Header { name: name.as_bytes().to_vec(), value: value.as_bytes().to_vec() }
}

fn request() -> Vec<Header> {
    vec![
        h(":method", "GET"),
        h(":path", "/"),
        h(":scheme", "http"),
        h(":authority", "example.com"),
        h("accept", "*/*"),
    ]
}

fn open(conn: &mut ServerConn, id: u32, end_stream: bool) -> usize {
    match conn.process_headers(id, end_stream, request()) {
        Ok(HeadersOutcome::NewStream { index, headers }) => {
            assert_eq!(headers, request());
            index
        }
        other => panic!("stream not opened: {:?}", other),
    }
}

fn data_frames(conn: &ServerConn) -> Vec<(u32, usize, bool)> {
    conn.to_write
        .iter()
        .filter_map(|f| match f {
            OutFrame::Data { stream_id, payload, end_stream } => {
                Some((*stream_id, payload.len(), *end_stream))
            }
            _ => None,
        })
        .collect()
}

#[test]
fn get_request_answered_with_headers_then_data() {
    let mut conn = ServerConn::new();
    let index = open(&mut conn, 1, true);
    assert_eq!(index, 0);
    assert!(conn.streams[0].remote_closed);
    assert!(conn.start_request_done(index, HandlerOutcome::Returned, Some(Vec::new())));
    let resp = vec![h(":status", "200")];
    assert!(conn.send_headers(1, resp.clone(), false));
    assert!(conn.send_data(1, b"hello".to_vec(), true));
    conn.flush();
    assert_eq!(
        conn.to_write,
        vec![
            OutFrame::Headers { stream_id: 1, headers: resp, end_stream: false },
            OutFrame::Data { stream_id: 1, payload: b"hello".to_vec(), end_stream: true },
        ]
    );
    assert!(conn.streams[0].local_closed);
}

#[test]
fn even_stream_id_from_client_is_refused() {
    let mut conn = ServerConn::new();
    let r = conn.process_headers(2, true, request());
    assert_eq!(r.err(), Some(ConnError::InitiatedStreamWithServerIdFromClient(2)));
    assert!(conn.streams.is_empty());
    assert_eq!(conn.last_peer_stream_id, 0);
    assert!(conn.to_write.is_empty());
}

#[test]
fn zero_window_holds_data_until_update() {
    let mut conn = ServerConn::new();
    assert_eq!(conn.process_settings(&vec![(4, 0)]), Ok(()));
    assert_eq!(conn.to_write, vec![OutFrame::SettingsAck]);
    open(&mut conn, 1, true);
    assert_eq!(conn.streams[0].out_window, 0);
    assert!(conn.send_data(1, vec![7u8; 100], false));
    conn.flush();
    assert!(data_frames(&conn).is_empty());
    assert_eq!(conn.process_window_update(1, 99), Ok(()));
    assert_eq!(conn.process_window_update(1, 1), Ok(()));
    conn.flush();
    assert_eq!(data_frames(&conn), vec![(1, 100, false)]);
    assert_eq!(conn.streams[0].out_window, 0);
    assert!(conn.streams[0].outgoing.is_empty());
}

#[test]
fn failed_or_panicking_handler_leaves_connection_serving() {
    let mut conn = ServerConn::new();
    let i = open(&mut conn, 1, true);
    assert!(!conn.start_request_done(i, HandlerOutcome::Panicked, None));
    assert_eq!(conn.streams.len(), 1);
    assert!(!conn.streams[0].local_closed);
    assert!(conn.to_write.is_empty());
    let j = open(&mut conn, 3, true);
    assert!(!conn.start_request_done(j, HandlerOutcome::ReturnedError, None));
    let k = open(&mut conn, 5, false);
    assert!(conn.start_request_done(k, HandlerOutcome::Returned, Some(Vec::new())));
    assert_eq!(conn.streams.len(), 3);
    assert!(conn.send_data(5, b"ok".to_vec(), true));
    conn.flush();
    assert_eq!(data_frames(&conn), vec![(5, 2, true)]);
}

#[test]
fn shrinking_settings_pause_sending_until_credit_is_positive() {
    let mut conn = ServerConn::new();
    open(&mut conn, 1, true);
    assert!(conn.send_data(1, vec![1u8; 2000], false));
    conn.flush();
    assert_eq!(data_frames(&conn), vec![(1, 2000, false)]);
    assert_eq!(conn.streams[0].out_window, 65535 - 2000);
    assert_eq!(conn.process_settings(&vec![(4, 1000)]), Ok(()));
    assert_eq!(conn.streams[0].out_window, -1000);
    assert!(conn.send_data(1, vec![2u8; 500], false));
    conn.flush();
    assert_eq!(data_frames(&conn).len(), 1);
    assert_eq!(conn.process_window_update(1, 1000), Ok(()));
    conn.flush();
    assert_eq!(data_frames(&conn).len(), 1);
    assert_eq!(conn.process_window_update(1, 300), Ok(()));
    conn.flush();
    assert_eq!(data_frames(&conn), vec![(1, 2000, false), (1, 300, false)]);
    assert_eq!(conn.streams[0].out_window, 0);
    assert_eq!(conn.process_window_update(1, 1000), Ok(()));
    conn.flush();
    assert_eq!(data_frames(&conn), vec![(1, 2000, false), (1, 300, false), (1, 200, false)]);
    assert_eq!(conn.streams[0].out_window, 800);
}

#[test]
fn stream_ids_strictly_increase_and_are_never_reused() {
    let mut conn = ServerConn::new();
    open(&mut conn, 1, true);
    open(&mut conn, 5, true);
    assert_eq!(conn.last_peer_stream_id, 5);
    let r = conn.process_headers(3, true, request());
    assert_eq!(r.err(), Some(ConnError::StreamIdLeExistingStream(3, 5)));
    conn.process_rst_stream(1);
    assert_eq!(conn.streams.len(), 1);
    let r = conn.process_headers(1, true, request());
    assert_eq!(r.err(), Some(ConnError::StreamIdLeExistingStream(1, 5)));
    open(&mut conn, 7, true);
    let ids: Vec<u32> = conn.streams.iter().map(|s| s.id).collect();
    assert_eq!(ids, vec![5, 7]);
}

#[test]
fn duplicate_window_update_credits_each_frame_once() {
    let mut conn = ServerConn::new();
    open(&mut conn, 1, true);
    assert_eq!(conn.process_window_update(1, 10), Ok(()));
    assert_eq!(conn.process_window_update(1, 10), Ok(()));
    assert_eq!(conn.streams[0].out_window, 65535 + 20);
    assert_eq!(conn.out_window, 65535);
    assert_eq!(conn.process_window_update(0, 10), Ok(()));
    assert_eq!(conn.out_window, 65545);
}

#[test]
fn window_update_errors() {
    let mut conn = ServerConn::new();
    open(&mut conn, 1, true);
    assert_eq!(conn.process_window_update(1, 0), Err(ConnError::ZeroWindowIncrement));
    assert_eq!(conn.process_window_update(0, 2147483647), Err(ConnError::FlowControl));
    assert_eq!(conn.process_window_update(1, 2147483647 - 65535 + 1), Err(ConnError::FlowControl));
    assert_eq!(conn.process_window_update(1, 2147483647 - 65535), Ok(()));
    assert_eq!(conn.streams[0].out_window, 2147483647);
    // an update for a stream that is not open is ignored
    assert_eq!(conn.process_window_update(9, 5), Ok(()));
}

#[test]
fn settings_errors_change_nothing() {
    let mut conn = ServerConn::new();
    assert_eq!(conn.process_settings(&vec![(4, 2147483648)]), Err(ConnError::FlowControl));
    assert_eq!(conn.process_settings(&vec![(5, 100)]), Err(ConnError::InvalidSetting));
    assert_eq!(conn.process_settings(&vec![(5, 16777216)]), Err(ConnError::InvalidSetting));
    open(&mut conn, 1, true);
    assert_eq!(conn.process_window_update(1, 2147483647 - 65535), Ok(()));
    assert_eq!(conn.process_settings(&vec![(4, 65536)]), Err(ConnError::FlowControl));
    assert_eq!(conn.peer_initial_window, 65535);
    assert!(conn.to_write.is_empty());
    // the last pair for an identifier wins, unknown identifiers are ignored
    assert_eq!(conn.process_settings(&vec![(4, 10), (2, 0), (5, 20000), (4, 30)]), Ok(()));
    assert_eq!(conn.peer_initial_window, 30);
    assert_eq!(conn.peer_max_frame_size, 20000);
}

#[test]
fn data_is_split_at_max_frame_size() {
    let mut conn = ServerConn::new();
    open(&mut conn, 1, true);
    assert!(conn.send_data(1, vec![0u8; 40000], true));
    conn.flush();
    assert_eq!(data_frames(&conn), vec![(1, 16384, false), (1, 16384, false), (1, 7232, true)]);
}

#[test]
fn connection_window_bounds_all_streams() {
    let mut conn = ServerConn::new();
    open(&mut conn, 1, true);
    open(&mut conn, 3, true);
    assert!(conn.send_data(1, vec![0u8; 60000], false));
    assert!(conn.send_data(3, vec![0u8; 10000], false));
    conn.flush();
    assert_eq!(conn.out_window, 0);
    assert_eq!(
        data_frames(&conn),
        vec![(1, 16384, false), (1, 16384, false), (1, 16384, false), (1, 10848, false), (3, 5535, false)]
    );
    assert_eq!(conn.process_window_update(0, 100000), Ok(()));
    conn.flush();
    assert_eq!(data_frames(&conn).last(), Some(&(3, 4465, false)));
}

#[test]
fn data_frame_handling() {
    let mut conn = ServerConn::new();
    assert_eq!(conn.process_data(1, vec![1, 2], false), Err(ConnError::UnknownStream(1)));
    open(&mut conn, 1, false);
    assert_eq!(conn.process_data(1, vec![1, 2, 3], false), Ok(()));
    assert_eq!(conn.process_data(1, vec![4], true), Ok(()));
    assert_eq!(conn.streams[0].in_data, vec![1, 2, 3, 4]);
    assert_eq!(conn.streams[0].in_window, 65531);
    assert_eq!(conn.in_window, 65531);
    assert!(conn.streams[0].remote_closed);
    assert_eq!(conn.process_data(1, vec![5], false), Err(ConnError::StreamClosed(1)));
    open(&mut conn, 3, false);
    assert_eq!(conn.process_data(3, vec![0u8; 65532], false), Err(ConnError::FlowControl));
    assert_eq!(conn.process_data(3, vec![0u8; 65531], false), Ok(()));
    assert_eq!(conn.in_window, 0);
    assert!(conn.increase_in_window(1, 4));
    assert_eq!(conn.in_window, 4);
    assert_eq!(
        conn.to_write,
        vec![
            OutFrame::WindowUpdate { stream_id: 1, increment: 4 },
            OutFrame::WindowUpdate { stream_id: 0, increment: 4 },
        ]
    );
    assert!(!conn.increase_in_window(1, 2147483647 - 65535 + 1));
    assert!(!conn.increase_in_window(9, 1));
    assert!(!conn.increase_in_window(1, 0));
}

#[test]
fn trailers_reach_the_handler() {
    let mut conn = ServerConn::new();
    let i = open(&mut conn, 1, false);
    assert!(conn.start_request_done(i, HandlerOutcome::Returned, Some(Vec::new())));
    let trailers = vec![h("grpc-status", "0")];
    match conn.process_headers(1, true, trailers.clone()) {
        Ok(HeadersOutcome::Trailers { index }) => assert_eq!(index, 0),
        other => panic!("unexpected: {:?}", other),
    }
    assert_eq!(conn.streams[0].peer_tx, Some(vec![PeerEvent::Trailers(trailers), PeerEvent::EndOfStream]));
    assert!(conn.streams[0].remote_closed);
}

#[test]
fn trailers_without_handler_are_dropped() {
    let mut conn = ServerConn::new();
    open(&mut conn, 1, false);
    let r = conn.process_headers(1, true, vec![h("x", "y")]);
    assert!(matches!(r, Ok(HeadersOutcome::Trailers { index: 0 })));
    assert_eq!(conn.streams[0].peer_tx, None);
}

#[test]
fn headers_without_end_stream_on_open_stream_reset_it() {
    let mut conn = ServerConn::new();
    open(&mut conn, 1, false);
    let r = conn.process_headers(1, false, vec![h("x", "y")]);
    assert!(matches!(r, Ok(HeadersOutcome::Reset)));
    assert_eq!(conn.to_write, vec![OutFrame::RstStream { stream_id: 1, code: ErrorCode::ProtocolError }]);
    assert_eq!(conn.streams.len(), 1);
}

#[test]
fn invalid_headers_reset_the_stream_only() {
    let mut conn = ServerConn::new();
    let r = conn.process_headers(1, true, vec![h(":method", "GET"), h(":path", "/")]);
    assert!(matches!(r, Ok(HeadersOutcome::Reset)));
    assert_eq!(conn.to_write, vec![OutFrame::RstStream { stream_id: 1, code: ErrorCode::ProtocolError }]);
    assert!(conn.streams.is_empty());
    // pseudo-headers in trailers
    open(&mut conn, 3, false);
    let r = conn.process_headers(3, true, vec![h(":path", "/")]);
    assert!(matches!(r, Ok(HeadersOutcome::Reset)));
    assert_eq!(conn.streams.len(), 1);
}

#[test]
fn goaway_refuses_new_streams_and_drains() {
    let mut conn = ServerConn::new();
    open(&mut conn, 1, true);
    conn.send_goaway(ErrorCode::NoError);
    assert_eq!(conn.to_write, vec![OutFrame::GoAway { last_stream_id: 1, code: ErrorCode::NoError }]);
    let r = conn.process_headers(3, true, request());
    assert!(matches!(r, Ok(HeadersOutcome::Reset)));
    assert_eq!(conn.to_write[1], OutFrame::RstStream { stream_id: 3, code: ErrorCode::RefusedStream });
    // after GOAWAY a bad id still ends the connection
    assert_eq!(conn.process_headers(4, true, request()).err(), Some(ConnError::InitiatedStreamWithServerIdFromClient(4)));
    assert_eq!(conn.process_headers(1, true, request()).err(), None);
    assert!(!conn.end_loop());
    conn.process_rst_stream(1);
    assert!(conn.end_loop());
}

#[test]
fn end_of_stream_reaches_the_handler() {
    let mut conn = ServerConn::new();
    let i = open(&mut conn, 1, false);
    assert!(conn.start_request_done(i, HandlerOutcome::Returned, Some(Vec::new())));
    assert_eq!(conn.process_data(1, vec![1, 2], false), Ok(()));
    assert_eq!(conn.streams[0].peer_tx, Some(vec![]));
    assert_eq!(conn.process_data(1, vec![3], true), Ok(()));
    assert_eq!(conn.streams[0].peer_tx, Some(vec![PeerEvent::EndOfStream]));
    assert_eq!(conn.streams[0].in_data, vec![1, 2, 3]);
}

#[test]
fn peer_goaway_sets_flag() {
    let mut conn = ServerConn::new();
    assert!(!conn.end_loop());
    conn.process_goaway();
    assert!(conn.goaway);
    assert!(conn.end_loop());
}

#[test]
fn ping_is_acknowledged_once() {
    let mut conn = ServerConn::new();
    conn.process_ping(0x0102030405060708, false);
    conn.process_ping(9, true);
    assert_eq!(conn.to_write, vec![OutFrame::PingAck { data: 0x0102030405060708 }]);
}

#[test]
fn messages_from_outside_the_task() {
    let mut conn = ServerConn::new();
    open(&mut conn, 1, true);
    open(&mut conn, 3, true);
    let m = ServerToWriteMessage::from(CommonToWriteMessage::StreamEnqueue {
        stream_id: 1,
        data: vec![1, 2, 3],
        end_stream: false,
    });
    assert_eq!(conn.process_message(m), None);
    assert_eq!(conn.process_message(ServerToWriteMessage::Common(CommonToWriteMessage::StreamEnd { stream_id: 1 })), None);
    assert_eq!(data_frames(&conn), vec![(1, 3, false), (1, 0, true)]);
    let r = ServerToWriteMessage::Common(CommonToWriteMessage::Reset { stream_id: 3, code: ErrorCode::Cancel });
    assert_eq!(conn.process_message(r), None);
    assert_eq!(conn.to_write.last(), Some(&OutFrame::RstStream { stream_id: 3, code: ErrorCode::Cancel }));
    // a second reset of the same stream writes nothing
    let n = conn.to_write.len();
    let r = ServerToWriteMessage::Common(CommonToWriteMessage::Reset { stream_id: 3, code: ErrorCode::Cancel });
    assert_eq!(conn.process_message(r), None);
    assert_eq!(conn.to_write.len(), n);
    // stream 1 is done on both sides and has left the table
    let snap = conn.process_message(ServerToWriteMessage::Common(CommonToWriteMessage::DumpState)).unwrap();
    assert!(snap.streams.is_empty());
    assert_eq!(snap.out_window, 65535 - 3);
    assert_eq!(snap.last_peer_stream_id, 3);
}

#[test]
fn dump_state_lists_open_streams() {
    let mut conn = ServerConn::new();
    open(&mut conn, 1, false);
    let m = CommonToWriteMessage::StreamEnqueue { stream_id: 1, data: vec![1, 2, 3], end_stream: true };
    assert_eq!(conn.process_message(ServerToWriteMessage::from(m)), None);
    let snap = conn.process_message(ServerToWriteMessage::Common(CommonToWriteMessage::DumpState)).unwrap();
    assert_eq!(snap.streams.len(), 1);
    assert_eq!(snap.streams[0].id, 1);
    assert_eq!(snap.streams[0].out_window, 65535 - 3);
    assert!(snap.streams[0].local_closed);
    assert!(!snap.streams[0].remote_closed);
    assert_eq!(snap.streams[0].queued, 0);
}

#[test]
fn sending_on_closed_or_unknown_stream_fails() {
    let mut conn = ServerConn::new();
    assert!(!conn.send_data(1, vec![1], false));
    assert!(!conn.send_headers(1, vec![], false));
    open(&mut conn, 1, true);
    assert!(conn.send_headers(1, vec![h(":status", "204")], true));
    assert!(!conn.send_data(1, vec![1], false));
}

#[test]
fn inbound_credit_returns_at_half_window() {
    let mut conn = ServerConn::new();
    open(&mut conn, 1, false);
    assert_eq!(conn.process_data(1, vec![0u8; 30000], false), Ok(()));
    conn.refill_in_windows(1);
    assert!(conn.to_write.is_empty());
    assert_eq!(conn.process_data(1, vec![0u8; 3000], false), Ok(()));
    conn.refill_in_windows(1);
    assert_eq!(
        conn.to_write,
        vec![
            OutFrame::WindowUpdate { stream_id: 1, increment: 33000 },
            OutFrame::WindowUpdate { stream_id: 0, increment: 33000 },
        ]
    );
    assert_eq!(conn.in_window, 65535);
    assert_eq!(conn.streams[0].in_window, 65535);
    // a stream that is not open gets nothing back, the connection still may
    assert_eq!(conn.process_data(1, vec![0u8; 40000], false), Ok(()));
    conn.refill_in_windows(7);
    assert_eq!(conn.to_write.last(), Some(&OutFrame::WindowUpdate { stream_id: 0, increment: 40000 }));
    assert_eq!(conn.streams[0].in_window, 25535);
}
