//! The server side of a connection: stream table, flow-control windows,
//! negotiated settings and the queue of frames to write, with the decisions
//! that the read loop, the write loop and the command loop take on them.
use vstd::prelude::*;

use crate::frame::{
    frame_body, strip_frame_body, FLAG_PADDED, FLAG_PRIORITY, KIND_CONTINUATION,
    be32, decode_settings, get32, settings_of, RawFrame, FLAG_ACK, FLAG_END_STREAM, KIND_DATA, KIND_GOAWAY,
    KIND_HEADERS, KIND_PING, KIND_RST_STREAM, KIND_SETTINGS, KIND_WINDOW_UPDATE, FLAG_END_HEADERS,
    FrameModel,
};
use crate::headers::{names, valid_request_block, validate_request, Header, HeadersPlace};
use crate::stream::{delivered, PeerEvent, ServerStream, MAX_WINDOW};

verus! {

/// Window size that both sides assume before any SETTINGS frame.
pub const DEFAULT_WINDOW_SIZE: u32 = 65535;
/// Frame size that both sides assume before any SETTINGS frame.
pub const DEFAULT_MAX_FRAME_SIZE: u32 = 16384;
/// The largest frame size a peer may ask for.
pub const MAX_MAX_FRAME_SIZE: u32 = 16777215;

/// Error codes carried by RST_STREAM and GOAWAY frames.
#[derive(Clone, Copy, Debug, PartialEq, Eq, Structural)]
pub enum ErrorCode {
    NoError,
    ProtocolError,
    InternalError,
    FlowControlError,
    StreamClosed,
    FrameSizeError,
    RefusedStream,
    Cancel,
}

/// Errors that end the connection.
#[derive(Clone, Copy, Debug, PartialEq, Eq, Structural)]
pub enum ConnError {
    /// The client opened a stream with an even (server-side) id.
    InitiatedStreamWithServerIdFromClient(u32),
    /// The client opened a stream whose id does not exceed the last one it used.
    StreamIdLeExistingStream(u32, u32),
    /// A DATA frame names a stream that is not open.
    UnknownStream(u32),
    /// A DATA frame arrives after the peer ended the stream.
    StreamClosed(u32),
    /// A window would be exceeded or would leave its range.
    FlowControl,
    /// A WINDOW_UPDATE frame with a zero increment.
    ZeroWindowIncrement,
    /// A SETTINGS value out of its range.
    InvalidSetting,
    /// GOAWAY was exchanged and every stream has drained.
    GoAway,
    /// A control frame on the wrong stream, a payload shorter than its
    /// padding or priority fields, or a CONTINUATION frame.
    Protocol,
    /// A HEADERS frame without END_HEADERS: header blocks continued in
    /// CONTINUATION frames are not taken.
    HeaderBlockContinued,
    /// A control frame whose payload has the wrong length.
    FrameSize,
}

/// The code's value on the wire.
pub open spec fn code_value(c: ErrorCode) -> u32 {
    match c {
        ErrorCode::NoError => 0,
        ErrorCode::ProtocolError => 1,
        ErrorCode::InternalError => 2,
        ErrorCode::FlowControlError => 3,
        ErrorCode::StreamClosed => 5,
        ErrorCode::FrameSizeError => 6,
        ErrorCode::RefusedStream => 7,
        ErrorCode::Cancel => 8,
    }
}

impl ErrorCode {
    pub fn value(&self) -> (r: u32)
        ensures
            r == code_value(*self),
    {
        match self {
            ErrorCode::NoError => 0,
            ErrorCode::ProtocolError => 1,
            ErrorCode::InternalError => 2,
            ErrorCode::FlowControlError => 3,
            ErrorCode::StreamClosed => 5,
            ErrorCode::FrameSizeError => 6,
            ErrorCode::RefusedStream => 7,
            ErrorCode::Cancel => 8,
        }
    }
}

fn be32_bytes(n: u32) -> (r: Vec<u8>)
    ensures
        r@ == be32(n),
{
    let r = vec![
        ((n >> 24u32) & 0xffu32) as u8,
        ((n >> 16u32) & 0xffu32) as u8,
        ((n >> 8u32) & 0xffu32) as u8,
        (n & 0xffu32) as u8,
    ];
    assert(r@ =~= be32(n));
    r
}

/// The wire form of a frame to write; a HEADERS frame has none until its
/// header list is encoded into a block (see `headers_frame`).
pub open spec fn out_frame_wire(f: OutFrame) -> Option<FrameModel> {
    match f {
        OutFrame::Headers { .. } => None,
        OutFrame::Data { stream_id, payload, end_stream } => Some(
            (
                KIND_DATA,
                if end_stream {
                    FLAG_END_STREAM
                } else {
                    0u8
                },
                stream_id,
                payload@,
            ),
        ),
        OutFrame::SettingsAck => Some((KIND_SETTINGS, FLAG_ACK, 0u32, Seq::empty())),
        OutFrame::WindowUpdate { stream_id, increment } => Some(
            (KIND_WINDOW_UPDATE, 0u8, stream_id, be32(increment)),
        ),
        OutFrame::RstStream { stream_id, code } => Some(
            (KIND_RST_STREAM, 0u8, stream_id, be32(code_value(code))),
        ),
        OutFrame::PingAck { data } => Some(
            (KIND_PING, FLAG_ACK, 0u32, be32((data >> 32u64) as u32) + be32(data as u32)),
        ),
        OutFrame::GoAway { last_stream_id, code } => Some(
            (KIND_GOAWAY, 0u8, 0u32, be32(last_stream_id) + be32(code_value(code))),
        ),
    }
}

impl OutFrame {
    /// The frame as it goes on the wire; `None` for HEADERS.
    pub fn into_raw(self) -> (r: Option<RawFrame>)
        ensures
            match out_frame_wire(self) {
                Some(m) => r matches Some(raw) && raw@ == m,
                None => r is None,
            },
    {
        match self {
            OutFrame::Headers { .. } => None,
            OutFrame::Data { stream_id, payload, end_stream } => Some(
                RawFrame {
                    kind: KIND_DATA,
                    flags: if end_stream {
                        FLAG_END_STREAM
                    } else {
                        0u8
                    },
                    stream_id,
                    payload,
                },
            ),
            OutFrame::SettingsAck => Some(
                RawFrame { kind: KIND_SETTINGS, flags: FLAG_ACK, stream_id: 0, payload: Vec::new() },
            ),
            OutFrame::WindowUpdate { stream_id, increment } => Some(
                RawFrame {
                    kind: KIND_WINDOW_UPDATE,
                    flags: 0,
                    stream_id,
                    payload: be32_bytes(increment),
                },
            ),
            OutFrame::RstStream { stream_id, code } => Some(
                RawFrame {
                    kind: KIND_RST_STREAM,
                    flags: 0,
                    stream_id,
                    payload: be32_bytes(code.value()),
                },
            ),
            OutFrame::PingAck { data } => {
                let mut payload = be32_bytes((data >> 32u64) as u32);
                let mut lo = be32_bytes(data as u32);
                payload.append(&mut lo);
                Some(RawFrame { kind: KIND_PING, flags: FLAG_ACK, stream_id: 0, payload })
            },
            OutFrame::GoAway { last_stream_id, code } => {
                let mut payload = be32_bytes(last_stream_id);
                let mut c = be32_bytes(code.value());
                payload.append(&mut c);
                Some(RawFrame { kind: KIND_GOAWAY, flags: 0, stream_id: 0, payload })
            },
        }
    }
}

/// A HEADERS frame carrying a whole encoded header block.
pub fn headers_frame(stream_id: u32, end_stream: bool, block: Vec<u8>) -> (r: RawFrame)
    ensures
        r@ == (
            KIND_HEADERS,
            if end_stream {
                FLAG_END_HEADERS | FLAG_END_STREAM
            } else {
                FLAG_END_HEADERS
            },
            stream_id,
            block@,
        ),
{
    let flags = if end_stream {
        FLAG_END_HEADERS | FLAG_END_STREAM
    } else {
        FLAG_END_HEADERS
    };
    RawFrame { kind: KIND_HEADERS, flags, stream_id, payload: block }
}

/// The credit to give back to an inbound window of full size `full` that
/// has fallen to `window`: none until half of it is used up, then all of it.
pub open spec fn refill(window: int, full: int) -> int {
    if window <= full / 2 && window < full {
        full - window
    } else {
        0
    }
}

/// The WINDOW_UPDATE frame that gives back `increment`, if any.
pub open spec fn window_updates(stream_id: u32, increment: int) -> Seq<OutFrame> {
    if increment > 0 {
        seq![OutFrame::WindowUpdate { stream_id, increment: increment as u32 }]
    } else {
        Seq::empty()
    }
}

/// The outcome of a read step with what came back dropped.
pub open spec fn unit_of(r: Result<ReadOutcome, ConnError>) -> Result<(), ConnError> {
    match r {
        Ok(_) => Ok(()),
        Err(e) => Err(e),
    }
}

/// What the read loop does after a frame was handled.
#[derive(Debug, PartialEq, Eq)]
pub enum ReadOutcome {
    /// Nothing more: the frame was applied to the connection.
    Done,
    /// A HEADERS frame: its header block is to be decoded and handed to
    /// `process_headers`.
    Headers { stream_id: u32, end_stream: bool, block: Vec<u8> },
}

/// A frame queued for writing, in the order it must go out.
#[derive(Debug, PartialEq, Eq)]
pub enum OutFrame {
    Headers { stream_id: u32, headers: Vec<Header>, end_stream: bool },
    Data { stream_id: u32, payload: Vec<u8>, end_stream: bool },
    SettingsAck,
    WindowUpdate { stream_id: u32, increment: u32 },
    RstStream { stream_id: u32, code: ErrorCode },
    PingAck { data: u64 },
    GoAway { last_stream_id: u32, code: ErrorCode },
}

/// What became of a HEADERS frame that did not end the connection.
#[derive(Debug, PartialEq, Eq)]
pub enum HeadersOutcome {
    /// A new stream was opened at this index of the table; the headers are the
    /// request to hand to the handler.
    NewStream { index: usize, headers: Vec<Header> },
    /// The headers were trailers of the stream at this index.
    Trailers { index: usize },
    /// The frame was refused with RST_STREAM and otherwise dropped.
    Reset,
}

/// How the application handler's `start_request` ended.
#[derive(Clone, Copy, Debug, PartialEq, Eq, Structural)]
pub enum HandlerOutcome {
    Returned,
    ReturnedError,
    Panicked,
}

/// SETTINGS_INITIAL_WINDOW_SIZE.
pub const SETTING_INITIAL_WINDOW_SIZE: u16 = 4;
/// SETTINGS_MAX_FRAME_SIZE.
pub const SETTING_MAX_FRAME_SIZE: u16 = 5;

/// The value that the last pair with this identifier gives, if any.
pub open spec fn last_setting(s: Seq<(u16, u32)>, id: u16) -> Option<u32>
    decreases s.len(),
{
    if s.len() == 0 {
        None
    } else if s.last().0 == id {
        Some(s.last().1)
    } else {
        last_setting(s.drop_last(), id)
    }
}

/// Looks up a setting in the pairs of a SETTINGS frame; a later pair
/// overrides an earlier one.
pub fn setting_value(settings: &Vec<(u16, u32)>, id: u16) -> (r: Option<u32>)
    ensures
        r == last_setting(settings@, id),
{
    let mut r: Option<u32> = None;
    let mut i: usize = 0;
    while i < settings.len()
        invariant
            0 <= i <= settings@.len(),
            r == last_setting(settings@.subrange(0, i as int), id),
        decreases settings@.len() - i,
    {
        assert(settings@.subrange(0, i as int + 1).drop_last() =~= settings@.subrange(0, i as int));
        if settings[i].0 == id {
            r = Some(settings[i].1);
        }
        i = i + 1;
    }
    assert(settings@.subrange(0, settings@.len() as int) =~= settings@);
    r
}

pub const KIND_PRIORITY: u8 = 2;
pub const KIND_PUSH_PROMISE: u8 = 5;

/// Both sides have ended the stream, nothing of it is left to write and
/// every byte received has been handed on.
pub open spec fn stream_done(s: ServerStream) -> bool {
    s.local_closed && s.remote_closed && s.outgoing@.len() == 0 && !s.outgoing_end
        && s.in_data@.len() == 0
}

/// Selects the streams that stay in the table.
pub open spec fn live() -> spec_fn(ServerStream) -> bool {
    |s: ServerStream| !stream_done(s)
}

/// The data of a PING payload, read big-endian.
pub open spec fn get64(b: Seq<u8>) -> u64 {
    ((get32(b, 0) as u64) << 32u64) | (get32(b, 4) as u64)
}


/// The bytes a frame carries as DATA; none for other frames.
pub open spec fn data_of(f: OutFrame) -> Seq<u8> {
    match f {
        OutFrame::Data { payload, .. } => payload@,
        _ => Seq::empty(),
    }
}

/// Whether a frame is a DATA frame that ends its stream.
pub open spec fn ends_stream(f: OutFrame) -> bool {
    f matches OutFrame::Data { end_stream, .. } && end_stream
}

/// The bytes of a run of frames, joined in order.
pub open spec fn payloads(fs: Seq<OutFrame>) -> Seq<u8>
    decreases fs.len(),
{
    if fs.len() == 0 {
        Seq::empty()
    } else {
        payloads(fs.drop_last()) + data_of(fs.last())
    }
}

/// Runs of frames, one after another.
pub open spec fn concat_runs(parts: Seq<Seq<OutFrame>>) -> Seq<OutFrame>
    decreases parts.len(),
{
    if parts.len() == 0 {
        Seq::empty()
    } else {
        concat_runs(parts.drop_last()) + parts.last()
    }
}

/// `fs` are exactly the frames that flushing writes for stream `s`, which
/// becomes `t`: DATA frames on its id, each but the last of the full frame
/// size, carrying in order the bytes that left its queue; the last one ends
/// the stream exactly when the queued end went out, and an empty frame is
/// written only to carry an end with no bytes queued.
pub open spec fn stream_frames(fs: Seq<OutFrame>, s: ServerStream, t: ServerStream, max: u32) -> bool {
    &&& forall|j: int|
        0 <= j < fs.len() ==> (#[trigger] fs[j] matches OutFrame::Data { stream_id, .. }
            && stream_id == s.id) && data_of(fs[j]).len() <= max && (data_of(fs[j]).len() > 0
            || s.outgoing@.len() == 0)
    &&& forall|j: int|
        0 <= j < fs.len() - 1 ==> data_of(#[trigger] fs[j]).len() == max && !ends_stream(fs[j])
    &&& payloads(fs) == s.outgoing@.subrange(0, t.sent@ - s.sent@)
    &&& fs.len() > 0 ==> (ends_stream(fs.last()) <==> s.outgoing_end && t.outgoing@.len() == 0)
    &&& fs.len() == 0 ==> t.sent@ == s.sent@ && !(s.outgoing_end && t.outgoing@.len() == 0)
}

proof fn lemma_payloads_push(fs: Seq<OutFrame>, f: OutFrame)
    ensures
        payloads(fs.push(f)) == payloads(fs) + data_of(f),
{
    assert(fs.push(f).drop_last() =~= fs);
}

proof fn lemma_payloads_append(a: Seq<OutFrame>, b: Seq<OutFrame>)
    ensures
        payloads(a + b) == payloads(a) + payloads(b),
    decreases b.len(),
{
    if b.len() == 0 {
        assert(a + b =~= a);
        assert(payloads(a) + payloads(b) =~= payloads(a));
    } else {
        lemma_payloads_append(a, b.drop_last());
        assert((a + b).drop_last() =~= a + b.drop_last());
        assert(payloads(a) + payloads(b) =~= payloads(a) + payloads(b.drop_last()) + data_of(
            b.last(),
        ));
    }
}

proof fn lemma_concat_push(parts: Seq<Seq<OutFrame>>, p: Seq<OutFrame>)
    ensures
        concat_runs(parts.push(p)) == concat_runs(parts) + p,
{
    assert(parts.push(p).drop_last() =~= parts);
}

/// A request to the connection from outside its task, common to both roles.
#[derive(Debug, PartialEq, Eq)]
pub enum CommonToWriteMessage {
    /// Queue body bytes on a stream, possibly ending it.
    StreamEnqueue { stream_id: u32, data: Vec<u8>, end_stream: bool },
    /// Write headers on a stream.
    StreamHeaders { stream_id: u32, headers: Vec<Header>, end_stream: bool },
    /// End a stream with no more bytes.
    StreamEnd { stream_id: u32 },
    /// Cancel a stream.
    Reset { stream_id: u32, code: ErrorCode },
    /// Return inbound credit for consumed bytes.
    IncreaseInWindow { stream_id: u32, increment: u32 },
    /// Ask for a snapshot of the connection.
    DumpState,
}

/// A request to a server connection.
#[derive(Debug, PartialEq, Eq)]
pub enum ServerToWriteMessage {
    Common(CommonToWriteMessage),
}

impl From<CommonToWriteMessage> for ServerToWriteMessage {
    fn from(m: CommonToWriteMessage) -> (r: ServerToWriteMessage)
        ensures
            r == ServerToWriteMessage::Common(m),
    {
        ServerToWriteMessage::Common(m)
    }
}

impl vstd::std_specs::convert::FromSpecImpl<CommonToWriteMessage> for ServerToWriteMessage {
    open spec fn obeys_from_spec() -> bool {
        true
    }

    open spec fn from_spec(m: CommonToWriteMessage) -> ServerToWriteMessage {
        ServerToWriteMessage::Common(m)
    }
}

/// State of one stream in a snapshot.
#[derive(Clone, Copy, Debug, PartialEq, Eq, Structural)]
pub struct StreamSnapshot {
    pub id: u32,
    pub out_window: i64,
    pub in_window: i64,
    pub remote_closed: bool,
    pub local_closed: bool,
    /// Bytes queued and not yet written.
    pub queued: usize,
}

/// A structural snapshot of a connection, for diagnostics.
#[derive(Debug, PartialEq, Eq)]
pub struct ConnStateSnapshot {
    pub in_window: i64,
    pub out_window: i64,
    pub last_peer_stream_id: u32,
    pub goaway: bool,
    pub streams: Vec<StreamSnapshot>,
}

pub open spec fn stream_snapshot(s: ServerStream) -> StreamSnapshot {
    StreamSnapshot {
        id: s.id,
        out_window: s.out_window,
        in_window: s.in_window,
        remote_closed: s.remote_closed,
        local_closed: s.local_closed,
        queued: s.outgoing@.len() as usize,
    }
}

pub open spec fn ids_increasing(ids: Seq<u32>) -> bool {
    forall|i: int, j: int| 0 <= i < j < ids.len() ==> ids[i] < ids[j]
}

pub open spec fn stream_ids(s: Seq<ServerStream>) -> Seq<u32> {
    s.map_values(|x: ServerStream| x.id)
}

pub open spec fn is_client_id(id: u32) -> bool {
    id % 2 == 1
}

/// A server-side connection.
pub struct ServerConn {
    /// Open streams, ordered by id.
    pub streams: Vec<ServerStream>,
    /// Highest stream id the client has opened, 0 before the first.
    pub last_peer_stream_id: u32,
    /// Every stream id the client has opened, in order.
    pub peer_ids: Ghost<Seq<u32>>,
    /// Connection-level credit for sending.
    pub out_window: i64,
    /// Connection-level credit granted to the peer.
    pub in_window: i64,
    /// Initial stream window announced by the peer.
    pub peer_initial_window: u32,
    /// Initial stream window this side announced.
    pub our_initial_window: u32,
    /// Largest frame the peer accepts.
    pub peer_max_frame_size: u32,
    /// Largest frame this side accepts.
    pub our_max_frame_size: u32,
    /// Frames to write, first to go first.
    pub to_write: Vec<OutFrame>,
    /// GOAWAY was sent or received.
    pub goaway: bool,
    pub conn_sent: Ghost<int>,
    pub conn_granted: Ghost<int>,
}

impl ServerConn {
    pub open spec fn wf(&self) -> bool {
        &&& self.streams_wf()
        &&& self.conn_wf()
    }

    /// The stream table: well-formed streams, ordered by id, each opened by the client.
    pub open spec fn streams_wf(&self) -> bool {
        &&& forall|i: int| 0 <= i < self.streams@.len() ==> (#[trigger] self.streams@[i]).wf()
        &&& ids_increasing(stream_ids(self.streams@))
        &&& forall|i: int|
            0 <= i < self.streams@.len() ==> self.peer_ids@.contains(
                (#[trigger] self.streams@[i]).id,
            )
    }

    /// The connection-level fields: the client's ids strictly increase and
    /// are odd, the windows and settings are in range.
    pub open spec fn conn_wf(&self) -> bool {
        &&& ids_increasing(self.peer_ids@)
        &&& forall|i: int| 0 <= i < self.peer_ids@.len() ==> is_client_id(#[trigger] self.peer_ids@[i])
        &&& if self.peer_ids@.len() == 0 {
            self.last_peer_stream_id == 0
        } else {
            self.last_peer_stream_id == self.peer_ids@.last()
        }
        &&& self.out_window == self.conn_granted@ - self.conn_sent@
        &&& 0 <= self.conn_sent@
        &&& -MAX_WINDOW <= self.out_window <= MAX_WINDOW
        &&& 0 <= self.in_window <= MAX_WINDOW
        &&& self.peer_initial_window <= MAX_WINDOW
        &&& self.our_initial_window <= MAX_WINDOW
        &&& DEFAULT_MAX_FRAME_SIZE <= self.peer_max_frame_size <= MAX_MAX_FRAME_SIZE
        &&& DEFAULT_MAX_FRAME_SIZE <= self.our_max_frame_size <= MAX_MAX_FRAME_SIZE
    }

    /// The index of the open stream with this id, if any.
    pub open spec fn index_of(&self, id: u32) -> Option<int> {
        if exists|i: int| 0 <= i < self.streams@.len() && self.streams@[i].id == id {
            Some(choose|i: int| 0 <= i < self.streams@.len() && self.streams@[i].id == id)
        } else {
            None
        }
    }

    pub open spec fn has_stream(&self, id: u32) -> bool {
        exists|i: int| 0 <= i < self.streams@.len() && self.streams@[i].id == id
    }

    /// A connection in its starting state, with the settings of both sides at
    /// their defaults, but for server push, which the server turns off.
    pub fn new() -> (r: ServerConn)
        ensures
            r.wf(),
            r.streams@.len() == 0,
            r.last_peer_stream_id == 0,
            r.out_window == DEFAULT_WINDOW_SIZE,
            r.in_window == DEFAULT_WINDOW_SIZE,
            r.peer_initial_window == DEFAULT_WINDOW_SIZE,
            r.our_initial_window == DEFAULT_WINDOW_SIZE,
            r.peer_max_frame_size == DEFAULT_MAX_FRAME_SIZE,
            r.our_max_frame_size == DEFAULT_MAX_FRAME_SIZE,
            r.to_write@.len() == 0,
            !r.goaway,
    {
        ServerConn {
            streams: Vec::new(),
            last_peer_stream_id: 0,
            peer_ids: Ghost(Seq::empty()),
            out_window: DEFAULT_WINDOW_SIZE as i64,
            in_window: DEFAULT_WINDOW_SIZE as i64,
            peer_initial_window: DEFAULT_WINDOW_SIZE,
            our_initial_window: DEFAULT_WINDOW_SIZE,
            peer_max_frame_size: DEFAULT_MAX_FRAME_SIZE,
            our_max_frame_size: DEFAULT_MAX_FRAME_SIZE,
            to_write: Vec::new(),
            goaway: false,
            conn_sent: Ghost(0),
            conn_granted: Ghost(DEFAULT_WINDOW_SIZE as int),
        }
    }

    /// Looks up an open stream by id.
    pub fn find_stream(&self, id: u32) -> (r: Option<usize>)
        requires
            self.wf(),
        ensures
            r matches Some(i) ==> i < self.streams@.len() && self.streams@[i as int].id == id,
            r is None <==> !self.has_stream(id),
    {
        let mut i: usize = 0;
        while i < self.streams.len()
            invariant
                0 <= i <= self.streams@.len(),
                forall|k: int| 0 <= k < i ==> self.streams@[k].id != id,
            decreases self.streams@.len() - i,
        {
            if self.streams[i].id == id {
                return Some(i);
            }
            i = i + 1;
        }
        None
    }

    /// Opens a stream on behalf of the client. The id must be odd and greater
    /// than every id the client used before; the new stream's windows are
    /// seeded from the settings and it is appended to the table.
    pub fn new_stream_from_client(&mut self, stream_id: u32, end_stream: bool) -> (r: Result<
        usize,
        ConnError,
    >)
        requires
            old(self).wf(),
            !old(self).has_stream(stream_id),
        ensures
            final(self).wf(),
            !is_client_id(stream_id) ==> r == Err::<usize, ConnError>(
                ConnError::InitiatedStreamWithServerIdFromClient(stream_id),
            ),
            is_client_id(stream_id) && stream_id <= old(self).last_peer_stream_id ==> r == Err::<
                usize,
                ConnError,
            >(ConnError::StreamIdLeExistingStream(stream_id, old(self).last_peer_stream_id)),
            r is Ok <==> is_client_id(stream_id) && stream_id > old(self).last_peer_stream_id,
            r is Err ==> *final(self) == *old(self),
            r matches Ok(i) ==> {
                &&& i == old(self).streams@.len()
                &&& final(self).streams@.len() == i + 1
                &&& final(self).streams@.subrange(0, i as int) == old(self).streams@
                &&& final(self).streams@[i as int].id == stream_id
                &&& final(self).streams@[i as int].out_window == old(self).peer_initial_window
                &&& final(self).streams@[i as int].in_window == old(self).our_initial_window
                &&& final(self).streams@[i as int].remote_closed == end_stream
                &&& !final(self).streams@[i as int].local_closed
                &&& final(self).streams@[i as int].peer_tx is None
                &&& final(self).last_peer_stream_id == stream_id
                &&& final(self).peer_ids@ == old(self).peer_ids@.push(stream_id)
                &&& final(self).to_write == old(self).to_write
                &&& final(self).out_window == old(self).out_window
                &&& final(self).in_window == old(self).in_window
                &&& final(self).peer_initial_window == old(self).peer_initial_window
                &&& final(self).our_initial_window == old(self).our_initial_window
                &&& final(self).peer_max_frame_size == old(self).peer_max_frame_size
                &&& final(self).goaway == old(self).goaway
            },
    {
        if stream_id % 2 == 0 {
            return Err(ConnError::InitiatedStreamWithServerIdFromClient(stream_id));
        }
        if stream_id <= self.last_peer_stream_id {
            return Err(ConnError::StreamIdLeExistingStream(stream_id, self.last_peer_stream_id));
        }
        let ghost pre = *self;
        proof {
            // every open stream was opened earlier, so its id is below the new one
            assert forall|k: int| 0 <= k < pre.streams@.len() implies pre.streams@[k].id
                < stream_id by {
                let j = choose|j: int|
                    0 <= j < pre.peer_ids@.len() && pre.peer_ids@[j] == pre.streams@[k].id;
                assert(pre.peer_ids@[j] <= pre.peer_ids@.last());
            }
        }
        self.last_peer_stream_id = stream_id;
        let s = ServerStream::new(
            stream_id,
            self.peer_initial_window,
            self.our_initial_window,
            end_stream,
        );
        let i = self.streams.len();
        self.streams.push(s);
        self.peer_ids = Ghost(self.peer_ids@.push(stream_id));
        proof {
            assert(self.streams@.subrange(0, i as int) =~= pre.streams@);
            assert forall|k: int| 0 <= k < self.streams@.len() implies self.peer_ids@.contains(
                (#[trigger] self.streams@[k]).id,
            ) by {
                if k < i as int {
                    let j = choose|j: int|
                        0 <= j < pre.peer_ids@.len() && pre.peer_ids@[j] == pre.streams@[k].id;
                    assert(self.peer_ids@[j] == self.streams@[k].id);
                } else {
                    assert(self.peer_ids@[pre.peer_ids@.len() as int] == stream_id);
                }
            }
            assert forall|a: int, b: int|
                0 <= a < b < stream_ids(self.streams@).len() implies stream_ids(
                self.streams@,
            )[a] < stream_ids(self.streams@)[b] by {
                if b == i as int {
                    assert(pre.streams@[a].id < stream_id);
                } else {
                    assert(stream_ids(pre.streams@)[a] < stream_ids(pre.streams@)[b]);
                }
            }
            assert forall|a: int, b: int|
                0 <= a < b < self.peer_ids@.len() implies self.peer_ids@[a] < self.peer_ids@[b] by {
                if b == pre.peer_ids@.len() {
                    if pre.peer_ids@.len() > 0 {
                        assert(pre.peer_ids@[a] <= pre.peer_ids@.last());
                    }
                } else {
                    assert(pre.peer_ids@[a] < pre.peer_ids@[b]);
                }
            }
        }
        Ok(i)
    }

    /// The fields of the connection other than the stream table and the
    /// write queue are those of `pre`.
    pub open spec fn same_settings(&self, pre: ServerConn) -> bool {
        &&& self.last_peer_stream_id == pre.last_peer_stream_id
        &&& self.peer_ids == pre.peer_ids
        &&& self.out_window == pre.out_window
        &&& self.in_window == pre.in_window
        &&& self.peer_initial_window == pre.peer_initial_window
        &&& self.our_initial_window == pre.our_initial_window
        &&& self.peer_max_frame_size == pre.peer_max_frame_size
        &&& self.our_max_frame_size == pre.our_max_frame_size
        &&& self.goaway == pre.goaway
        &&& self.conn_sent == pre.conn_sent
        &&& self.conn_granted == pre.conn_granted
    }

    proof fn lemma_index(&self, i: int)
        requires
            self.wf(),
            0 <= i < self.streams@.len(),
        ensures
            self.has_stream(self.streams@[i].id),
            self.index_of(self.streams@[i].id) == Some(i),
    {
        let id = self.streams@[i].id;
        let j = choose|j: int| 0 <= j < self.streams@.len() && self.streams@[j].id == id;
        if j != i {
            if j < i {
                assert(stream_ids(self.streams@)[j] < stream_ids(self.streams@)[i]);
            } else {
                assert(stream_ids(self.streams@)[i] < stream_ids(self.streams@)[j]);
            }
        }
    }

    /// Replacing a stream by one with the same id that is well formed keeps
    /// the connection well formed.
    proof fn lemma_replace(pre: ServerConn, post: ServerConn, i: int)
        requires
            pre.wf(),
            0 <= i < pre.streams@.len(),
            post.conn_wf(),
            post.peer_ids == pre.peer_ids,
            post.streams@.len() == pre.streams@.len(),
            forall|k: int| 0 <= k < pre.streams@.len() && k != i ==> post.streams@[k] == pre.streams@[k],
            post.streams@[i].id == pre.streams@[i].id,
            post.streams@[i].wf(),
        ensures
            post.wf(),
    {
        assert forall|k: int| 0 <= k < post.streams@.len() implies (#[trigger] post.streams@[k]).wf() by {
            if k != i {
                assert(pre.streams@[k].wf());
            }
        }
        assert forall|a: int, b: int|
            0 <= a < b < stream_ids(post.streams@).len() implies stream_ids(post.streams@)[a]
            < stream_ids(post.streams@)[b] by {
            assert(stream_ids(pre.streams@)[a] < stream_ids(pre.streams@)[b]);
        }
        assert forall|k: int| 0 <= k < post.streams@.len() implies post.peer_ids@.contains(
            (#[trigger] post.streams@[k]).id,
        ) by {
            assert(pre.peer_ids@.contains(pre.streams@[k].id));
        }
    }

    /// Removing a stream keeps the connection well formed.
    proof fn lemma_remove(pre: ServerConn, post: ServerConn, i: int)
        requires
            pre.wf(),
            0 <= i < pre.streams@.len(),
            post.same_settings(pre),
            post.streams@ == pre.streams@.remove(i),
        ensures
            post.wf(),
    {
        assert forall|k: int| 0 <= k < post.streams@.len() implies (#[trigger] post.streams@[k]).wf() by {
            if k < i {
                assert(pre.streams@[k].wf());
            } else {
                assert(pre.streams@[k + 1].wf());
            }
        }
        assert forall|a: int, b: int|
            0 <= a < b < stream_ids(post.streams@).len() implies stream_ids(post.streams@)[a]
            < stream_ids(post.streams@)[b] by {
            let a2 = if a < i { a } else { a + 1 };
            let b2 = if b < i { b } else { b + 1 };
            assert(stream_ids(pre.streams@)[a2] < stream_ids(pre.streams@)[b2]);
        }
        assert forall|k: int| 0 <= k < post.streams@.len() implies post.peer_ids@.contains(
            (#[trigger] post.streams@[k]).id,
        ) by {
            let k2 = if k < i { k } else { k + 1 };
            assert(pre.peer_ids@.contains(pre.streams@[k2].id));
        }
    }

    /// Handles a HEADERS frame from the client. Headers that fail validation
    /// are answered with RST_STREAM(PROTOCOL_ERROR). On an unseen id they open
    /// a stream (refused with RST_STREAM(REFUSED_STREAM) after GOAWAY); on an
    /// open stream they are trailers, which must end the stream, else the
    /// stream is reset with PROTOCOL_ERROR. An even id, or one not above the
    /// last the client used, ends the connection even after GOAWAY.
    pub fn process_headers(&mut self, stream_id: u32, end_stream: bool, headers: Vec<Header>) -> (r:
        Result<HeadersOutcome, ConnError>)
        requires
            old(self).wf(),
        ensures
            final(self).wf(),
            ({
                let existing = old(self).has_stream(stream_id);
                let place = if existing {
                    HeadersPlace::Trailing
                } else {
                    HeadersPlace::Initial
                };
                let valid = valid_request_block(names(headers@), place);
                let rst = |code: ErrorCode|
                    {
                        &&& r matches Ok(HeadersOutcome::Reset)
                        &&& final(self).streams == old(self).streams
                        &&& final(self).same_settings(*old(self))
                        &&& final(self).to_write@ == old(self).to_write@.push(
                            OutFrame::RstStream { stream_id, code },
                        )
                    };
                if !valid {
                    rst(ErrorCode::ProtocolError)
                } else if !existing && old(self).goaway && is_client_id(stream_id) && stream_id
                    > old(self).last_peer_stream_id {
                    rst(ErrorCode::RefusedStream)
                } else if !existing {
                    &&& (!is_client_id(stream_id) ==> r == Err::<HeadersOutcome, ConnError>(
                        ConnError::InitiatedStreamWithServerIdFromClient(stream_id),
                    ))
                    &&& (is_client_id(stream_id) && stream_id <= old(self).last_peer_stream_id
                        ==> r == Err::<HeadersOutcome, ConnError>(
                        ConnError::StreamIdLeExistingStream(
                            stream_id,
                            old(self).last_peer_stream_id,
                        ),
                    ))
                    &&& (r is Ok <==> is_client_id(stream_id) && stream_id
                        > old(self).last_peer_stream_id)
                    &&& (r is Err ==> *final(self) == *old(self))
                    &&& (r matches Ok(o) ==> o matches HeadersOutcome::NewStream { index, headers: h }
                        && h == headers && index == old(self).streams@.len() && final(self).streams@
                        == old(self).streams@.push(final(self).streams@[index as int])
                        && final(self).streams@[index as int].id == stream_id
                        && final(self).streams@[index as int].out_window
                        == old(self).peer_initial_window
                        && final(self).streams@[index as int].in_window
                        == old(self).our_initial_window
                        && final(self).streams@[index as int].remote_closed == end_stream
                        && final(self).streams@[index as int].peer_tx is None
                        && final(self).last_peer_stream_id == stream_id && final(self).peer_ids@
                        == old(self).peer_ids@.push(stream_id) && final(self).to_write
                        == old(self).to_write)
                } else if !end_stream {
                    rst(ErrorCode::ProtocolError)
                } else {
                    let i = old(self).index_of(stream_id)->0;
                    let s = old(self).streams@[i];
                    let t = final(self).streams@[i];
                    &&& r matches Ok(o) && o matches HeadersOutcome::Trailers { index } && index == i
                    &&& final(self).streams@.len() == old(self).streams@.len()
                    &&& forall|k: int|
                        0 <= k < old(self).streams@.len() && k != i ==> final(self).streams@[k]
                            == old(self).streams@[k]
                    &&& t.id == stream_id && t.remote_closed
                    &&& t.local_closed == s.local_closed && t.out_window == s.out_window
                    &&& t.outgoing == s.outgoing && t.outgoing_end == s.outgoing_end
                    &&& delivered(
                        s.peer_tx,
                        t.peer_tx,
                        seq![PeerEvent::Trailers(headers), PeerEvent::EndOfStream],
                    )
                    &&& final(self).same_settings(*old(self))
                    &&& final(self).to_write == old(self).to_write
                }
            }),
    {
        let found = self.find_stream(stream_id);
        let place = match found {
            Some(_) => HeadersPlace::Trailing,
            None => HeadersPlace::Initial,
        };
        if validate_request(&headers, place).is_err() {
            self.to_write.push(OutFrame::RstStream { stream_id, code: ErrorCode::ProtocolError });
            return Ok(HeadersOutcome::Reset);
        }
        match found {
            None => {
                if self.goaway && stream_id % 2 == 1 && stream_id > self.last_peer_stream_id {
                    self.to_write.push(
                        OutFrame::RstStream { stream_id, code: ErrorCode::RefusedStream },
                    );
                    return Ok(HeadersOutcome::Reset);
                }
                match self.new_stream_from_client(stream_id, end_stream) {
                    Ok(index) => {
                        assert(self.streams@ =~= self.streams@.subrange(0, index as int).push(
                            self.streams@[index as int],
                        ));
                        Ok(HeadersOutcome::NewStream { index, headers })
                    },
                    Err(e) => Err(e),
                }
            },
            Some(i) => {
                if !end_stream {
                    self.to_write.push(
                        OutFrame::RstStream { stream_id, code: ErrorCode::ProtocolError },
                    );
                    return Ok(HeadersOutcome::Reset);
                }
                let ghost pre = *self;
                proof {
                    self.lemma_index(i as int);
                }
                let mut s = self.streams.remove(i);
                let ghost p0 = s.peer_tx;
                let ghost h = headers;
                s.trailers_recvd(headers);
                s.end_recvd();
                proof {
                    if p0 is Some {
                        assert(s.peer_tx->0@ =~= p0->0@ + seq![PeerEvent::Trailers(h), PeerEvent::EndOfStream]);
                    }
                }
                self.streams.insert(i, s);
                proof {
                    assert(self.streams@ =~= pre.streams@.update(i as int, s));
                    Self::lemma_replace(pre, *self, i as int);
                }
                Ok(HeadersOutcome::Trailers { index: i })
            },
        }
    }

    /// Takes note of how the handler's `start_request` for the stream at
    /// `index` ended and attaches the channel it left. Whatever the outcome,
    /// the stream stays open and nothing is written: a handler that failed or
    /// panicked leaves the reset to its response sender. Returns whether the
    /// handler returned cleanly, for the caller to log a warning otherwise.
    pub fn start_request_done(
        &mut self,
        index: usize,
        outcome: HandlerOutcome,
        handler: Option<Vec<PeerEvent>>,
    ) -> (r: bool)
        requires
            old(self).wf(),
            index < old(self).streams@.len(),
        ensures
            r == (outcome == HandlerOutcome::Returned),
            final(self).wf(),
            final(self).same_settings(*old(self)),
            final(self).to_write == old(self).to_write,
            final(self).streams@.len() == old(self).streams@.len(),
            forall|k: int|
                0 <= k < old(self).streams@.len() && k != index ==> final(self).streams@[k]
                    == old(self).streams@[k],
            final(self).streams@[index as int] == (ServerStream {
                peer_tx: handler,
                ..old(self).streams@[index as int]
            }),
    {
        let ghost pre = *self;
        let mut s = self.streams.remove(index);
        s.peer_tx = handler;
        self.streams.insert(index, s);
        proof {
            assert(self.streams@ =~= pre.streams@.update(index as int, s));
            Self::lemma_replace(pre, *self, index as int);
        }
        outcome == HandlerOutcome::Returned
    }

    /// Handles a DATA frame: the payload is buffered on its stream and taken
    /// from both inbound windows. A frame on a stream that is not open or that
    /// the peer has ended, or one larger than either window, ends the
    /// connection.
    pub fn process_data(&mut self, stream_id: u32, payload: Vec<u8>, end_stream: bool) -> (r: Result<
        (),
        ConnError,
    >)
        requires
            old(self).wf(),
        ensures
            final(self).wf(),
            Self::data_step(*old(self), *final(self), stream_id, payload@, payload@.len() as int, end_stream, r),
    {
        let len = payload.len();
        self.receive_data(stream_id, payload, len, end_stream)
    }

    /// As `process_data`, for a frame whose payload of `charged` bytes
    /// carried `data` and padding: the whole payload counts against the
    /// windows, only the data is buffered.
    pub fn receive_data(&mut self, stream_id: u32, data: Vec<u8>, charged: usize, end_stream: bool) -> (r: Result<
        (),
        ConnError,
    >)
        requires
            old(self).wf(),
            data@.len() <= charged,
        ensures
            final(self).wf(),
            Self::data_step(*old(self), *final(self), stream_id, data@, charged as int, end_stream, r),
    {
        let payload = data;
        let i = match self.find_stream(stream_id) {
            Some(i) => i,
            None => {
                return Err(ConnError::UnknownStream(stream_id));
            },
        };
        proof {
            self.lemma_index(i as int);
        }
        if self.streams[i].remote_closed {
            return Err(ConnError::StreamClosed(stream_id));
        }
        let len = charged;
        if len as u64 > self.in_window as u64 || len as u64 > self.streams[i].in_window as u64 {
            return Err(ConnError::FlowControl);
        }
        let ghost pre = *self;
        let mut s = self.streams.remove(i);
        s.in_window = s.in_window - len as i64;
        let mut p = payload;
        s.in_data.append(&mut p);
        if end_stream {
            s.end_recvd();
        }
        self.streams.insert(i, s);
        proof {
            assert(self.streams@ =~= pre.streams@.update(i as int, s));
            Self::lemma_replace(pre, *self, i as int);
        }
        self.in_window = self.in_window - len as i64;
        Ok(())
    }

    /// Outbound credit that a WINDOW_UPDATE frame on `stream_id` adds to: the
    /// connection's for id 0, else the open stream's (none for a closed one).
    pub open spec fn credit(&self, stream_id: u32) -> int {
        if stream_id == 0 {
            self.out_window as int
        } else if self.has_stream(stream_id) {
            self.streams@[self.index_of(stream_id)->0].out_window as int
        } else {
            0
        }
    }

    /// Handles a WINDOW_UPDATE frame: id 0 credits the connection, another id
    /// the open stream with that id; an update for a stream that is no longer
    /// open is ignored. A zero increment, or credit beyond the largest window,
    /// ends the connection.
    pub fn process_window_update(&mut self, stream_id: u32, increment: u32) -> (r: Result<
        (),
        ConnError,
    >)
        requires
            old(self).wf(),
        ensures
            final(self).wf(),
            Self::window_step(*old(self), *final(self), stream_id, increment, r),
    {
        if increment == 0 {
            return Err(ConnError::ZeroWindowIncrement);
        }
        if stream_id == 0 {
            if self.out_window + increment as i64 > MAX_WINDOW {
                return Err(ConnError::FlowControl);
            }
            self.out_window = self.out_window + increment as i64;
            self.conn_granted = Ghost(self.conn_granted@ + increment);
            return Ok(());
        }
        let i = match self.find_stream(stream_id) {
            Some(i) => i,
            None => {
                return Ok(());
            },
        };
        proof {
            self.lemma_index(i as int);
        }
        if self.streams[i].out_window + increment as i64 > MAX_WINDOW {
            return Err(ConnError::FlowControl);
        }
        let ghost pre = *self;
        let mut s = self.streams.remove(i);
        s.out_window = s.out_window + increment as i64;
        s.granted = Ghost(s.granted@ + increment);
        self.streams.insert(i, s);
        proof {
            assert(self.streams@ =~= pre.streams@.update(i as int, s));
            Self::lemma_replace(pre, *self, i as int);
            assert forall|id: u32| id != stream_id implies self.credit(id) == pre.credit(id) by {
                if id != 0 && pre.has_stream(id) {
                    let j = pre.index_of(id)->0;
                    pre.lemma_index(j);
                    self.lemma_index(j);
                }
                if id != 0 && self.has_stream(id) {
                    let j = self.index_of(id)->0;
                    self.lemma_index(j);
                    pre.lemma_index(j);
                }
            }
            self.lemma_index(i as int);
        }
        Ok(())
    }

    /// Applies the peer's SETTINGS frame, given as its (identifier, value)
    /// pairs, all at once: a new initial window size moves every open
    /// stream's outbound window by the difference, which may leave it
    /// negative; a new maximum frame size bounds later DATA frames. A SETTINGS
    /// ACK is queued. A value out of range, or a window pushed out of range,
    /// ends the connection and changes nothing.
    pub fn process_settings(&mut self, settings: &Vec<(u16, u32)>) -> (r: Result<(), ConnError>)
        requires
            old(self).wf(),
        ensures
            final(self).wf(),
            Self::settings_step(*old(self), *final(self), settings@, r),
    {
        let iw = match setting_value(settings, SETTING_INITIAL_WINDOW_SIZE) {
            Some(v) => v,
            None => self.peer_initial_window,
        };
        let mfs = match setting_value(settings, SETTING_MAX_FRAME_SIZE) {
            Some(v) => v,
            None => self.peer_max_frame_size,
        };
        if iw as i64 > MAX_WINDOW {
            return Err(ConnError::FlowControl);
        }
        if mfs < DEFAULT_MAX_FRAME_SIZE || mfs > MAX_MAX_FRAME_SIZE {
            return Err(ConnError::InvalidSetting);
        }
        let delta: i64 = iw as i64 - self.peer_initial_window as i64;
        let mut i: usize = 0;
        while i < self.streams.len()
            invariant
                0 <= i <= self.streams@.len(),
                self.wf(),
                *self == *old(self),
                delta == iw - old(self).peer_initial_window,
                iw == match last_setting(settings@, SETTING_INITIAL_WINDOW_SIZE) {
                    Some(v) => v,
                    None => old(self).peer_initial_window,
                },
                mfs == match last_setting(settings@, SETTING_MAX_FRAME_SIZE) {
                    Some(v) => v,
                    None => old(self).peer_max_frame_size,
                },
                iw <= MAX_WINDOW,
                DEFAULT_MAX_FRAME_SIZE <= mfs <= MAX_MAX_FRAME_SIZE,
                -MAX_WINDOW <= delta <= MAX_WINDOW,
                forall|k: int|
                    0 <= k < i ==> -MAX_WINDOW <= (#[trigger] self.streams@[k]).out_window + delta
                        <= MAX_WINDOW,
            decreases self.streams@.len() - i,
        {
            let w = self.streams[i].out_window + delta;
            if w < -MAX_WINDOW || w > MAX_WINDOW {
                assert(!(-MAX_WINDOW <= old(self).streams@[i as int].out_window + delta <= MAX_WINDOW));
                return Err(ConnError::FlowControl);
            }
            i = i + 1;
        }
        let ghost pre = *self;
        let mut i: usize = 0;
        while i < self.streams.len()
            invariant
                0 <= i <= self.streams@.len(),
                self.wf(),
                self.same_settings(pre),
                self.to_write == pre.to_write,
                self.streams@.len() == pre.streams@.len(),
                -MAX_WINDOW <= delta <= MAX_WINDOW,
                forall|k: int|
                    0 <= k < pre.streams@.len() ==> -MAX_WINDOW <= (
                    #[trigger] pre.streams@[k]).out_window + delta <= MAX_WINDOW,
                forall|k: int|
                    0 <= k < i ==> {
                        let s = pre.streams@[k];
                        #[trigger] self.streams@[k] == (ServerStream {
                            out_window: (s.out_window + delta) as i64,
                            granted: Ghost(s.granted@ + delta),
                            ..s
                        })
                    },
                forall|k: int| i <= k < pre.streams@.len() ==> #[trigger] self.streams@[k] == pre.streams@[k],
            decreases self.streams@.len() - i,
        {
            let ghost cur = *self;
            assert(pre.streams@[i as int] == self.streams@[i as int]);
            let mut s = self.streams.remove(i);
            s.out_window = s.out_window + delta;
            s.granted = Ghost(s.granted@ + delta);
            self.streams.insert(i, s);
            proof {
                assert(self.streams@ =~= cur.streams@.update(i as int, s));
                Self::lemma_replace(cur, *self, i as int);
            }
            i = i + 1;
        }
        self.peer_initial_window = iw;
        self.peer_max_frame_size = mfs;
        self.to_write.push(OutFrame::SettingsAck);
        Ok(())
    }

    /// Handles a PING frame: one that is not itself an acknowledgement is
    /// answered with a PING ACK carrying the same data.
    pub fn process_ping(&mut self, data: u64, ack: bool)
        requires
            old(self).wf(),
        ensures
            final(self).wf(),
            final(self).streams == old(self).streams,
            final(self).same_settings(*old(self)),
            final(self).to_write@ == if ack {
                old(self).to_write@
            } else {
                old(self).to_write@.push(OutFrame::PingAck { data })
            },
    {
        if !ack {
            self.to_write.push(OutFrame::PingAck { data });
        }
    }

    /// Handles RST_STREAM from the peer: the stream, if open, leaves the table.
    pub fn process_rst_stream(&mut self, stream_id: u32)
        requires
            old(self).wf(),
        ensures
            final(self).wf(),
            final(self).same_settings(*old(self)),
            final(self).to_write == old(self).to_write,
            !old(self).has_stream(stream_id) ==> final(self).streams == old(self).streams,
            old(self).has_stream(stream_id) ==> final(self).streams@ == old(self).streams@.remove(
                old(self).index_of(stream_id)->0,
            ),
            !final(self).has_stream(stream_id),
    {
        match self.find_stream(stream_id) {
            None => {},
            Some(i) => {
                let ghost pre = *self;
                proof {
                    self.lemma_index(i as int);
                }
                self.streams.remove(i);
                proof {
                    Self::lemma_remove(pre, *self, i as int);
                    assert forall|k: int| 0 <= k < self.streams@.len() implies self.streams@[k].id
                        != stream_id by {
                        let k2 = if k < i { k } else { k + 1 };
                        if k2 != i as int {
                            if k2 < i {
                                assert(stream_ids(pre.streams@)[k2] < stream_ids(pre.streams@)[i as int]);
                            } else {
                                assert(stream_ids(pre.streams@)[i as int] < stream_ids(pre.streams@)[k2]);
                            }
                        }
                    }
                }
            },
        }
    }

    /// Handles GOAWAY from the peer: no stream opens from now on; open
    /// streams drain.
    pub fn process_goaway(&mut self)
        requires
            old(self).wf(),
        ensures
            final(self).wf(),
            *final(self) == (ServerConn { goaway: true, ..*old(self) }),
    {
        self.goaway = true;
    }

    /// Starts a graceful shutdown: queues GOAWAY naming the last stream the
    /// client opened; no stream opens from now on.
    pub fn send_goaway(&mut self, code: ErrorCode)
        requires
            old(self).wf(),
        ensures
            final(self).wf(),
            *final(self) == (ServerConn { goaway: true, to_write: final(self).to_write, ..*old(self) }),
            final(self).to_write@ == old(self).to_write@.push(
                OutFrame::GoAway { last_stream_id: old(self).last_peer_stream_id, code },
            ),
    {
        self.goaway = true;
        self.to_write.push(OutFrame::GoAway { last_stream_id: self.last_peer_stream_id, code });
    }

    /// The read loop stops once GOAWAY has been exchanged and every stream
    /// has drained.
    pub fn end_loop(&self) -> (r: bool)
        ensures
            r == (self.goaway && self.streams@.len() == 0),
    {
        self.goaway && self.streams.len() == 0
    }

    /// What `send_headers` does: `r` tells whether the headers were queued.
    pub open spec fn headers_sent(
        pre: ServerConn,
        post: ServerConn,
        stream_id: u32,
        headers: Vec<Header>,
        end_stream: bool,
        r: bool,
    ) -> bool {
        &&& post.same_settings(pre)
        &&& r == (pre.has_stream(stream_id) && !pre.streams@[pre.index_of(
                stream_id,
            )->0].local_closed && !pre.streams@[pre.index_of(stream_id)->0].outgoing_end)
        &&& !r ==> post == pre
        &&& r ==> {
                let i = pre.index_of(stream_id)->0;
                &&& post.to_write@ == pre.to_write@.push(
                    OutFrame::Headers { stream_id, headers, end_stream },
                )
                &&& post.streams@ == pre.streams@.update(
                    i,
                    ServerStream { local_closed: end_stream, ..pre.streams@[i] },
                )
            }
    }

    /// What `send_data` does: `r` tells whether the bytes were queued.
    pub open spec fn data_queued(
        pre: ServerConn,
        post: ServerConn,
        stream_id: u32,
        data: Seq<u8>,
        end_stream: bool,
        r: bool,
    ) -> bool {
        &&& post.same_settings(pre)
        &&& post.to_write == pre.to_write
        &&& r == (pre.has_stream(stream_id) && !pre.streams@[pre.index_of(
                stream_id,
            )->0].local_closed && !pre.streams@[pre.index_of(stream_id)->0].outgoing_end)
        &&& !r ==> post == pre
        &&& r ==> {
                let i = pre.index_of(stream_id)->0;
                let s = pre.streams@[i];
                let t = post.streams@[i];
                &&& post.streams@.len() == pre.streams@.len()
                &&& forall|k: int|
                    0 <= k < pre.streams@.len() && k != i ==> post.streams@[k]
                        == pre.streams@[k]
                &&& t == (ServerStream { outgoing: t.outgoing, outgoing_end: end_stream, ..s })
                &&& t.outgoing@ == s.outgoing@ + data
            }
    }

    /// What `process_data` does.
    pub open spec fn data_step(
        pre: ServerConn,
        post: ServerConn,
        stream_id: u32,
        payload: Seq<u8>,
        charged: int,
        end_stream: bool,
        r: Result<(), ConnError>,
    ) -> bool {
        &&& !pre.has_stream(stream_id) ==> r == Err::<(), ConnError>(
            ConnError::UnknownStream(stream_id),
        )
        &&& pre.has_stream(stream_id) ==> {
            let i = pre.index_of(stream_id)->0;
            let s = pre.streams@[i];
            let t = post.streams@[i];
            if s.remote_closed {
                r == Err::<(), ConnError>(ConnError::StreamClosed(stream_id))
            } else if charged > pre.in_window || charged > s.in_window {
                r == Err::<(), ConnError>(ConnError::FlowControl)
            } else {
                &&& r is Ok
                &&& post.in_window == pre.in_window - charged
                &&& t == (ServerStream {
                    in_window: (s.in_window - charged) as i64,
                    in_data: t.in_data,
                    remote_closed: end_stream,
                    peer_tx: t.peer_tx,
                    ..s
                })
                &&& if end_stream {
                    delivered(s.peer_tx, t.peer_tx, seq![PeerEvent::EndOfStream])
                } else {
                    t.peer_tx == s.peer_tx
                }
                &&& t.in_data@ == s.in_data@ + payload
                &&& post.streams@.len() == pre.streams@.len()
                &&& forall|k: int|
                    0 <= k < pre.streams@.len() && k != i ==> post.streams@[k] == pre.streams@[k]
                &&& post == (ServerConn { streams: post.streams, in_window: post.in_window, ..pre })
            }
        }
        &&& r is Err ==> post == pre
    }

    /// What `process_window_update` does.
    pub open spec fn window_step(
        pre: ServerConn,
        post: ServerConn,
        stream_id: u32,
        increment: u32,
        r: Result<(), ConnError>,
    ) -> bool {
        &&& increment == 0 ==> r == Err::<(), ConnError>(ConnError::ZeroWindowIncrement)
        &&& increment > 0 && (stream_id == 0 || pre.has_stream(stream_id)) ==> if pre.credit(
            stream_id,
        ) + increment > MAX_WINDOW {
            r == Err::<(), ConnError>(ConnError::FlowControl)
        } else {
            &&& r is Ok
            &&& post.credit(stream_id) == pre.credit(stream_id) + increment
        }
        &&& increment > 0 && stream_id != 0 && !pre.has_stream(stream_id) ==> r is Ok
        &&& r is Err ==> post == pre
        &&& r is Ok ==> forall|id: u32| id != stream_id ==> post.credit(id) == pre.credit(id)
        &&& r is Ok && stream_id == 0 ==> post == (ServerConn {
            out_window: post.out_window,
            conn_granted: post.conn_granted,
            ..pre
        })
        &&& r is Ok && stream_id != 0 ==> post == (ServerConn { streams: post.streams, ..pre })
        &&& post.streams@.len() == pre.streams@.len()
        &&& forall|k: int|
            0 <= k < pre.streams@.len() ==> {
                let s = pre.streams@[k];
                let t = #[trigger] post.streams@[k];
                t == (ServerStream { out_window: t.out_window, granted: t.granted, ..s })
            }
    }

    /// What `process_settings` does.
    pub open spec fn settings_step(
        pre: ServerConn,
        post: ServerConn,
        settings: Seq<(u16, u32)>,
        r: Result<(), ConnError>,
    ) -> bool {
        let iw = match last_setting(settings, SETTING_INITIAL_WINDOW_SIZE) {
            Some(v) => v,
            None => pre.peer_initial_window,
        };
        let mfs = match last_setting(settings, SETTING_MAX_FRAME_SIZE) {
            Some(v) => v,
            None => pre.peer_max_frame_size,
        };
        let delta = iw - pre.peer_initial_window;
        &&& if iw > MAX_WINDOW {
            r == Err::<(), ConnError>(ConnError::FlowControl)
        } else if mfs < DEFAULT_MAX_FRAME_SIZE || mfs > MAX_MAX_FRAME_SIZE {
            r == Err::<(), ConnError>(ConnError::InvalidSetting)
        } else if exists|k: int|
            0 <= k < pre.streams@.len() && !(-MAX_WINDOW <= (#[trigger] pre.streams@[k]).out_window
                + delta <= MAX_WINDOW) {
            r == Err::<(), ConnError>(ConnError::FlowControl)
        } else {
            &&& r is Ok
            &&& post.peer_initial_window == iw
            &&& post.peer_max_frame_size == mfs
            &&& post.to_write@ == pre.to_write@.push(OutFrame::SettingsAck)
            &&& post.streams@.len() == pre.streams@.len()
            &&& forall|k: int|
                0 <= k < pre.streams@.len() ==> {
                    let s = pre.streams@[k];
                    #[trigger] post.streams@[k] == (ServerStream {
                        out_window: (s.out_window + delta) as i64,
                        granted: Ghost(s.granted@ + delta),
                        ..s
                    })
                }
            &&& post == (ServerConn {
                streams: post.streams,
                peer_initial_window: post.peer_initial_window,
                peer_max_frame_size: post.peer_max_frame_size,
                to_write: post.to_write,
                ..pre
            })
        }
        &&& r is Err ==> post == pre
    }

    /// What `remove_closed_streams` does.
    pub open spec fn closed_removed(pre: ServerConn, post: ServerConn) -> bool {
        &&& post.streams@ == pre.streams@.filter(live())
        &&& post == (ServerConn { streams: post.streams, ..pre })
    }

    /// What `flush` does.
    pub open spec fn flush_step(pre: ServerConn, post: ServerConn) -> bool {
        &&& post.streams@.len() == pre.streams@.len()
        &&& forall|k: int|
                0 <= k < pre.streams@.len() ==> Self::flushed(
                    pre.streams@[k],
                    #[trigger] post.streams@[k],
                    post.out_window,
                )
        &&& post == (ServerConn {
                streams: post.streams,
                out_window: post.out_window,
                conn_sent: post.conn_sent,
                to_write: post.to_write,
                ..pre
            })
        &&& pre.conn_sent@ <= post.conn_sent@
        &&& post.conn_sent@ > pre.conn_sent@ ==> post.out_window >= 0
        &&& post.to_write@.subrange(0, pre.to_write@.len() as int)
                == pre.to_write@
        &&& pre.to_write@.len() <= post.to_write@.len()
        &&& exists|parts: Seq<Seq<OutFrame>>|
            parts.len() == pre.streams@.len() && post.to_write@ == pre.to_write@
                + #[trigger] concat_runs(parts) && post.out_window == pre.out_window - payloads(
                concat_runs(parts),
            ).len() && forall|k: int|
                0 <= k < parts.len() ==> stream_frames(
                    #[trigger] parts[k],
                    pre.streams@[k],
                    post.streams@[k],
                    pre.peer_max_frame_size,
                )
    }

    /// What `increase_in_window` does: `r` tells whether credit was returned.
    pub open spec fn in_window_increased(
        pre: ServerConn,
        post: ServerConn,
        stream_id: u32,
        increment: u32,
        r: bool,
    ) -> bool {
        &&& r == (increment > 0 && pre.has_stream(stream_id) && pre.in_window
                + increment <= MAX_WINDOW && pre.streams@[pre.index_of(
                stream_id,
            )->0].in_window + increment <= MAX_WINDOW)
        &&& !r ==> post == pre
        &&& r ==> {
                let i = pre.index_of(stream_id)->0;
                &&& post.in_window == pre.in_window + increment
                &&& post.streams@ == pre.streams@.update(
                    i,
                    ServerStream {
                        in_window: (pre.streams@[i].in_window + increment) as i64,
                        ..pre.streams@[i]
                    },
                )
                &&& post.to_write@ == pre.to_write@.push(
                    OutFrame::WindowUpdate { stream_id, increment },
                ).push(OutFrame::WindowUpdate { stream_id: 0, increment })
                &&& post == (ServerConn {
                    streams: post.streams,
                    in_window: post.in_window,
                    to_write: post.to_write,
                    ..pre
                })
            }
    }

    /// Queues response headers on an open stream; they are not flow
    /// controlled and go out at once. Returns false, and does nothing, when
    /// the stream is not open or this side has already ended it.
    pub fn send_headers(&mut self, stream_id: u32, headers: Vec<Header>, end_stream: bool) -> (r:
        bool)
        requires
            old(self).wf(),
        ensures
            final(self).wf(),
            Self::headers_sent(*old(self), *final(self), stream_id, headers, end_stream, r),
    {
        let i = match self.find_stream(stream_id) {
            Some(i) => i,
            None => {
                return false;
            },
        };
        proof {
            self.lemma_index(i as int);
        }
        if self.streams[i].local_closed || self.streams[i].outgoing_end {
            return false;
        }
        let ghost pre = *self;
        let mut s = self.streams.remove(i);
        s.local_closed = end_stream;
        self.streams.insert(i, s);
        proof {
            assert(self.streams@ =~= pre.streams@.update(i as int, s));
            Self::lemma_replace(pre, *self, i as int);
        }
        self.to_write.push(OutFrame::Headers { stream_id, headers, end_stream });
        true
    }

    /// Queues body bytes, and possibly the end of the stream, behind what the
    /// stream already has queued; `flush` writes them as credit allows.
    /// Returns false, and does nothing, when the stream is not open or this
    /// side has already ended it.
    pub fn send_data(&mut self, stream_id: u32, data: Vec<u8>, end_stream: bool) -> (r: bool)
        requires
            old(self).wf(),
        ensures
            final(self).wf(),
            Self::data_queued(*old(self), *final(self), stream_id, data@, end_stream, r),
    {
        let i = match self.find_stream(stream_id) {
            Some(i) => i,
            None => {
                return false;
            },
        };
        proof {
            self.lemma_index(i as int);
        }
        if self.streams[i].local_closed || self.streams[i].outgoing_end {
            return false;
        }
        let ghost pre = *self;
        let mut s = self.streams.remove(i);
        let mut d = data;
        s.outgoing.append(&mut d);
        s.outgoing_end = end_stream;
        self.streams.insert(i, s);
        proof {
            assert(self.streams@ =~= pre.streams@.update(i as int, s));
            Self::lemma_replace(pre, *self, i as int);
        }
        true
    }

    /// What `flush` promises of one stream: `s` before, `t` after, with the
    /// connection window `conn_out` after.
    pub open spec fn flushed(s: ServerStream, t: ServerStream, conn_out: i64) -> bool {
        &&& t == (ServerStream {
            out_window: t.out_window,
            outgoing: t.outgoing,
            outgoing_end: t.outgoing_end,
            local_closed: t.local_closed,
            sent: t.sent,
            ..s
        })
        &&& s.sent@ <= t.sent@ <= s.sent@ + s.outgoing@.len()
        &&& t.out_window == s.out_window - (t.sent@ - s.sent@)
        // bytes go out only against credit the peer has granted
        &&& t.sent@ > s.sent@ ==> t.out_window >= 0
        &&& t.outgoing@ == s.outgoing@.subrange(t.sent@ - s.sent@, s.outgoing@.len() as int)
        // everything that credit allowed has gone out
        &&& t.outgoing@.len() == 0 || t.out_window <= 0 || conn_out <= 0
        &&& if s.outgoing_end && t.outgoing@.len() == 0 {
            t.local_closed && !t.outgoing_end
        } else {
            t.local_closed == s.local_closed && t.outgoing_end == s.outgoing_end
        }
    }

    #[verifier::rlimit(100)]
    #[verifier::spinoff_prover]
    fn flush_stream(&mut self, i: usize)
        requires
            old(self).wf(),
            i < old(self).streams@.len(),
        ensures
            final(self).wf(),
            final(self).streams@.len() == old(self).streams@.len(),
            forall|k: int|
                0 <= k < old(self).streams@.len() && k != i ==> final(self).streams@[k]
                    == old(self).streams@[k],
            Self::flushed(
                old(self).streams@[i as int],
                final(self).streams@[i as int],
                final(self).out_window,
            ),
            final(self).streams@[i as int].sent@ - old(self).streams@[i as int].sent@
                == final(self).conn_sent@ - old(self).conn_sent@,
            *final(self) == (ServerConn {
                streams: final(self).streams,
                out_window: final(self).out_window,
                conn_sent: final(self).conn_sent,
                to_write: final(self).to_write,
                ..*old(self)
            }),
            final(self).out_window <= old(self).out_window,
            final(self).conn_sent@ > old(self).conn_sent@ ==> final(self).out_window >= 0,
            old(self).to_write@.len() <= final(self).to_write@.len(),
            final(self).to_write@.subrange(0, old(self).to_write@.len() as int)
                == old(self).to_write@,
            stream_frames(
                final(self).to_write@.subrange(
                    old(self).to_write@.len() as int,
                    final(self).to_write@.len() as int,
                ),
                old(self).streams@[i as int],
                final(self).streams@[i as int],
                old(self).peer_max_frame_size,
            ),
    {
        let ghost pre = *self;
        let ghost s0 = self.streams@[i as int];
        let ghost base = pre.to_write@.len() as int;
        assert(s0.wf());
        let mut s = self.streams.remove(i);
        let max = self.peer_max_frame_size as usize;
        while s.outgoing.len() > 0 && s.out_window > 0 && self.out_window > 0
            invariant
                s.wf(),
                s == (ServerStream {
                    out_window: s.out_window,
                    outgoing: s.outgoing,
                    outgoing_end: s.outgoing_end,
                    local_closed: s.local_closed,
                    sent: s.sent,
                    ..s0
                }),
                s0.sent@ <= s.sent@,
                s.out_window == s0.out_window - (s.sent@ - s0.sent@),
                s.sent@ > s0.sent@ ==> s.out_window >= 0,
                s.sent@ - s0.sent@ <= s0.outgoing@.len(),
                s.outgoing@ == s0.outgoing@.subrange(s.sent@ - s0.sent@, s0.outgoing@.len() as int),
                (s.local_closed == s0.local_closed && s.outgoing_end == s0.outgoing_end) || (
                s0.outgoing_end && s.outgoing@.len() == 0 && s.local_closed && !s.outgoing_end),
                s.outgoing@.len() > 0 ==> s.local_closed == s0.local_closed && s.outgoing_end
                    == s0.outgoing_end,
                i < pre.streams@.len(),
                s.sent@ - s0.sent@ == self.conn_sent@ - pre.conn_sent@,
                self.streams@ == pre.streams@.remove(i as int),
                *self == (ServerConn {
                    streams: self.streams,
                    out_window: self.out_window,
                    conn_sent: self.conn_sent,
                    to_write: self.to_write,
                    ..pre
                }),
                self.out_window == self.conn_granted@ - self.conn_sent@,
                0 <= self.conn_sent@,
                -MAX_WINDOW <= self.out_window <= pre.out_window,
                self.conn_sent@ > pre.conn_sent@ ==> self.out_window >= 0,
                max == pre.peer_max_frame_size,
                max > 0,
                self.to_write@.subrange(0, pre.to_write@.len() as int) == pre.to_write@,
                pre.to_write@.len() <= self.to_write@.len(),
                base == pre.to_write@.len(),
                ({
                    let fs = self.to_write@.subrange(base, self.to_write@.len() as int);
                    &&& forall|j: int|
                        0 <= j < fs.len() ==> (#[trigger] fs[j] matches OutFrame::Data {
                            stream_id,
                            ..
                        } && stream_id == s0.id) && data_of(fs[j]).len() <= max && data_of(
                            fs[j],
                        ).len() > 0
                    &&& forall|j: int|
                        0 <= j < fs.len() - 1 ==> data_of(#[trigger] fs[j]).len() == max
                            && !ends_stream(fs[j])
                    &&& payloads(fs) == s0.outgoing@.subrange(0, s.sent@ - s0.sent@)
                    &&& fs.len() > 0 ==> (ends_stream(fs.last()) <==> s0.outgoing_end
                        && s.outgoing@.len() == 0)
                    &&& (fs.len() == 0 <==> s.sent@ == s0.sent@)
                    &&& fs.len() == 0 ==> s.outgoing_end == s0.outgoing_end
                    &&& fs.len() > 0 && s.outgoing@.len() == 0 ==> !s.outgoing_end
                    &&& fs.len() > 0 && data_of(fs.last()).len() < max ==> (s.outgoing@.len() == 0
                        || s.out_window <= 0 || self.out_window <= 0)
                }),
            decreases s.outgoing@.len(),
        {
            let mut n: usize = s.outgoing.len();
            if n > max {
                n = max;
            }
            if n as i64 > s.out_window {
                n = s.out_window as usize;
            }
            if n as i64 > self.out_window {
                n = self.out_window as usize;
            }
            let ghost before = s.outgoing@;
            let mut chunk = s.outgoing.split_off(n);
            std::mem::swap(&mut chunk, &mut s.outgoing);
            let end = s.outgoing.len() == 0 && s.outgoing_end;
            let ghost tw = self.to_write@;
            let ghost fs0 = tw.subrange(base, tw.len() as int);
            let ghost sent0 = s.sent@ - s0.sent@;
            let ghost ch = chunk@;
            assert(ch =~= s0.outgoing@.subrange(sent0, sent0 + n));
            self.to_write.push(OutFrame::Data { stream_id: s.id, payload: chunk, end_stream: end });
            s.out_window = s.out_window - n as i64;
            s.sent = Ghost(s.sent@ + n);
            self.out_window = self.out_window - n as i64;
            self.conn_sent = Ghost(self.conn_sent@ + n);
            if end {
                s.outgoing_end = false;
                s.local_closed = true;
            }
            proof {
                assert(self.to_write@.subrange(0, pre.to_write@.len() as int) =~= tw.subrange(
                    0,
                    pre.to_write@.len() as int,
                ));
                let k = s.sent@ - s0.sent@;
                assert(s.outgoing@ =~= before.subrange(n as int, before.len() as int));
                assert(s.outgoing@ =~= s0.outgoing@.subrange(k, s0.outgoing@.len() as int));
                let f = self.to_write@.last();
                let fs = self.to_write@.subrange(base, self.to_write@.len() as int);
                assert(fs =~= fs0.push(f));
                lemma_payloads_push(fs0, f);
                assert(s0.outgoing@.subrange(0, sent0) + ch =~= s0.outgoing@.subrange(0, k));
                if fs0.len() > 0 {
                    assert(data_of(fs0.last()).len() == max);
                }
            }
        }
        if s.outgoing.len() == 0 && s.outgoing_end {
            let ghost tw = self.to_write@;
            let empty: Vec<u8> = Vec::new();
            assert(tw.subrange(base, tw.len() as int).len() == 0);
            assert(s0.outgoing@.subrange(0, 0) =~= Seq::<u8>::empty());
            assert(empty@ =~= Seq::<u8>::empty());
            self.to_write.push(OutFrame::Data { stream_id: s.id, payload: empty, end_stream: true });
            proof {
                let fs = self.to_write@.subrange(base, self.to_write@.len() as int);
                assert(fs =~= seq![self.to_write@.last()]);
                lemma_payloads_push(Seq::empty(), self.to_write@.last());
                assert(seq![self.to_write@.last()] =~= Seq::<OutFrame>::empty().push(self.to_write@.last()));
            }
            s.outgoing_end = false;
            s.local_closed = true;
            proof {
                assert(self.to_write@.subrange(0, pre.to_write@.len() as int) =~= tw.subrange(
                    0,
                    pre.to_write@.len() as int,
                ));
            }
        }
        self.streams.insert(i, s);
        proof {
            assert(self.streams@ =~= pre.streams@.update(i as int, s));
            Self::lemma_replace(pre, *self, i as int);
        }
    }

    /// The write loop's step: writes DATA frames for what the streams have
    /// queued, in table order, each frame no larger than the peer's maximum
    /// frame size, the stream's window or the connection's window. A stream
    /// or a connection whose window is not positive sends nothing; what
    /// stays queued waits for WINDOW_UPDATE. A queued end of stream goes out
    /// with the last bytes, or alone in an empty DATA frame.
    pub fn flush(&mut self)
        requires
            old(self).wf(),
        ensures
            final(self).wf(),
            Self::flush_step(*old(self), *final(self)),
    {
        let ghost pre = *self;
        let ghost mut parts: Seq<Seq<OutFrame>> = Seq::empty();
        assert(payloads(concat_runs(parts)).len() == 0);
        assert(pre.to_write@ + concat_runs(parts) =~= pre.to_write@);
        let mut i: usize = 0;
        while i < self.streams.len()
            invariant
                self.wf(),
                0 <= i <= self.streams@.len(),
                self.streams@.len() == pre.streams@.len(),
                forall|k: int|
                    0 <= k < i ==> Self::flushed(
                        pre.streams@[k],
                        #[trigger] self.streams@[k],
                        self.out_window,
                    ),
                forall|k: int| i <= k < pre.streams@.len() ==> #[trigger] self.streams@[k] == pre.streams@[k],
                *self == (ServerConn {
                    streams: self.streams,
                    out_window: self.out_window,
                    conn_sent: self.conn_sent,
                    to_write: self.to_write,
                    ..pre
                }),
                pre.conn_sent@ <= self.conn_sent@,
                self.conn_sent@ > pre.conn_sent@ ==> self.out_window >= 0,
                self.to_write@.subrange(0, pre.to_write@.len() as int) == pre.to_write@,
                pre.to_write@.len() <= self.to_write@.len(),
                parts.len() == i,
                self.to_write@ == pre.to_write@ + concat_runs(parts),
                self.out_window == pre.out_window - payloads(concat_runs(parts)).len(),
                forall|k: int|
                    0 <= k < i ==> stream_frames(
                        #[trigger] parts[k],
                        pre.streams@[k],
                        self.streams@[k],
                        pre.peer_max_frame_size,
                    ),
            decreases self.streams@.len() - i,
        {
            let ghost cur = *self;
            self.flush_stream(i);
            proof {
                assert forall|k: int| 0 <= k < i + 1 implies Self::flushed(
                    pre.streams@[k],
                    #[trigger] self.streams@[k],
                    self.out_window,
                ) by {
                    if k < i {
                        assert(Self::flushed(pre.streams@[k], cur.streams@[k], cur.out_window));
                    }
                }
                let run = self.to_write@.subrange(
                    cur.to_write@.len() as int,
                    self.to_write@.len() as int,
                );
                lemma_concat_push(parts, run);
                lemma_payloads_append(concat_runs(parts), run);
                assert(self.to_write@ =~= cur.to_write@ + run);
                parts = parts.push(run);
                assert(self.to_write@ =~= pre.to_write@ + concat_runs(parts));
                assert forall|k: int| 0 <= k < i + 1 implies stream_frames(
                    #[trigger] parts[k],
                    pre.streams@[k],
                    self.streams@[k],
                    pre.peer_max_frame_size,
                ) by {
                    if k < i {
                        assert(cur.streams@[k] == self.streams@[k]);
                    }
                }
                assert(self.to_write@.subrange(0, pre.to_write@.len() as int) =~= self.to_write@.subrange(
                    0,
                    cur.to_write@.len() as int,
                ).subrange(0, pre.to_write@.len() as int));
            }
            i = i + 1;
        }
        assert(concat_runs(parts) == concat_runs(parts));
    }

    /// This side cancels a stream: RST_STREAM with the code is queued and the
    /// stream leaves the table, so that it is reset once only. Nothing is
    /// written for a stream that is not open.
    pub fn reset_stream(&mut self, stream_id: u32, code: ErrorCode)
        requires
            old(self).wf(),
        ensures
            final(self).wf(),
            final(self).same_settings(*old(self)),
            !old(self).has_stream(stream_id) ==> *final(self) == *old(self),
            old(self).has_stream(stream_id) ==> {
                &&& final(self).streams@ == old(self).streams@.remove(
                    old(self).index_of(stream_id)->0,
                )
                &&& final(self).to_write@ == old(self).to_write@.push(
                    OutFrame::RstStream { stream_id, code },
                )
            },
            !final(self).has_stream(stream_id),
    {
        if self.find_stream(stream_id).is_some() {
            self.process_rst_stream(stream_id);
            self.to_write.push(OutFrame::RstStream { stream_id, code });
        }
    }

    /// The application has consumed `increment` bytes of a stream: both
    /// inbound windows grow by it and WINDOW_UPDATE frames for the stream and
    /// the connection are queued. Returns false, and does nothing, for a zero
    /// increment, a stream that is not open, or a window that would exceed
    /// its largest size.
    pub fn increase_in_window(&mut self, stream_id: u32, increment: u32) -> (r: bool)
        requires
            old(self).wf(),
        ensures
            final(self).wf(),
            Self::in_window_increased(*old(self), *final(self), stream_id, increment, r),
    {
        if increment == 0 {
            return false;
        }
        let i = match self.find_stream(stream_id) {
            Some(i) => i,
            None => {
                return false;
            },
        };
        proof {
            self.lemma_index(i as int);
        }
        if self.in_window + increment as i64 > MAX_WINDOW || self.streams[i].in_window
            + increment as i64 > MAX_WINDOW {
            return false;
        }
        let ghost pre = *self;
        let mut s = self.streams.remove(i);
        s.in_window = s.in_window + increment as i64;
        self.streams.insert(i, s);
        self.in_window = self.in_window + increment as i64;
        proof {
            assert(self.streams@ =~= pre.streams@.update(i as int, s));
            Self::lemma_replace(pre, *self, i as int);
        }
        self.to_write.push(OutFrame::WindowUpdate { stream_id, increment });
        self.to_write.push(OutFrame::WindowUpdate { stream_id: 0, increment });
        true
    }

    /// Gives inbound credit back once the received bytes of a stream have
    /// been handed to its handler: a window that has fallen to half its full
    /// size or below (the initial window this side announced for a stream,
    /// the default window for the connection) is filled up again with a
    /// WINDOW_UPDATE frame, the stream's first.
    pub fn refill_in_windows(&mut self, stream_id: u32)
        requires
            old(self).wf(),
        ensures
            final(self).wf(),
            ({
                let conn_inc = refill(old(self).in_window as int, DEFAULT_WINDOW_SIZE as int);
                let stream_inc = if old(self).has_stream(stream_id) {
                    refill(
                        old(self).streams@[old(self).index_of(stream_id)->0].in_window as int,
                        old(self).our_initial_window as int,
                    )
                } else {
                    0
                };
                &&& final(self).in_window == old(self).in_window + conn_inc
                &&& final(self).to_write@ == old(self).to_write@ + window_updates(stream_id, stream_inc)
                    + window_updates(0, conn_inc)
                &&& !old(self).has_stream(stream_id) ==> final(self).streams == old(self).streams
                &&& old(self).has_stream(stream_id) ==> {
                    let i = old(self).index_of(stream_id)->0;
                    final(self).streams@ == old(self).streams@.update(
                        i,
                        ServerStream {
                            in_window: (old(self).streams@[i].in_window + stream_inc) as i64,
                            ..old(self).streams@[i]
                        },
                    )
                }
                &&& *final(self) == (ServerConn {
                    streams: final(self).streams,
                    in_window: final(self).in_window,
                    to_write: final(self).to_write,
                    ..*old(self)
                })
            }),
    {
        let ghost pre = *self;
        let ghost tw0 = self.to_write@;
        match self.find_stream(stream_id) {
            None => {},
            Some(i) => {
                proof {
                    self.lemma_index(i as int);
                }
                let w = self.streams[i].in_window;
                let full = self.our_initial_window as i64;
                if w <= full / 2 && w < full {
                    let inc = full - w;
                    let ghost cur = *self;
                    let mut s = self.streams.remove(i);
                    s.in_window = full;
                    self.streams.insert(i, s);
                    proof {
                        assert(self.streams@ =~= cur.streams@.update(i as int, s));
                        Self::lemma_replace(cur, *self, i as int);
                    }
                    self.to_write.push(OutFrame::WindowUpdate { stream_id, increment: inc as u32 });
                }
            },
        }
        let ghost tw1 = self.to_write@;
        let w = self.in_window;
        let full = DEFAULT_WINDOW_SIZE as i64;
        if w <= full / 2 && w < full {
            let inc = full - w;
            self.in_window = full;
            self.to_write.push(OutFrame::WindowUpdate { stream_id: 0, increment: inc as u32 });
        }
        proof {
            let conn_inc = refill(pre.in_window as int, DEFAULT_WINDOW_SIZE as int);
            let stream_inc = if pre.has_stream(stream_id) {
                refill(pre.streams@[pre.index_of(stream_id)->0].in_window as int, pre.our_initial_window as int)
            } else {
                0
            };
            assert(tw1 =~= tw0 + window_updates(stream_id, stream_inc));
            assert(self.to_write@ =~= tw1 + window_updates(0, conn_inc));
        }
    }

    /// The snapshot that `dump_state` takes of this connection.
    pub open spec fn snapshot_of(&self, r: ConnStateSnapshot) -> bool {
        &&& r.in_window == self.in_window
        &&& r.out_window == self.out_window
        &&& r.last_peer_stream_id == self.last_peer_stream_id
        &&& r.goaway == self.goaway
        &&& r.streams@ == self.streams@.map_values(|s: ServerStream| stream_snapshot(s))
    }

    /// Takes a snapshot of the connection and its stream table.
    pub fn dump_state(&self) -> (r: ConnStateSnapshot)
        ensures
            self.snapshot_of(r),
    {
        let mut streams: Vec<StreamSnapshot> = Vec::new();
        let mut i: usize = 0;
        while i < self.streams.len()
            invariant
                0 <= i <= self.streams@.len(),
                streams@ == self.streams@.subrange(0, i as int).map_values(
                    |s: ServerStream| stream_snapshot(s),
                ),
            decreases self.streams@.len() - i,
        {
            let s = &self.streams[i];
            streams.push(
                StreamSnapshot {
                    id: s.id,
                    out_window: s.out_window,
                    in_window: s.in_window,
                    remote_closed: s.remote_closed,
                    local_closed: s.local_closed,
                    queued: s.outgoing.len(),
                },
            );
            assert(self.streams@.subrange(0, i as int + 1) =~= self.streams@.subrange(0, i as int).push(
                self.streams@[i as int],
            ));
            assert(streams@ =~= self.streams@.subrange(0, i as int + 1).map_values(
                |s: ServerStream| stream_snapshot(s),
            ));
            i = i + 1;
        }
        assert(self.streams@.subrange(0, self.streams@.len() as int) =~= self.streams@);
        ConnStateSnapshot {
            in_window: self.in_window,
            out_window: self.out_window,
            last_peer_stream_id: self.last_peer_stream_id,
            goaway: self.goaway,
            streams,
        }
    }

    /// The command loop's step: serves one request from outside the
    /// connection task. Body bytes and ends of stream are queued and then
    /// flushed under flow control; a snapshot request is answered and
    /// changes nothing. After a write, streams that both sides have ended
    /// leave the table.
    pub fn process_message(&mut self, message: ServerToWriteMessage) -> (r: Option<
        ConnStateSnapshot,
    >)
        requires
            old(self).wf(),
        ensures
            final(self).wf(),
            r is Some <==> message matches ServerToWriteMessage::Common(
                CommonToWriteMessage::DumpState,
            ),
            r matches Some(snap) ==> *final(self) == *old(self) && old(self).snapshot_of(snap),
            final(self).peer_ids == old(self).peer_ids,
            final(self).to_write@.subrange(0, old(self).to_write@.len() as int)
                == old(self).to_write@,
            message matches ServerToWriteMessage::Common(
                CommonToWriteMessage::StreamHeaders { stream_id, headers, end_stream },
            ) ==> exists|mid: ServerConn, r: bool|
                #[trigger] Self::headers_sent(*old(self), mid, stream_id, headers, end_stream, r)
                    && Self::closed_removed(mid, *final(self)),
            message matches ServerToWriteMessage::Common(
                CommonToWriteMessage::StreamEnqueue { stream_id, data, end_stream },
            ) ==> exists|mid: ServerConn, flushed: ServerConn, r: bool|
                #[trigger] Self::data_queued(*old(self), mid, stream_id, data@, end_stream, r)
                    && #[trigger] Self::flush_step(mid, flushed) && Self::closed_removed(
                    flushed,
                    *final(self),
                ),
            message matches ServerToWriteMessage::Common(CommonToWriteMessage::StreamEnd { stream_id })
                ==> exists|mid: ServerConn, flushed: ServerConn, r: bool|
                #[trigger] Self::data_queued(*old(self), mid, stream_id, Seq::empty(), true, r)
                    && #[trigger] Self::flush_step(mid, flushed) && Self::closed_removed(
                    flushed,
                    *final(self),
                ),
            message matches ServerToWriteMessage::Common(
                CommonToWriteMessage::IncreaseInWindow { stream_id, increment },
            ) ==> exists|r: bool|
                Self::in_window_increased(*old(self), *final(self), stream_id, increment, r),
            message matches ServerToWriteMessage::Common(CommonToWriteMessage::Reset { stream_id, code })
                ==> if old(self).has_stream(stream_id) {
                &&& final(self).streams@ == old(self).streams@.remove(
                    old(self).index_of(stream_id)->0,
                )
                &&& final(self).to_write@ == old(self).to_write@.push(
                    OutFrame::RstStream { stream_id, code },
                )
            } else {
                *final(self) == *old(self)
            },
    {
        let ServerToWriteMessage::Common(m) = message;
        let ghost pre = *self;
        match m {
            CommonToWriteMessage::StreamEnqueue { stream_id, data, end_stream } => {
                let ghost d = data@;
                let sent = self.send_data(stream_id, data, end_stream);
                let ghost mid = *self;
                self.flush();
                let ghost flushed = *self;
                self.remove_closed_streams();
                assert(Self::data_queued(pre, mid, stream_id, d, end_stream, sent));
                assert(Self::flush_step(mid, flushed));
                assert(Self::closed_removed(flushed, *self));
                assert(self.to_write@.subrange(0, pre.to_write@.len() as int) =~= self.to_write@.subrange(
                    0,
                    mid.to_write@.len() as int,
                ).subrange(0, pre.to_write@.len() as int));
                None
            },
            CommonToWriteMessage::StreamHeaders { stream_id, headers, end_stream } => {
                let ghost h = headers;
                let sent = self.send_headers(stream_id, headers, end_stream);
                let ghost mid = *self;
                self.remove_closed_streams();
                assert(Self::headers_sent(pre, mid, stream_id, h, end_stream, sent));
                assert(Self::closed_removed(mid, *self));
                None
            },
            CommonToWriteMessage::StreamEnd { stream_id } => {
                let empty: Vec<u8> = Vec::new();
                assert(empty@ =~= Seq::<u8>::empty());
                let sent = self.send_data(stream_id, empty, true);
                let ghost mid = *self;
                self.flush();
                let ghost flushed = *self;
                self.remove_closed_streams();
                assert(Self::data_queued(pre, mid, stream_id, Seq::empty(), true, sent));
                assert(Self::flush_step(mid, flushed));
                assert(Self::closed_removed(flushed, *self));
                assert(self.to_write@.subrange(0, pre.to_write@.len() as int) =~= self.to_write@.subrange(
                    0,
                    mid.to_write@.len() as int,
                ).subrange(0, pre.to_write@.len() as int));
                None
            },
            CommonToWriteMessage::Reset { stream_id, code } => {
                self.reset_stream(stream_id, code);
                None
            },
            CommonToWriteMessage::IncreaseInWindow { stream_id, increment } => {
                let done = self.increase_in_window(stream_id, increment);
                assert(Self::in_window_increased(pre, *self, stream_id, increment, done));
                None
            },
            CommonToWriteMessage::DumpState => Some(self.dump_state()),
        }
    }

    /// The read loop's step for one decoded frame: dispatches it by type.
    /// DATA, SETTINGS, WINDOW_UPDATE, PING, RST_STREAM and GOAWAY are applied
    /// here; a HEADERS frame comes back for its header block to be decoded;
    /// frames of other types are ignored. Control frames on the wrong stream
    /// or with a payload of the wrong length end the connection.
    pub fn process_frame(&mut self, f: RawFrame) -> (r: Result<ReadOutcome, ConnError>)
        requires
            old(self).wf(),
        ensures
            final(self).wf(),
            f.kind == KIND_HEADERS ==> *final(self) == *old(self),
            f.kind == KIND_HEADERS && f.flags & FLAG_END_HEADERS == 0 ==> r == Err::<
                ReadOutcome,
                ConnError,
            >(ConnError::HeaderBlockContinued),
            f.kind == KIND_HEADERS && f.flags & FLAG_END_HEADERS != 0 ==> match frame_body(
                f.payload@,
                f.flags & FLAG_PADDED != 0,
                f.flags & FLAG_PRIORITY != 0,
            ) {
                None => r == Err::<ReadOutcome, ConnError>(ConnError::Protocol),
                Some(b) => r matches Ok(ReadOutcome::Headers { stream_id, end_stream, block })
                    && stream_id == f.stream_id && end_stream == (f.flags & FLAG_END_STREAM != 0)
                    && block@ == b,
            },
            f.kind == KIND_CONTINUATION ==> r == Err::<ReadOutcome, ConnError>(ConnError::Protocol)
                && *final(self) == *old(self),
            f.kind == KIND_DATA && frame_body(f.payload@, f.flags & FLAG_PADDED != 0, false) is None
                ==> r == Err::<ReadOutcome, ConnError>(ConnError::Protocol),
            f.kind == KIND_SETTINGS && f.stream_id != 0 ==> r == Err::<ReadOutcome, ConnError>(
                ConnError::Protocol,
            ),
            f.kind == KIND_SETTINGS && f.stream_id == 0 && f.flags & FLAG_ACK != 0 ==> if f.payload@.len()
                == 0 {
                r == Ok::<ReadOutcome, ConnError>(ReadOutcome::Done) && *final(self) == *old(self)
            } else {
                r == Err::<ReadOutcome, ConnError>(ConnError::FrameSize)
            },
            f.kind == KIND_SETTINGS && f.stream_id == 0 && f.flags & FLAG_ACK == 0 && f.payload@.len()
                % 6 != 0 ==> r == Err::<ReadOutcome, ConnError>(ConnError::FrameSize),
            (f.kind == KIND_WINDOW_UPDATE || f.kind == KIND_RST_STREAM) && f.payload@.len() != 4
                ==> r == Err::<ReadOutcome, ConnError>(ConnError::FrameSize),
            f.kind == KIND_PING && f.stream_id != 0 ==> r == Err::<ReadOutcome, ConnError>(
                ConnError::Protocol,
            ),
            f.kind == KIND_PING && f.stream_id == 0 && f.payload@.len() != 8 ==> r == Err::<
                ReadOutcome,
                ConnError,
            >(ConnError::FrameSize),
            f.kind == KIND_PING && f.stream_id == 0 && f.payload@.len() == 8 ==> r == Ok::<
                ReadOutcome,
                ConnError,
            >(ReadOutcome::Done) && final(self).to_write@ == if f.flags & FLAG_ACK != 0 {
                old(self).to_write@
            } else {
                old(self).to_write@.push(OutFrame::PingAck { data: get64(f.payload@) })
            },
            f.kind == KIND_RST_STREAM && f.payload@.len() == 4 ==> r == Ok::<ReadOutcome, ConnError>(
                ReadOutcome::Done,
            ) && !final(self).has_stream(f.stream_id),
            f.kind == KIND_GOAWAY ==> r == Ok::<ReadOutcome, ConnError>(ReadOutcome::Done)
                && final(self).goaway,
            f.kind > KIND_CONTINUATION || f.kind == KIND_PRIORITY || f.kind == KIND_PUSH_PROMISE ==> r == Ok::<
                ReadOutcome,
                ConnError,
            >(ReadOutcome::Done) && *final(self) == *old(self),
            f.kind == KIND_DATA ==> match frame_body(f.payload@, f.flags & FLAG_PADDED != 0, false) {
                Some(b) => Self::data_step(
                    *old(self),
                    *final(self),
                    f.stream_id,
                    b,
                    f.payload@.len() as int,
                    f.flags & FLAG_END_STREAM != 0,
                    unit_of(r),
                ),
                None => *final(self) == *old(self),
            },
            f.kind == KIND_SETTINGS && f.stream_id == 0 && f.flags & FLAG_ACK == 0 && f.payload@.len()
                % 6 == 0 ==> Self::settings_step(
                *old(self),
                *final(self),
                settings_of(f.payload@),
                unit_of(r),
            ),
            f.kind == KIND_WINDOW_UPDATE && f.payload@.len() == 4 ==> Self::window_step(
                *old(self),
                *final(self),
                f.stream_id,
                get32(f.payload@, 0) & 0x7fff_ffffu32,
                unit_of(r),
            ),
            f.kind != KIND_HEADERS && r is Ok ==> r == Ok::<ReadOutcome, ConnError>(ReadOutcome::Done),
    {
        let kind = f.kind;
        if kind == KIND_HEADERS {
            if f.flags & FLAG_END_HEADERS == 0 {
                return Err(ConnError::HeaderBlockContinued);
            }
            let end_stream = f.flags & FLAG_END_STREAM != 0;
            let padded = f.flags & FLAG_PADDED != 0;
            let priority = f.flags & FLAG_PRIORITY != 0;
            return match strip_frame_body(f.payload, padded, priority) {
                Some(block) => Ok(ReadOutcome::Headers { stream_id: f.stream_id, end_stream, block }),
                None => Err(ConnError::Protocol),
            };
        }
        if kind == KIND_CONTINUATION {
            return Err(ConnError::Protocol);
        }
        if kind == KIND_DATA {
            let end_stream = f.flags & FLAG_END_STREAM != 0;
            let charged = f.payload.len();
            let padded = f.flags & FLAG_PADDED != 0;
            return match strip_frame_body(f.payload, padded, false) {
                Some(data) => match self.receive_data(f.stream_id, data, charged, end_stream) {
                    Ok(()) => Ok(ReadOutcome::Done),
                    Err(e) => Err(e),
                },
                None => Err(ConnError::Protocol),
            };
        }
        if kind == KIND_SETTINGS {
            if f.stream_id != 0 {
                return Err(ConnError::Protocol);
            }
            if f.flags & FLAG_ACK != 0 {
                if f.payload.len() != 0 {
                    return Err(ConnError::FrameSize);
                }
                return Ok(ReadOutcome::Done);
            }
            let pairs = match decode_settings(&f.payload) {
                Ok(p) => p,
                Err(_) => {
                    return Err(ConnError::FrameSize);
                },
            };
            return match self.process_settings(&pairs) {
                Ok(()) => Ok(ReadOutcome::Done),
                Err(e) => Err(e),
            };
        }
        if kind == KIND_WINDOW_UPDATE || kind == KIND_RST_STREAM {
            if f.payload.len() != 4 {
                return Err(ConnError::FrameSize);
            }
            if kind == KIND_RST_STREAM {
                self.process_rst_stream(f.stream_id);
                return Ok(ReadOutcome::Done);
            }
            let b = &f.payload;
            let raw: u32 = ((b[0] as u32) << 24u32) | ((b[1] as u32) << 16u32) | ((b[2] as u32)
                << 8u32) | (b[3] as u32);
            let inc = raw & 0x7fff_ffffu32;
            return match self.process_window_update(f.stream_id, inc) {
                Ok(()) => Ok(ReadOutcome::Done),
                Err(e) => Err(e),
            };
        }
        if kind == KIND_PING {
            if f.stream_id != 0 {
                return Err(ConnError::Protocol);
            }
            if f.payload.len() != 8 {
                return Err(ConnError::FrameSize);
            }
            let b = &f.payload;
            let hi: u32 = ((b[0] as u32) << 24u32) | ((b[1] as u32) << 16u32) | ((b[2] as u32)
                << 8u32) | (b[3] as u32);
            let lo: u32 = ((b[4] as u32) << 24u32) | ((b[5] as u32) << 16u32) | ((b[6] as u32)
                << 8u32) | (b[7] as u32);
            assert(hi == get32(f.payload@, 0) && lo == get32(f.payload@, 4));
            let data: u64 = ((hi as u64) << 32u64) | (lo as u64);
            self.process_ping(data, f.flags & FLAG_ACK != 0);
            return Ok(ReadOutcome::Done);
        }
        if kind == KIND_GOAWAY {
            self.process_goaway();
            return Ok(ReadOutcome::Done);
        }
        Ok(ReadOutcome::Done)
    }

    /// Drops from the table every stream that both sides have ended and
    /// that has nothing left to write, keeping the others in order.
    pub fn remove_closed_streams(&mut self)
        requires
            old(self).wf(),
        ensures
            final(self).wf(),
            final(self).same_settings(*old(self)),
            final(self).to_write == old(self).to_write,
            final(self).streams@ == old(self).streams@.filter(live()),
            Self::closed_removed(*old(self), *final(self)),
    {
        let ghost pre = *self;
        let ghost orig = self.streams@;
        let ghost keep = live();
        let mut rest: Vec<ServerStream> = Vec::new();
        std::mem::swap(&mut rest, &mut self.streams);
        let mut kept: Vec<ServerStream> = Vec::new();
        let ghost mut i: int = 0;
        assert(orig.subrange(0, 0).filter(keep) =~= Seq::<ServerStream>::empty()) by {
            reveal(Seq::filter);
        }
        while rest.len() > 0
            invariant
                pre.wf(),
                orig == pre.streams@,
                keep == live(),
                0 <= i <= orig.len(),
                rest@ == orig.subrange(i, orig.len() as int),
                kept@ == orig.subrange(0, i).filter(keep),
                forall|a: int| 0 <= a < kept@.len() ==> (#[trigger] kept@[a]).wf(),
                forall|a: int|
                    0 <= a < kept@.len() ==> pre.peer_ids@.contains((#[trigger] kept@[a]).id),
                ids_increasing(stream_ids(kept@)),
                forall|a: int, k: int|
                    0 <= a < kept@.len() && i <= k < orig.len() ==> kept@[a].id < orig[k].id,
                *self == (ServerConn { streams: self.streams, ..pre }),
            decreases rest@.len(),
        {
            let s = rest.remove(0);
            proof {
                assert(s == orig[i]);
                assert(keep(s) == !stream_done(s));
                assert(orig.subrange(0, i + 1) =~= orig.subrange(0, i).push(orig[i]));
                orig.subrange(0, i).lemma_filter_push(orig[i], keep);
                assert(orig[i].wf());
                assert(pre.peer_ids@.contains(orig[i].id));
                assert forall|k: int| i < k < orig.len() implies orig[i].id < orig[k].id by {
                    assert(stream_ids(orig)[i] < stream_ids(orig)[k]);
                }
            }
            if !(s.local_closed && s.remote_closed && s.outgoing.len() == 0 && !s.outgoing_end
                && s.in_data.len() == 0) {
                let ghost before = kept@;
                kept.push(s);
                proof {
                    assert(kept@ == orig.subrange(0, i).filter(keep).push(orig[i]));
                    assert forall|a: int, b: int|
                        0 <= a < b < stream_ids(kept@).len() implies stream_ids(kept@)[a]
                        < stream_ids(kept@)[b] by {
                        if b < before.len() {
                            assert(stream_ids(before)[a] < stream_ids(before)[b]);
                        }
                    }
                }
            }
            proof {
                i = i + 1;
                assert(rest@ =~= orig.subrange(i, orig.len() as int));
            }
        }
        assert(orig.subrange(0, orig.len() as int) =~= orig);
        self.streams = kept;
    }
}

/// Stream ids from the client strictly increase over a connection's life,
/// and none is above the high-water mark, so `new_stream_from_client` refuses
/// every id already used: an id is never reused.
pub proof fn lemma_stream_ids_increase(c: ServerConn, i: int, j: int)
    requires
        c.wf(),
        0 <= i < j < c.peer_ids@.len(),
    ensures
        c.peer_ids@[i] < c.peer_ids@[j],
        c.peer_ids@[j] <= c.last_peer_stream_id,
{
    if j < c.peer_ids@.len() - 1 {
        assert(c.peer_ids@[j] < c.peer_ids@.last());
    }
}

/// Once the peer has granted credit, flushing never sends a stream past it:
/// after a step that sent bytes, the bytes sent on the stream are at most the
/// initial window plus every later grant (and settings change).
pub proof fn lemma_sent_within_credit(s: ServerStream, t: ServerStream, conn_out: i64)
    requires
        s.wf(),
        ServerConn::flushed(s, t, conn_out),
    ensures
        t.granted == s.granted,
        t.sent@ > s.sent@ ==> t.sent@ <= t.granted@,
{
}

/// Each WINDOW_UPDATE frame is credited exactly once: two frames with the
/// same increment, applied one after the other, add twice that increment and
/// no more, and leave every other window as it was.
pub proof fn lemma_window_update_once(
    c0: ServerConn,
    c1: ServerConn,
    c2: ServerConn,
    stream_id: u32,
    increment: u32,
)
    requires
        c1.credit(stream_id) == c0.credit(stream_id) + increment,
        c2.credit(stream_id) == c1.credit(stream_id) + increment,
        forall|id: u32| id != stream_id ==> c1.credit(id) == c0.credit(id),
        forall|id: u32| id != stream_id ==> c2.credit(id) == c1.credit(id),
    ensures
        c2.credit(stream_id) == c0.credit(stream_id) + 2 * increment,
        forall|id: u32| id != stream_id ==> c2.credit(id) == c0.credit(id),
{
}

/// The sum of a run of increments.
pub open spec fn sum_increments(incs: Seq<u32>) -> int
    decreases incs.len(),
{
    if incs.len() == 0 {
        0
    } else {
        sum_increments(incs.drop_last()) + incs.last()
    }
}

/// Over any run of WINDOW_UPDATE frames on one stream, each applied as
/// `process_window_update` applies it, the credit grows by exactly the sum
/// of their increments: duplicates add their own increment, and no frame is
/// credited twice.
pub proof fn lemma_window_updates_sum(cs: Seq<ServerConn>, incs: Seq<u32>, stream_id: u32)
    requires
        cs.len() == incs.len() + 1,
        forall|k: int|
            0 <= k < incs.len() ==> (#[trigger] cs[k + 1]).credit(stream_id) == cs[k].credit(stream_id)
                + incs[k],
    ensures
        cs.last().credit(stream_id) == cs[0].credit(stream_id) + sum_increments(incs),
    decreases incs.len(),
{
    if incs.len() > 0 {
        let n = incs.len() - 1;
        assert forall|k: int| 0 <= k < incs.drop_last().len() implies (
        #[trigger] cs.drop_last()[k + 1]).credit(stream_id) == cs.drop_last()[k].credit(stream_id)
            + incs.drop_last()[k] by {
            assert(cs.drop_last()[k + 1] == cs[k + 1]);
        }
        lemma_window_updates_sum(cs.drop_last(), incs.drop_last(), stream_id);
        assert(cs[n + 1].credit(stream_id) == cs[n].credit(stream_id) + incs[n]);
    }
}

} // verus!
