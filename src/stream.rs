//! Per-stream state of the connection's stream table.
use vstd::prelude::*;

use crate::headers::Header;

verus! {

/// The largest value a flow-control window may reach.
pub const MAX_WINDOW: i64 = 2147483647;

/// Role-specific payload of a server-side stream; the server keeps none.
pub struct ServerStreamData {}

/// What the connection hands to the application handler of a stream.
#[derive(Debug, PartialEq, Eq)]
pub enum PeerEvent {
    Data(Vec<u8>),
    Trailers(Vec<Header>),
    EndOfStream,
}

/// One stream of a server connection.
///
/// The outbound window always equals the credit granted by the peer (initial
/// window from the settings, its later changes, and every WINDOW_UPDATE) less
/// the bytes sent: `out_window == granted - sent`.
pub struct ServerStream {
    pub id: u32,
    /// The peer has ended its side of the stream.
    pub remote_closed: bool,
    /// This side has written its end of stream.
    pub local_closed: bool,
    /// Credit for bytes this side may still send.
    pub out_window: i64,
    /// Credit this side still grants the peer.
    pub in_window: i64,
    /// Bytes received and not yet handed on.
    pub in_data: Vec<u8>,
    /// Bytes queued for sending and not yet written.
    pub outgoing: Vec<u8>,
    /// An end of stream is queued behind `outgoing`.
    pub outgoing_end: bool,
    /// Channel to the application handler; `None` once it has detached.
    pub peer_tx: Option<Vec<PeerEvent>>,
    pub specific: ServerStreamData,
    pub sent: Ghost<int>,
    pub granted: Ghost<int>,
}

/// `q` is the handler channel `p` with `events` appended; no channel stays none.
pub open spec fn delivered(
    p: Option<Vec<PeerEvent>>,
    q: Option<Vec<PeerEvent>>,
    events: Seq<PeerEvent>,
) -> bool {
    match p {
        Some(v) => q matches Some(w) && w@ == v@ + events,
        None => q is None,
    }
}

impl ServerStream {
    /// Marks the peer's side ended and tells the handler, if one is attached.
    pub fn end_recvd(&mut self)
        ensures
            delivered(old(self).peer_tx, final(self).peer_tx, seq![PeerEvent::EndOfStream]),
            *final(self) == (ServerStream {
                peer_tx: final(self).peer_tx,
                remote_closed: true,
                ..*old(self)
            }),
    {
        self.remote_closed = true;
        if let Some(ref mut sender) = self.peer_tx {
            let ghost before = sender@;
            sender.push(PeerEvent::EndOfStream);
            assert(sender@ =~= before + seq![PeerEvent::EndOfStream]);
        }
    }

    pub open spec fn wf(&self) -> bool {
        &&& self.out_window == self.granted@ - self.sent@
        &&& 0 <= self.sent@
        &&& self.out_window <= MAX_WINDOW
        &&& self.out_window >= -MAX_WINDOW
        &&& 0 <= self.in_window <= MAX_WINDOW
        &&& self.id > 0
    }

    /// A fresh stream whose windows are seeded from the settings.
    pub fn new(id: u32, out_window: u32, in_window: u32, remote_closed: bool) -> (r: ServerStream)
        requires
            id > 0,
            out_window <= MAX_WINDOW,
            in_window <= MAX_WINDOW,
        ensures
            r.wf(),
            r.id == id,
            r.out_window == out_window,
            r.in_window == in_window,
            r.remote_closed == remote_closed,
            !r.local_closed,
            r.in_data@.len() == 0,
            r.outgoing@.len() == 0,
            !r.outgoing_end,
            r.peer_tx is None,
            r.sent@ == 0,
    {
        ServerStream {
            id,
            remote_closed,
            local_closed: false,
            out_window: out_window as i64,
            in_window: in_window as i64,
            in_data: Vec::new(),
            outgoing: Vec::new(),
            outgoing_end: false,
            peer_tx: None,
            specific: ServerStreamData {},
            sent: Ghost(0),
            granted: Ghost(out_window as int),
        }
    }

    /// Hands trailers to the handler, if one is attached; otherwise drops them.
    pub fn trailers_recvd(&mut self, headers: Vec<Header>)
        ensures
            match old(self).peer_tx {
                Some(evs) => final(self).peer_tx matches Some(n) && n@ == evs@.push(
                    PeerEvent::Trailers(headers),
                ),
                None => final(self).peer_tx is None,
            },
            final(self).id == old(self).id,
            final(self).out_window == old(self).out_window,
            final(self).in_window == old(self).in_window,
            final(self).remote_closed == old(self).remote_closed,
            final(self).local_closed == old(self).local_closed,
            final(self).in_data == old(self).in_data,
            final(self).outgoing == old(self).outgoing,
            final(self).outgoing_end == old(self).outgoing_end,
            final(self).sent == old(self).sent,
            final(self).granted == old(self).granted,
    {
        if let Some(ref mut sender) = self.peer_tx {
            sender.push(PeerEvent::Trailers(headers));
        }
    }
}

} // verus!
