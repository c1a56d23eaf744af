//! Frame wire format: a 9-octet header (24-bit length, 8-bit type, 8-bit
//! flags, one reserved bit and a 31-bit stream id, all big-endian) followed by
//! the payload.
use vstd::prelude::*;

verus! {

pub const FRAME_HEADER_LEN: usize = 9;

pub const KIND_DATA: u8 = 0;
pub const KIND_HEADERS: u8 = 1;
pub const KIND_RST_STREAM: u8 = 3;
pub const KIND_SETTINGS: u8 = 4;
pub const KIND_PING: u8 = 6;
pub const KIND_GOAWAY: u8 = 7;
pub const KIND_WINDOW_UPDATE: u8 = 8;

pub const FLAG_END_STREAM: u8 = 1;
pub const FLAG_ACK: u8 = 1;
pub const FLAG_END_HEADERS: u8 = 4;
pub const FLAG_PADDED: u8 = 8;
pub const FLAG_PRIORITY: u8 = 0x20;
pub const KIND_CONTINUATION: u8 = 9;

/// A frame as it stands on the wire, its payload not yet interpreted.
#[derive(Debug, PartialEq, Eq)]
pub struct RawFrame {
    pub kind: u8,
    pub flags: u8,
    pub stream_id: u32,
    pub payload: Vec<u8>,
}

/// Type, flags, stream id and payload of a frame.
pub type FrameModel = (u8, u8, u32, Seq<u8>);

impl RawFrame {
    pub open spec fn view(&self) -> FrameModel {
        (self.kind, self.flags, self.stream_id, self.payload@)
    }
}

#[derive(Clone, Copy, Debug, PartialEq, Eq, Structural)]
pub enum FrameError {
    /// The bytes end before the frame does.
    Incomplete,
    /// The frame's length exceeds the negotiated maximum frame size.
    FrameTooLarge,
    /// A SETTINGS payload whose length is not a multiple of six.
    SettingsLength,
}

pub open spec fn get16(b: Seq<u8>, i: int) -> u16 {
    ((b[i] as u16) << 8u16) | (b[i + 1] as u16)
}

/// The (identifier, value) pairs of a SETTINGS payload, six bytes each.
pub open spec fn settings_of(b: Seq<u8>) -> Seq<(u16, u32)> {
    Seq::new((b.len() / 6) as nat, |k: int| (get16(b, 6 * k), get32(b, 6 * k + 2)))
}

pub open spec fn be24(n: u32) -> Seq<u8> {
    seq![((n >> 16u32) & 0xffu32) as u8, ((n >> 8u32) & 0xffu32) as u8, (n & 0xffu32) as u8]
}

pub open spec fn be32(n: u32) -> Seq<u8> {
    seq![
        ((n >> 24u32) & 0xffu32) as u8,
        ((n >> 16u32) & 0xffu32) as u8,
        ((n >> 8u32) & 0xffu32) as u8,
        (n & 0xffu32) as u8,
    ]
}

pub open spec fn get24(b: Seq<u8>, i: int) -> u32 {
    ((b[i] as u32) << 16u32) | ((b[i + 1] as u32) << 8u32) | (b[i + 2] as u32)
}

pub open spec fn get32(b: Seq<u8>, i: int) -> u32 {
    ((b[i] as u32) << 24u32) | ((b[i + 1] as u32) << 16u32) | ((b[i + 2] as u32) << 8u32) | (
    b[i + 3] as u32)
}

/// A frame that can be written: its id fits in 31 bits, its length in 24.
pub open spec fn frame_ok(f: FrameModel) -> bool {
    f.2 < 0x8000_0000u32 && f.3.len() < 0x100_0000
}

pub open spec fn frame_bytes(f: FrameModel) -> Seq<u8> {
    be24(f.3.len() as u32) + seq![f.0, f.1] + be32(f.2) + f.3
}

pub open spec fn frames_bytes(fs: Seq<FrameModel>) -> Seq<u8>
    decreases fs.len(),
{
    if fs.len() == 0 {
        Seq::empty()
    } else {
        frame_bytes(fs[0]) + frames_bytes(fs.drop_first())
    }
}

/// The first frame of `b` and the number of bytes it takes, if `b` holds a whole one.
pub open spec fn parse_frame(b: Seq<u8>) -> Option<(FrameModel, int)> {
    if b.len() < 9 || b.len() < 9 + get24(b, 0) {
        None
    } else {
        let n = 9 + get24(b, 0);
        Some(((b[3], b[4], get32(b, 5) & 0x7fff_ffffu32, b.subrange(9, n)), n))
    }
}

/// All frames of `b`, if `b` is a whole number of frames.
pub open spec fn parse_frames(b: Seq<u8>) -> Option<Seq<FrameModel>>
    decreases b.len(),
{
    if b.len() == 0 {
        Some(Seq::empty())
    } else if b.len() < 9 || b.len() < 9 + get24(b, 0) {
        None
    } else {
        let n = 9 + get24(b, 0);
        let f = (b[3], b[4], get32(b, 5) & 0x7fff_ffffu32, b.subrange(9, n));
        match parse_frames(b.subrange(n, b.len() as int)) {
            Some(rest) => Some(seq![f] + rest),
            None => None,
        }
    }
}

proof fn lemma_int24(n: u32)
    requires
        n < 0x100_0000u32,
    ensures
        ((((n >> 16u32) & 0xffu32) as u8 as u32) << 16u32) | ((((n >> 8u32) & 0xffu32) as u8 as u32)
            << 8u32) | ((n & 0xffu32) as u8 as u32) == n,
{
    assert(((((n >> 16u32) & 0xffu32) as u8 as u32) << 16u32) | ((((n >> 8u32) & 0xffu32) as u8
        as u32) << 8u32) | ((n & 0xffu32) as u8 as u32) == n) by (bit_vector)
        requires
            n < 0x100_0000u32,
    ;
}

proof fn lemma_int31(n: u32)
    requires
        n < 0x8000_0000u32,
    ensures
        (((((n >> 24u32) & 0xffu32) as u8 as u32) << 24u32) | ((((n >> 16u32) & 0xffu32) as u8
            as u32) << 16u32) | ((((n >> 8u32) & 0xffu32) as u8 as u32) << 8u32) | ((n & 0xffu32)
            as u8 as u32)) & 0x7fff_ffffu32 == n,
{
    assert((((((n >> 24u32) & 0xffu32) as u8 as u32) << 24u32) | ((((n >> 16u32) & 0xffu32)
        as u8 as u32) << 16u32) | ((((n >> 8u32) & 0xffu32) as u8 as u32) << 8u32) | ((n
        & 0xffu32) as u8 as u32)) & 0x7fff_ffffu32 == n) by (bit_vector)
        requires
            n < 0x8000_0000u32,
    ;
}

/// Decoding the bytes of a frame, followed by anything, gives the frame back
/// and consumes exactly its bytes.
pub proof fn lemma_frame_round_trip(f: FrameModel, rest: Seq<u8>)
    requires
        frame_ok(f),
    ensures
        parse_frame(frame_bytes(f) + rest) == Some((f, 9 + f.3.len() as int)),
        (frame_bytes(f) + rest).subrange(9 + f.3.len() as int, (frame_bytes(f) + rest).len() as int)
            == rest,
{
    let b = frame_bytes(f) + rest;
    let n = f.3.len() as u32;
    lemma_int24(n);
    lemma_int31(f.2);
    assert(get24(b, 0) == n);
    assert(get32(b, 5) & 0x7fff_ffffu32 == f.2);
    assert(b.subrange(9, 9 + f.3.len() as int) =~= f.3);
    assert(b.subrange(9 + f.3.len() as int, b.len() as int) =~= rest);
}

/// Encoding a sequence of frames and decoding the bytes reproduces the
/// sequence exactly: every type, flag set, stream id and payload byte.
pub proof fn lemma_frames_round_trip(fs: Seq<FrameModel>)
    requires
        forall|i: int| 0 <= i < fs.len() ==> frame_ok(#[trigger] fs[i]),
    ensures
        parse_frames(frames_bytes(fs)) == Some(fs),
    decreases fs.len(),
{
    if fs.len() == 0 {
        assert(frames_bytes(fs) =~= Seq::<u8>::empty());
    } else {
        let f = fs[0];
        let rest = frames_bytes(fs.drop_first());
        let b = frames_bytes(fs);
        assert(frame_ok(fs[0]));
        assert(forall|i: int| 0 <= i < fs.drop_first().len() ==> fs.drop_first()[i] == fs[i + 1]);
        lemma_frames_round_trip(fs.drop_first());
        lemma_frame_round_trip(f, rest);
        assert(b.len() >= 9);
        assert(seq![f] + fs.drop_first() =~= fs);
    }
}

/// Appends the bytes of `f` to `out`.
pub fn encode_frame(f: &RawFrame, out: &mut Vec<u8>)
    requires
        frame_ok(f@),
    ensures
        final(out)@ == old(out)@ + frame_bytes(f@),
{
    let n = f.payload.len() as u32;
    let id = f.stream_id;
    out.push(((n >> 16u32) & 0xffu32) as u8);
    out.push(((n >> 8u32) & 0xffu32) as u8);
    out.push((n & 0xffu32) as u8);
    out.push(f.kind);
    out.push(f.flags);
    out.push(((id >> 24u32) & 0xffu32) as u8);
    out.push(((id >> 16u32) & 0xffu32) as u8);
    out.push(((id >> 8u32) & 0xffu32) as u8);
    out.push((id & 0xffu32) as u8);
    let ghost head = out@;
    let mut i: usize = 0;
    while i < f.payload.len()
        invariant
            0 <= i <= f.payload@.len(),
            out@ == head + f.payload@.subrange(0, i as int),
        decreases f.payload@.len() - i,
    {
        out.push(f.payload[i]);
        proof {
            assert(f.payload@.subrange(0, i as int + 1) =~= f.payload@.subrange(0, i as int).push(
                f.payload@[i as int],
            ));
        }
        i = i + 1;
    }
    assert(f.payload@.subrange(0, f.payload@.len() as int) =~= f.payload@);
    assert(out@ =~= old(out)@ + frame_bytes(f@));
}

/// The bytes of a sequence of frames, one after another.
pub fn encode_frames(fs: &Vec<RawFrame>) -> (r: Vec<u8>)
    requires
        forall|i: int| 0 <= i < fs@.len() ==> frame_ok(#[trigger] fs@[i]@),
    ensures
        r@ == frames_bytes(fs@.map_values(|f: RawFrame| f@)),
{
    let ghost ms = fs@.map_values(|f: RawFrame| f@);
    let mut out: Vec<u8> = Vec::new();
    let mut i: usize = fs.len();
    proof {
        assert(ms.subrange(i as int, ms.len() as int) =~= Seq::<FrameModel>::empty());
    }
    // Built back to front: each step puts one frame before what is done.
    let mut done: Vec<u8> = Vec::new();
    while i > 0
        invariant
            ms == fs@.map_values(|f: RawFrame| f@),
            0 <= i <= fs@.len(),
            forall|k: int| 0 <= k < fs@.len() ==> frame_ok(#[trigger] fs@[k]@),
            done@ == frames_bytes(ms.subrange(i as int, ms.len() as int)),
        decreases i,
    {
        i = i - 1;
        let mut chunk: Vec<u8> = Vec::new();
        encode_frame(&fs[i], &mut chunk);
        let mut j: usize = 0;
        let ghost c = chunk@;
        while j < done.len()
            invariant
                0 <= j <= done@.len(),
                chunk@ == c + done@.subrange(0, j as int),
            decreases done@.len() - j,
        {
            chunk.push(done[j]);
            proof {
                assert(done@.subrange(0, j as int + 1) =~= done@.subrange(0, j as int).push(
                    done@[j as int],
                ));
            }
            j = j + 1;
        }
        proof {
            assert(done@.subrange(0, done@.len() as int) =~= done@);
            let s = ms.subrange(i as int, ms.len() as int);
            assert(s[0] == fs@[i as int]@);
            assert(s.drop_first() =~= ms.subrange(i as int + 1, ms.len() as int));
        }
        done = chunk;
    }
    assert(ms.subrange(0, ms.len() as int) =~= ms);
    out.append(&mut done);
    assert(out@ =~= frames_bytes(ms));
    out
}

/// Decodes the frame that starts at `pos`, refusing one longer than
/// `max_frame_size`. Returns the frame and the position after it.
pub fn decode_frame(buf: &Vec<u8>, pos: usize, max_frame_size: u32) -> (r: Result<
    (RawFrame, usize),
    FrameError,
>)
    requires
        pos <= buf@.len(),
    ensures
        ({
            let b = buf@.subrange(pos as int, buf@.len() as int);
            match r {
                Ok((f, next)) => {
                    &&& parse_frame(b) == Some((f@, next - pos))
                    &&& f.payload@.len() <= max_frame_size
                },
                Err(FrameError::FrameTooLarge) => b.len() >= 9 && get24(b, 0) > max_frame_size,
                Err(FrameError::Incomplete) => parse_frame(b) is None && (b.len() < 9 || get24(b, 0)
                    <= max_frame_size),
                Err(FrameError::SettingsLength) => false,
            }
        }),
{
    let ghost b = buf@.subrange(pos as int, buf@.len() as int);
    if buf.len() - pos < 9 {
        return Err(FrameError::Incomplete);
    }
    let len: u32 = ((buf[pos] as u32) << 16u32) | ((buf[pos + 1] as u32) << 8u32) | (buf[pos
        + 2] as u32);
    assert(len == get24(b, 0));
    if len > max_frame_size {
        return Err(FrameError::FrameTooLarge);
    }
    if buf.len() - pos - 9 < len as usize {
        return Err(FrameError::Incomplete);
    }
    let raw_id: u32 = ((buf[pos + 5] as u32) << 24u32) | ((buf[pos + 6] as u32) << 16u32) | ((
    buf[pos + 7] as u32) << 8u32) | (buf[pos + 8] as u32);
    assert(raw_id == get32(b, 5));
    let start = pos + 9;
    let end = start + len as usize;
    let mut payload: Vec<u8> = Vec::new();
    let mut i: usize = start;
    while i < end
        invariant
            start <= i <= end <= buf@.len(),
            payload@ == buf@.subrange(start as int, i as int),
        decreases end - i,
    {
        payload.push(buf[i]);
        proof {
            assert(buf@.subrange(start as int, i as int + 1) =~= buf@.subrange(start as int, i as int).push(
                buf@[i as int],
            ));
        }
        i = i + 1;
    }
    assert(payload@ =~= b.subrange(9, 9 + len as int));
    let f = RawFrame { kind: buf[pos + 3], flags: buf[pos + 4], stream_id: raw_id & 0x7fff_ffffu32, payload };
    Ok((f, end))
}

/// Decodes a buffer that must hold a whole number of frames, none longer
/// than `max_frame_size`.
pub fn decode_frames(buf: &Vec<u8>, max_frame_size: u32) -> (r: Result<Vec<RawFrame>, FrameError>)
    ensures
        r matches Ok(v) ==> parse_frames(buf@) == Some(v@.map_values(|f: RawFrame| f@)),
        parse_frames(buf@) is None ==> r is Err,
        parse_frames(buf@) is Some && (forall|i: int|
            0 <= i < parse_frames(buf@)->0.len() ==> (#[trigger] parse_frames(buf@)->0[i]).3.len()
                <= max_frame_size) ==> r is Ok,
{
    let mut out: Vec<RawFrame> = Vec::new();
    let mut pos: usize = 0;
    assert(buf@.subrange(0, buf@.len() as int) =~= buf@);
    proof {
        match parse_frames(buf@) {
            Some(rest) => {
                assert(out@.map_values(|f: RawFrame| f@) + rest =~= rest);
            },
            None => {},
        }
    }
    while pos < buf.len()
        invariant
            0 <= pos <= buf@.len(),
            parse_frames(buf@) == match parse_frames(buf@.subrange(pos as int, buf@.len() as int)) {
                Some(rest) => Some(out@.map_values(|f: RawFrame| f@) + rest),
                None => None::<Seq<FrameModel>>,
            },
        decreases buf@.len() - pos,
    {
        let ghost b = buf@.subrange(pos as int, buf@.len() as int);
        let (f, next) = match decode_frame(buf, pos, max_frame_size) {
            Ok(x) => x,
            Err(e) => {
                proof {
                    if e == FrameError::FrameTooLarge && parse_frames(b) is Some {
                        let len = get24(b, 0);
                        let f = (b[3], b[4], get32(b, 5) & 0x7fff_ffffu32, b.subrange(9, 9 + len));
                        let rest = parse_frames(b.subrange(9 + len, b.len() as int))->0;
                        let prev = out@.map_values(|g: RawFrame| g@);
                        let all = parse_frames(buf@)->0;
                        assert(all == prev + (seq![f] + rest));
                        assert(all[prev.len() as int] == f);
                        assert(f.3.len() > max_frame_size);
                    }
                }
                return Err(e);
            },
        };
        proof {
            let n = next - pos;
            assert(n >= 9);
            assert(parse_frame(b) == Some((f@, n)));
            assert(b.len() > 0);
            assert(parse_frames(b) == match parse_frames(b.subrange(n, b.len() as int)) {
                Some(rest) => Some(seq![f@] + rest),
                None => None::<Seq<FrameModel>>,
            });
            assert(b.subrange(n, b.len() as int) =~= buf@.subrange(next as int, buf@.len() as int));
            let ghost old_out = out@.map_values(|g: RawFrame| g@);
            assert(old_out.push(f@) =~= out@.push(f).map_values(|g: RawFrame| g@));
            match parse_frames(buf@.subrange(next as int, buf@.len() as int)) {
                Some(rest) => {
                    assert(old_out + (seq![f@] + rest) =~= old_out.push(f@) + rest);
                },
                None => {},
            }
        }
        out.push(f);
        pos = next;
    }
    assert(buf@.subrange(pos as int, buf@.len() as int) =~= Seq::<u8>::empty());
    assert(out@.map_values(|f: RawFrame| f@) + Seq::<FrameModel>::empty() =~= out@.map_values(
        |f: RawFrame| f@,
    ));
    Ok(out)
}

/// Splits a SETTINGS payload into its (identifier, value) pairs.
pub fn decode_settings(payload: &Vec<u8>) -> (r: Result<Vec<(u16, u32)>, FrameError>)
    ensures
        r is Ok <==> payload@.len() % 6 == 0,
        r matches Ok(v) ==> v@ == settings_of(payload@),
        r matches Err(e) ==> e == FrameError::SettingsLength,
{
    if payload.len() % 6 != 0 {
        return Err(FrameError::SettingsLength);
    }
    let len = payload.len();
    let n = len / 6;
    let mut out: Vec<(u16, u32)> = Vec::new();
    let mut k: usize = 0;
    while k < n
        invariant
            len == payload@.len(),
            n == payload@.len() / 6,
            payload@.len() % 6 == 0,
            0 <= k <= n,
            out@ == settings_of(payload@).subrange(0, k as int),
        decreases n - k,
    {
        assert(6 * k + 6 <= payload@.len()) by (nonlinear_arith)
            requires
                k < n,
                n == payload@.len() / 6,
                payload@.len() % 6 == 0,
        ;
        let i = 6 * k;
        let id: u16 = ((payload[i] as u16) << 8u16) | (payload[i + 1] as u16);
        let value: u32 = ((payload[i + 2] as u32) << 24u32) | ((payload[i + 3] as u32) << 16u32) | ((
        payload[i + 4] as u32) << 8u32) | (payload[i + 5] as u32);
        out.push((id, value));
        assert(out@ =~= settings_of(payload@).subrange(0, k as int + 1));
        k = k + 1;
    }
    assert(out@ =~= settings_of(payload@));
    Ok(out)
}

/// The 24 octets a client sends before its first frame:
/// `PRI * HTTP/2.0\r\n\r\nSM\r\n\r\n`.
pub open spec fn client_preface() -> Seq<u8> {
    seq![
        0x50u8, 0x52, 0x49, 0x20, 0x2a, 0x20, 0x48, 0x54, 0x54, 0x50, 0x2f, 0x32, 0x2e, 0x30, 0x0d,
        0x0a, 0x0d, 0x0a, 0x53, 0x4d, 0x0d, 0x0a, 0x0d, 0x0a,
    ]
}

pub const CLIENT_PREFACE_LEN: usize = 24;

/// Whether `b` starts with the client connection preface.
pub fn starts_with_client_preface(b: &Vec<u8>) -> (r: bool)
    ensures
        r == (b@.len() >= 24 && b@.subrange(0, 24) == client_preface()),
{
    let p = vec![
        0x50u8, 0x52, 0x49, 0x20, 0x2a, 0x20, 0x48, 0x54, 0x54, 0x50, 0x2f, 0x32, 0x2e, 0x30, 0x0d,
        0x0a, 0x0d, 0x0a, 0x53, 0x4d, 0x0d, 0x0a, 0x0d, 0x0a,
    ];
    assert(p@ =~= client_preface());
    if b.len() < 24 {
        return false;
    }
    let mut i: usize = 0;
    while i < 24
        invariant
            p@ == client_preface(),
            b@.len() >= 24,
            0 <= i <= 24,
            forall|k: int| 0 <= k < i ==> b@[k] == p@[k],
        decreases 24 - i,
    {
        if b[i] != p[i] {
            assert(b@.subrange(0, 24)[i as int] != client_preface()[i as int]);
            return false;
        }
        i = i + 1;
    }
    assert(b@.subrange(0, 24) =~= client_preface());
    true
}

/// The SETTINGS frame a server sends first: server push turned off, every
/// other setting at its default.
pub fn server_settings_frame() -> (r: RawFrame)
    ensures
        r@ == (KIND_SETTINGS, 0u8, 0u32, seq![0u8, 2, 0, 0, 0, 0]),
{
    let payload = vec![0u8, 2, 0, 0, 0, 0];
    assert(payload@ =~= seq![0u8, 2, 0, 0, 0, 0]);
    RawFrame { kind: KIND_SETTINGS, flags: 0, stream_id: 0, payload }
}

/// What a DATA or HEADERS payload carries once its padding (a length byte
/// in front, that many bytes at the end) and, for HEADERS, its priority
/// fields (five bytes after the pad length) are taken off; `None` when the
/// payload is too short for what its flags announce.
pub open spec fn frame_body(p: Seq<u8>, padded: bool, priority: bool) -> Option<Seq<u8>> {
    let pad_field: int = if padded { 1 } else { 0 };
    if p.len() < pad_field {
        None
    } else {
        let pad: int = if padded { p[0] as int } else { 0 };
        let start = pad_field + if priority { 5int } else { 0int };
        if start + pad > p.len() {
            None
        } else {
            Some(p.subrange(start, p.len() - pad))
        }
    }
}

/// Takes padding and priority fields off a frame payload.
pub fn strip_frame_body(p: Vec<u8>, padded: bool, priority: bool) -> (r: Option<Vec<u8>>)
    ensures
        match frame_body(p@, padded, priority) {
            Some(b) => r matches Some(v) && v@ == b,
            None => r is None,
        },
{
    let len = p.len();
    let pad_field: usize = if padded { 1 } else { 0 };
    if len < pad_field {
        return None;
    }
    let pad: usize = if padded { p[0] as usize } else { 0 };
    let start: usize = pad_field + if priority { 5 } else { 0 };
    if start + pad > len {
        return None;
    }
    let mut v = p;
    let ghost whole = v@;
    v.truncate(len - pad);
    let body = v.split_off(start);
    assert(body@ =~= whole.subrange(start as int, len - pad));
    Some(body)
}

} // verus!
