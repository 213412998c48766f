//! Framing: a 4-byte little-endian length, then that many payload bytes. A
//! frame of length zero followed by a zero byte is a liveness probe.
use vstd::prelude::*;
use vstd::slice::{slice_subrange, slice_to_vec};
use crate::message::{
    event_fits, event_of_payload, event_payload, lemma_event_round_trip, lemma_payload_not_empty,
    lemma_request_round_trip, request_fits, request_of_payload, request_payload, EventView,
    PluginEvent, PluginRequest, RequestView,
};
use crate::codec::{
    le_bytes, le_value, lemma_le_bytes_len, lemma_le_round_trip, pow256, u32_from_le, u32_to_le,
};

verus! {

/// Why a connection can no longer be used.
#[derive(Debug, Clone, Copy, PartialEq, Eq, Structural)]
pub enum TransportError {
    /// A frame's declared length does not agree with its payload.
    FramingError,
    /// A payload does not have the shape of the expected message.
    DecodeError,
    /// The peer closed the stream in the middle of a frame.
    ConnectionReset,
    /// The stream refused a write or a read.
    IoError,
}

/// The largest payload that a frame's length field can declare.
pub const MAX_PAYLOAD: usize = 0xffff_ffff;

/// The bytes of a frame that carries `payload`.
pub open spec fn frame_bytes(payload: Seq<u8>) -> Seq<u8> {
    le_bytes(payload.len(), 4) + payload
}

/// The liveness probe: length zero, then the sentinel byte zero.
pub open spec fn probe_bytes() -> Seq<u8> {
    seq![0u8, 0u8, 0u8, 0u8, 0u8]
}

/// Frames `payload`: its length in four little-endian bytes, then the payload.
/// Fails with `FramingError` where the length does not fit in the field.
pub fn encode_frame(payload: &[u8]) -> (r: Result<Vec<u8>, TransportError>)
    ensures
        match r {
            Ok(bytes) => payload@.len() <= MAX_PAYLOAD && bytes@ == frame_bytes(payload@),
            Err(e) => payload@.len() > MAX_PAYLOAD && e == TransportError::FramingError,
        },
{
    if payload.len() > MAX_PAYLOAD {
        return Err(TransportError::FramingError);
    }
    let mut bytes = u32_to_le(payload.len() as u32);
    let mut i: usize = 0;
    while i < payload.len()
        invariant
            i <= payload@.len(),
            payload@.len() <= MAX_PAYLOAD,
            bytes@ == le_bytes(payload@.len(), 4) + payload@.subrange(0, i as int),
        decreases payload@.len() - i,
    {
        bytes.push(payload[i]);
        i = i + 1;
        assert(bytes@ =~= le_bytes(payload@.len(), 4) + payload@.subrange(0, i as int));
    }
    assert(payload@.subrange(0, i as int) =~= payload@);
    Ok(bytes)
}

/// The bytes that probe whether the peer still accepts writes.
pub fn probe_frame() -> (r: Vec<u8>)
    ensures
        r@ == probe_bytes(),
{
    let r: Vec<u8> = vec![0u8, 0u8, 0u8, 0u8, 0u8];
    assert(r@ =~= probe_bytes());
    r
}

#[verifier::external_type_specification]
#[verifier::external_body]
pub struct ExBytesMut(bytes::BytesMut);

/// The bytes that a `BytesMut` holds, front first.
pub uninterp spec fn bytes_held(b: bytes::BytesMut) -> Seq<u8>;

/// Relies on `bytes::BytesMut::with_capacity`: the new buffer holds no bytes.
#[verifier::external_body]
fn buffer_new() -> (r: bytes::BytesMut)
    ensures
        bytes_held(r) == Seq::<u8>::empty(),
{
    bytes::BytesMut::with_capacity(4096)
}

/// Relies on `bytes::BytesMut::extend_from_slice`: the chunk is appended at
/// the back. It panics only where the length would pass `isize::MAX`.
#[verifier::external_body]
fn buffer_extend(b: &mut bytes::BytesMut, chunk: &[u8])
    requires
        bytes_held(*old(b)).len() + chunk@.len() <= isize::MAX,
    ensures
        bytes_held(*final(b)) == bytes_held(*old(b)) + chunk@,
{
    b.extend_from_slice(chunk)
}

/// Relies on `bytes::BytesMut`'s `Deref<Target = [u8]>`: the slice holds the
/// buffered bytes.
#[verifier::external_body]
fn buffer_bytes(b: &bytes::BytesMut) -> (r: &[u8])
    ensures
        r@ == bytes_held(*b),
{
    &b[..]
}

/// Relies on `bytes::Buf::advance` for `BytesMut`: it drops `n` bytes from
/// the front, and panics only where fewer are held.
#[verifier::external_body]
fn buffer_advance(b: &mut bytes::BytesMut, n: usize)
    requires
        n <= bytes_held(*old(b)).len(),
    ensures
        bytes_held(*final(b)) == bytes_held(*old(b)).skip(n as int),
{
    bytes::Buf::advance(b, n)
}

/// What the front of the read buffer holds.
pub enum FrameView {
    /// Not yet a whole frame.
    Incomplete,
    /// A liveness probe.
    Probe,
    /// A frame with this payload.
    Payload(Seq<u8>),
    /// A zero-length frame whose sentinel is not zero.
    Malformed,
}

/// The frame at the front of `buf`, and how many bytes it takes (zero where
/// nothing is taken).
pub open spec fn parse_frame(buf: Seq<u8>) -> (FrameView, nat) {
    if buf.len() < 4 {
        (FrameView::Incomplete, 0)
    } else {
        let n = le_value(buf.subrange(0, 4));
        if n == 0 {
            if buf.len() < 5 {
                (FrameView::Incomplete, 0)
            } else if buf[4] == 0 {
                (FrameView::Probe, 5)
            } else {
                (FrameView::Malformed, 0)
            }
        } else if buf.len() < 4 + n {
            (FrameView::Incomplete, 0)
        } else {
            (FrameView::Payload(buf.subrange(4, 4 + n as int)), 4 + n)
        }
    }
}

/// A frame taken from the front of the read buffer.
#[derive(Debug)]
pub enum Frame {
    Incomplete,
    Probe,
    Payload(Vec<u8>),
    Malformed,
}

impl View for Frame {
    type V = FrameView;

    open spec fn view(&self) -> FrameView {
        match self {
            Frame::Incomplete => FrameView::Incomplete,
            Frame::Probe => FrameView::Probe,
            Frame::Payload(p) => FrameView::Payload(p@),
            Frame::Malformed => FrameView::Malformed,
        }
    }
}

/// The outcome of one read attempt that did not fail.
#[derive(Debug)]
pub enum Received<T> {
    /// The buffer does not yet hold a whole frame: read more bytes.
    Pending,
    /// A liveness probe was read: there is no message this time.
    NoMessage,
    /// A message was read.
    Message(T),
}

/// The accumulation buffer of one connection's reading side. Bytes that
/// arrive are appended; whole frames are taken from the front. Bytes of a
/// partial frame stay buffered between read attempts.
pub struct FrameReader {
    buffer: bytes::BytesMut,
}

impl View for FrameReader {
    type V = Seq<u8>;

    closed spec fn view(&self) -> Seq<u8> {
        bytes_held(self.buffer)
    }
}

impl FrameReader {
    /// A reader with an empty buffer.
    pub fn new() -> (r: FrameReader)
        ensures
            r@ == Seq::<u8>::empty(),
    {
        FrameReader { buffer: buffer_new() }
    }

    /// Appends bytes read from the stream.
    pub fn feed(&mut self, chunk: &[u8])
        requires
            old(self)@.len() + chunk@.len() <= isize::MAX,
        ensures
            final(self)@ == old(self)@ + chunk@,
    {
        buffer_extend(&mut self.buffer, chunk);
    }

    /// The number of bytes buffered.
    pub fn buffered_len(&self) -> (r: usize)
        ensures
            r == self@.len(),
    {
        buffer_bytes(&self.buffer).len()
    }

    /// Takes the frame at the front of the buffer, if a whole one is there.
    pub fn next_frame(&mut self) -> (r: Frame)
        ensures
            r@ == parse_frame(old(self)@).0,
            final(self)@ == old(self)@.skip(parse_frame(old(self)@).1 as int),
    {
        let bytes = buffer_bytes(&self.buffer);
        let len = bytes.len();
        if len < 4 {
            assert(old(self)@.skip(0) =~= old(self)@);
            return Frame::Incomplete;
        }
        let n = u32_from_le(bytes);
        if n == 0 {
            if len < 5 {
                assert(old(self)@.skip(0) =~= old(self)@);
                Frame::Incomplete
            } else if bytes[4] == 0 {
                buffer_advance(&mut self.buffer, 5);
                Frame::Probe
            } else {
                assert(old(self)@.skip(0) =~= old(self)@);
                Frame::Malformed
            }
        } else if len - 4 < n as usize {
            assert(old(self)@.skip(0) =~= old(self)@);
            Frame::Incomplete
        } else {
            let end = 4 + n as usize;
            let payload = slice_to_vec(slice_subrange(bytes, 4, end));
            buffer_advance(&mut self.buffer, end);
            Frame::Payload(payload)
        }
    }

    /// Whether the stream may end here: only where no partial frame is
    /// buffered. Otherwise the peer went away in the middle of a frame.
    pub fn end_of_stream(&self) -> (r: Result<(), TransportError>)
        ensures
            match r {
                Ok(()) => self@.len() == 0,
                Err(e) => self@.len() > 0 && e == TransportError::ConnectionReset,
            },
    {
        if self.buffered_len() == 0 {
            Ok(())
        } else {
            Err(TransportError::ConnectionReset)
        }
    }

    /// One read attempt for an event (the plugin's side).
    pub fn poll_event(&mut self) -> (r: Result<Received<PluginEvent>, TransportError>)
        ensures
            final(self)@ == old(self)@.skip(parse_frame(old(self)@).1 as int),
            match parse_frame(old(self)@).0 {
                FrameView::Incomplete => r matches Ok(Received::Pending),
                FrameView::Probe => r matches Ok(Received::NoMessage),
                FrameView::Malformed => r == Err::<Received<PluginEvent>, TransportError>(
                    TransportError::FramingError,
                ),
                FrameView::Payload(p) => match event_of_payload(p) {
                    Ok(m) => r matches Ok(Received::Message(e)) && e@ == m,
                    Err(x) => r == Err::<Received<PluginEvent>, TransportError>(x),
                },
            },
    {
        match self.next_frame() {
            Frame::Incomplete => Ok(Received::Pending),
            Frame::Probe => Ok(Received::NoMessage),
            Frame::Malformed => Err(TransportError::FramingError),
            Frame::Payload(p) => match PluginEvent::decode(p.as_slice()) {
                Ok(e) => Ok(Received::Message(e)),
                Err(x) => Err(x),
            },
        }
    }

    /// One read attempt for a request (the host's side).
    pub fn poll_request(&mut self) -> (r: Result<Received<PluginRequest>, TransportError>)
        ensures
            final(self)@ == old(self)@.skip(parse_frame(old(self)@).1 as int),
            match parse_frame(old(self)@).0 {
                FrameView::Incomplete => r matches Ok(Received::Pending),
                FrameView::Probe => r matches Ok(Received::NoMessage),
                FrameView::Malformed => r == Err::<Received<PluginRequest>, TransportError>(
                    TransportError::FramingError,
                ),
                FrameView::Payload(p) => match request_of_payload(p) {
                    Ok(m) => r matches Ok(Received::Message(q)) && q@ == m,
                    Err(x) => r == Err::<Received<PluginRequest>, TransportError>(x),
                },
            },
    {
        match self.next_frame() {
            Frame::Incomplete => Ok(Received::Pending),
            Frame::Probe => Ok(Received::NoMessage),
            Frame::Malformed => Err(TransportError::FramingError),
            Frame::Payload(p) => match PluginRequest::decode(p.as_slice()) {
                Ok(q) => Ok(Received::Message(q)),
                Err(x) => Err(x),
            },
        }
    }
}

/// The payloads of the whole frames at the front of `buf`, read one after
/// the other (probes give none), and the bytes that stay buffered once no
/// whole frame is left at the front, or a malformed one is.
pub open spec fn drain(buf: Seq<u8>) -> (Seq<Seq<u8>>, Seq<u8>)
    decreases buf.len(),
{
    let (f, used) = parse_frame(buf);
    match f {
        FrameView::Probe => drain(buf.skip(5)),
        FrameView::Payload(p) => if 0 < used <= buf.len() {
            let (ms, rest) = drain(buf.skip(used as int));
            (seq![p] + ms, rest)
        } else {
            (Seq::empty(), buf)
        },
        _ => (Seq::empty(), buf),
    }
}

/// A reader fed `chunks` one after the other, starting from `buf`, that
/// takes every whole frame after each chunk: the payloads, and what stays.
pub open spec fn read_chunks(buf: Seq<u8>, chunks: Seq<Seq<u8>>) -> (Seq<Seq<u8>>, Seq<u8>)
    decreases chunks.len(),
{
    if chunks.len() == 0 {
        (Seq::empty(), buf)
    } else {
        let (ms, rest) = drain(buf + chunks[0]);
        let (more, left) = read_chunks(rest, chunks.drop_first());
        (ms + more, left)
    }
}

/// The chunks joined in order.
pub open spec fn concat(chunks: Seq<Seq<u8>>) -> Seq<u8>
    decreases chunks.len(),
{
    if chunks.len() == 0 {
        Seq::empty()
    } else {
        chunks[0] + concat(chunks.drop_first())
    }
}

/// A frame at the front stays the same frame whatever arrives after it.
pub proof fn lemma_parse_frame_prefix(x: Seq<u8>, y: Seq<u8>)
    requires
        !(parse_frame(x).0 is Incomplete),
    ensures
        parse_frame(x + y) == parse_frame(x),
        parse_frame(x).1 <= x.len(),
        (x + y).skip(parse_frame(x).1 as int) == x.skip(parse_frame(x).1 as int) + y,
{
    let xy = x + y;
    assert(xy.subrange(0, 4) =~= x.subrange(0, 4));
    let n = le_value(x.subrange(0, 4));
    if n != 0 {
        assert(xy.subrange(4, 4 + n as int) =~= x.subrange(4, 4 + n as int));
    }
    let u = parse_frame(x).1 as int;
    assert(xy.skip(u) =~= x.skip(u) + y);
}

/// Reading `x` and then `y` gives the payloads of reading `x`, then those of
/// reading what stayed of `x` followed by `y`.
pub proof fn lemma_drain_append(x: Seq<u8>, y: Seq<u8>)
    ensures
        drain(x + y) == ({
            let (m1, r1) = drain(x);
            let (m2, r2) = drain(r1 + y);
            (m1 + m2, r2)
        }),
    decreases x.len(),
{
    let (f, used) = parse_frame(x);
    match f {
        FrameView::Incomplete => {
            assert(Seq::<Seq<u8>>::empty() + drain(x + y).0 =~= drain(x + y).0);
        },
        FrameView::Malformed => {
            lemma_parse_frame_prefix(x, y);
            assert(Seq::<Seq<u8>>::empty() + drain(x + y).0 =~= drain(x + y).0);
        },
        FrameView::Probe => {
            lemma_parse_frame_prefix(x, y);
            lemma_drain_append(x.skip(5), y);
        },
        FrameView::Payload(p) => {
            lemma_parse_frame_prefix(x, y);
            if 0 < used {
                lemma_drain_append(x.skip(used as int), y);
                let (m1, r1) = drain(x.skip(used as int));
                let (m2, r2) = drain(r1 + y);
                assert(seq![p] + (m1 + m2) =~= (seq![p] + m1) + m2);
            } else {
                assert(Seq::<Seq<u8>>::empty() + drain(x + y).0 =~= drain(x + y).0);
            }
        },
    }
}

/// However the incoming bytes are split into chunks, a reader whose buffer
/// holds no whole frame reports the same payloads, and keeps the same bytes,
/// as when they arrive in one piece.
pub proof fn lemma_chunking_irrelevant(buf: Seq<u8>, chunks: Seq<Seq<u8>>)
    requires
        drain(buf) == (Seq::<Seq<u8>>::empty(), buf),
    ensures
        read_chunks(buf, chunks) == drain(buf + concat(chunks)),
    decreases chunks.len(),
{
    if chunks.len() == 0 {
        assert(buf + concat(chunks) =~= buf);
    } else {
        let c = chunks[0];
        let tail = chunks.drop_first();
        lemma_drain_append(buf + c, concat(tail));
        let (ms, rest) = drain(buf + c);
        lemma_drain_idempotent(buf + c);
        lemma_chunking_irrelevant(rest, tail);
        assert(buf + concat(chunks) =~= (buf + c) + concat(tail));
    }
}

/// Reading stops where no whole frame is left: reading that rest again
/// reports nothing and keeps it.
pub proof fn lemma_drain_idempotent(buf: Seq<u8>)
    ensures
        drain(drain(buf).1) == (Seq::<Seq<u8>>::empty(), drain(buf).1),
    decreases buf.len(),
{
    let (f, used) = parse_frame(buf);
    match f {
        FrameView::Probe => lemma_drain_idempotent(buf.skip(5)),
        FrameView::Payload(p) => if 0 < used <= buf.len() {
            lemma_drain_idempotent(buf.skip(used as int));
        },
        _ => {},
    }
}

/// Whether a frame can carry `p`: it is not empty (length zero marks a
/// probe) and its length fits the length field.
pub open spec fn frameable(p: Seq<u8>) -> bool {
    1 <= p.len() <= MAX_PAYLOAD
}

/// A frame in front of anything is read as that frame.
pub proof fn lemma_parse_frame_bytes(p: Seq<u8>, rest: Seq<u8>)
    requires
        frameable(p),
    ensures
        parse_frame(frame_bytes(p) + rest) == (FrameView::Payload(p), (4 + p.len()) as nat),
        (frame_bytes(p) + rest).skip(4 + p.len() as int) == rest,
{
    reveal_with_fuel(pow256, 5);
    lemma_le_round_trip(p.len(), 4);
    let s = frame_bytes(p) + rest;
    assert(s.subrange(0, 4) =~= le_bytes(p.len(), 4));
    assert(s.subrange(4, 4 + p.len() as int) =~= p);
    assert(s.skip(4 + p.len() as int) =~= rest);
}

/// A probe in front of anything is read as a probe.
pub proof fn lemma_parse_probe(rest: Seq<u8>)
    ensures
        parse_frame(probe_bytes() + rest) == (FrameView::Probe, 5nat),
        (probe_bytes() + rest).skip(5) == rest,
{
    let s = probe_bytes() + rest;
    reveal_with_fuel(le_value, 5);
    assert(s.subrange(0, 4) =~= seq![0u8, 0u8, 0u8, 0u8]);
    assert(seq![0u8, 0u8, 0u8, 0u8].drop_first() =~= seq![0u8, 0u8, 0u8]);
    assert(seq![0u8, 0u8, 0u8].drop_first() =~= seq![0u8, 0u8]);
    assert(seq![0u8, 0u8].drop_first() =~= seq![0u8]);
    assert(seq![0u8].drop_first() =~= Seq::<u8>::empty());
    assert(s.skip(5) =~= rest);
}

/// The bytes of one item of a stream: a probe, or a frame.
pub open spec fn item_bytes(item: Option<Seq<u8>>) -> Seq<u8> {
    match item {
        None => probe_bytes(),
        Some(p) => frame_bytes(p),
    }
}

/// The bytes of a stream of frames, where `None` stands for a liveness probe
/// and `Some(p)` for a frame that carries `p`.
pub open spec fn stream_bytes(items: Seq<Option<Seq<u8>>>) -> Seq<u8>
    decreases items.len(),
{
    if items.len() == 0 {
        Seq::empty()
    } else {
        item_bytes(items[0]) + stream_bytes(items.drop_first())
    }
}

/// The payloads of the real frames of a stream, in order.
pub open spec fn real_payloads(items: Seq<Option<Seq<u8>>>) -> Seq<Seq<u8>>
    decreases items.len(),
{
    if items.len() == 0 {
        Seq::empty()
    } else {
        match items[0] {
            None => real_payloads(items.drop_first()),
            Some(p) => seq![p] + real_payloads(items.drop_first()),
        }
    }
}

/// The same stream with its probes taken out.
pub open spec fn without_probes(items: Seq<Option<Seq<u8>>>) -> Seq<Option<Seq<u8>>>
    decreases items.len(),
{
    if items.len() == 0 {
        Seq::empty()
    } else {
        match items[0] {
            None => without_probes(items.drop_first()),
            Some(p) => seq![Some(p)] + without_probes(items.drop_first()),
        }
    }
}

/// Whether every real frame of a stream carries a frameable payload.
pub open spec fn all_frameable(items: Seq<Option<Seq<u8>>>) -> bool {
    forall|i: int| 0 <= i < items.len() && items[i] is Some ==> frameable(#[trigger] items[i]->Some_0)
}

proof fn lemma_read_stream(items: Seq<Option<Seq<u8>>>)
    requires
        all_frameable(items),
    ensures
        drain(stream_bytes(items)) == (real_payloads(items), Seq::<u8>::empty()),
    decreases items.len(),
{
    if items.len() > 0 {
        let rest = items.drop_first();
        assert(all_frameable(rest)) by {
            assert forall|i: int| 0 <= i < rest.len() && rest[i] is Some implies frameable(
                #[trigger] rest[i]->Some_0,
            ) by {
                assert(rest[i] == items[i + 1]);
            }
        }
        lemma_read_stream(rest);
        match items[0] {
            None => lemma_parse_probe(stream_bytes(rest)),
            Some(p) => {
                assert(items[0] is Some);
                lemma_parse_frame_bytes(p, stream_bytes(rest));
            },
        }
    }
}

proof fn lemma_without_probes(items: Seq<Option<Seq<u8>>>)
    requires
        all_frameable(items),
    ensures
        all_frameable(without_probes(items)),
        real_payloads(without_probes(items)) == real_payloads(items),
    decreases items.len(),
{
    if items.len() > 0 {
        let rest = items.drop_first();
        assert(all_frameable(rest)) by {
            assert forall|i: int| 0 <= i < rest.len() && rest[i] is Some implies frameable(
                #[trigger] rest[i]->Some_0,
            ) by {
                assert(rest[i] == items[i + 1]);
            }
        }
        lemma_without_probes(rest);
        match items[0] {
            None => {},
            Some(p) => {
                assert(items[0] is Some);
                let w = seq![Some(p)] + without_probes(rest);
                assert(w.drop_first() =~= without_probes(rest));
                assert forall|i: int| 0 <= i < w.len() && w[i] is Some implies frameable(
                    #[trigger] w[i]->Some_0,
                ) by {
                    if i > 0 {
                        assert(w[i] == without_probes(rest)[i - 1]);
                    }
                }
            },
        }
    }
}

/// Liveness probes interleaved with frames change nothing of what is read:
/// the reader reports exactly the real payloads, in order, the same as from
/// the stream without the probes, and keeps nothing back.
pub proof fn lemma_probes_transparent(items: Seq<Option<Seq<u8>>>)
    requires
        all_frameable(items),
    ensures
        drain(stream_bytes(items)) == (real_payloads(items), Seq::<u8>::empty()),
        drain(stream_bytes(items)) == drain(stream_bytes(without_probes(items))),
{
    lemma_read_stream(items);
    lemma_without_probes(items);
    lemma_read_stream(without_probes(items));
}

/// A framed event reads back as one frame that decodes to that event, for
/// every variant.
pub proof fn lemma_event_frame_round_trip(e: EventView)
    requires
        event_fits(e),
        event_payload(e).len() <= MAX_PAYLOAD,
    ensures
        parse_frame(frame_bytes(event_payload(e))) == (
            FrameView::Payload(event_payload(e)),
            frame_bytes(event_payload(e)).len(),
        ),
        event_of_payload(event_payload(e)) == Ok::<EventView, TransportError>(e),
{
    let p = event_payload(e);
    lemma_payload_not_empty(e, RequestView::View(Seq::empty()));
    lemma_parse_frame_bytes(p, Seq::empty());
    lemma_le_bytes_len(p.len(), 4);
    assert(frame_bytes(p) + Seq::<u8>::empty() =~= frame_bytes(p));
    lemma_event_round_trip(e);
}

/// A framed request reads back as one frame that decodes to that request,
/// for every variant.
pub proof fn lemma_request_frame_round_trip(r: RequestView)
    requires
        request_fits(r),
        request_payload(r).len() <= MAX_PAYLOAD,
    ensures
        parse_frame(frame_bytes(request_payload(r))) == (
            FrameView::Payload(request_payload(r)),
            frame_bytes(request_payload(r)).len(),
        ),
        request_of_payload(request_payload(r)) == Ok::<RequestView, TransportError>(r),
{
    let p = request_payload(r);
    lemma_payload_not_empty(EventView::Update, r);
    lemma_parse_frame_bytes(p, Seq::empty());
    lemma_le_bytes_len(p.len(), 4);
    assert(frame_bytes(p) + Seq::<u8>::empty() =~= frame_bytes(p));
    lemma_request_round_trip(r);
}

} // verus!
