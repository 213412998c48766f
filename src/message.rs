//! The messages that host and plugin exchange, and their payload encoding.
//!
//! A payload starts with the variant's index as a variable-length integer.
//! Opaque bytes (`Message`) follow as a variable-length count and the bytes.
//! A view artifact or a theme snapshot, already encoded by the UI layer, takes
//! the rest of the payload.
use vstd::prelude::*;
use vstd::slice::{slice_subrange, slice_to_vec};
use crate::codec::{
    decode_varint, encode_varint, lemma_varint_len, lemma_varint_round_trip, varint, varint_prefix,
};
use crate::connection::TransportError;

verus! {

/// What the host sends to a plugin.
#[derive(Debug, Clone, PartialEq, Eq)]
pub enum PluginEvent {
    /// The plugin is asked to compute its view again.
    Update,
    /// Encoded input for the plugin's own application logic.
    Message(Vec<u8>),
    /// A snapshot of the host's theme, encoded by the UI layer.
    Theme(Vec<u8>),
}

/// What a plugin sends to the host.
#[derive(Debug, Clone, PartialEq, Eq)]
pub enum PluginRequest {
    /// A view artifact, encoded by the UI layer, that replaces the last one.
    View(Vec<u8>),
    /// Encoded input for the host's application logic.
    Message(Vec<u8>),
}

/// The mathematical content of a `PluginEvent`.
pub enum EventView {
    Update,
    Message(Seq<u8>),
    Theme(Seq<u8>),
}

/// The mathematical content of a `PluginRequest`.
pub enum RequestView {
    View(Seq<u8>),
    Message(Seq<u8>),
}

impl View for PluginEvent {
    type V = EventView;

    open spec fn view(&self) -> EventView {
        match self {
            PluginEvent::Update => EventView::Update,
            PluginEvent::Message(b) => EventView::Message(b@),
            PluginEvent::Theme(t) => EventView::Theme(t@),
        }
    }
}

impl View for PluginRequest {
    type V = RequestView;

    open spec fn view(&self) -> RequestView {
        match self {
            PluginRequest::View(v) => RequestView::View(v@),
            PluginRequest::Message(b) => RequestView::Message(b@),
        }
    }
}

/// Opaque bytes as a field: their count, then the bytes.
pub open spec fn bytes_field(b: Seq<u8>) -> Seq<u8> {
    varint(b.len() as u64) + b
}

/// Reads a `bytes_field` from the front of `s`: the bytes and how many bytes
/// of `s` they took.
pub open spec fn bytes_field_prefix(s: Seq<u8>) -> Option<(Seq<u8>, nat)> {
    match varint_prefix(s) {
        Some((n, k)) => if k + n <= s.len() {
            Some((s.subrange(k as int, k + n), (k + n) as nat))
        } else {
            None
        },
        None => None,
    }
}

/// A field of opaque bytes that must end the payload.
pub open spec fn last_bytes_field(s: Seq<u8>) -> Result<Seq<u8>, TransportError> {
    match bytes_field_prefix(s) {
        Some((b, used)) => if used == s.len() {
            Ok(b)
        } else {
            Err(TransportError::FramingError)
        },
        None => Err(TransportError::DecodeError),
    }
}

/// Whether every byte count in `e` fits the encoding's 64-bit count.
pub open spec fn event_fits(e: EventView) -> bool {
    match e {
        EventView::Message(b) => b.len() <= u64::MAX,
        _ => true,
    }
}

/// Whether every byte count in `r` fits the encoding's 64-bit count.
pub open spec fn request_fits(r: RequestView) -> bool {
    match r {
        RequestView::Message(b) => b.len() <= u64::MAX,
        _ => true,
    }
}

/// The payload that encodes an event.
pub open spec fn event_payload(e: EventView) -> Seq<u8> {
    match e {
        EventView::Update => varint(0),
        EventView::Message(b) => varint(1) + bytes_field(b),
        EventView::Theme(t) => varint(2) + t,
    }
}

/// The payload that encodes a request.
pub open spec fn request_payload(r: RequestView) -> Seq<u8> {
    match r {
        RequestView::View(v) => varint(0) + v,
        RequestView::Message(b) => varint(1) + bytes_field(b),
    }
}

/// The event that a payload encodes, or why it encodes none: `DecodeError`
/// where its shape is wrong, `FramingError` where bytes are left over.
pub open spec fn event_of_payload(p: Seq<u8>) -> Result<EventView, TransportError> {
    match varint_prefix(p) {
        Some((tag, k)) => {
            let body = p.skip(k as int);
            if tag == 0 {
                if body.len() == 0 {
                    Ok(EventView::Update)
                } else {
                    Err(TransportError::FramingError)
                }
            } else if tag == 1 {
                match last_bytes_field(body) {
                    Ok(b) => Ok(EventView::Message(b)),
                    Err(e) => Err(e),
                }
            } else if tag == 2 {
                Ok(EventView::Theme(body))
            } else {
                Err(TransportError::DecodeError)
            }
        },
        None => Err(TransportError::DecodeError),
    }
}

/// The request that a payload encodes, or why it encodes none.
pub open spec fn request_of_payload(p: Seq<u8>) -> Result<RequestView, TransportError> {
    match varint_prefix(p) {
        Some((tag, k)) => {
            let body = p.skip(k as int);
            if tag == 0 {
                Ok(RequestView::View(body))
            } else if tag == 1 {
                match last_bytes_field(body) {
                    Ok(b) => Ok(RequestView::Message(b)),
                    Err(e) => Err(e),
                }
            } else {
                Err(TransportError::DecodeError)
            }
        },
        None => Err(TransportError::DecodeError),
    }
}

/// Appends `src` to `dst`.
fn append(dst: &mut Vec<u8>, src: &[u8])
    ensures
        final(dst)@ == old(dst)@ + src@,
{
    let mut i: usize = 0;
    while i < src.len()
        invariant
            i <= src@.len(),
            dst@ == old(dst)@ + src@.subrange(0, i as int),
        decreases src@.len() - i,
    {
        dst.push(src[i]);
        i = i + 1;
        assert(dst@ =~= old(dst)@ + src@.subrange(0, i as int));
    }
    assert(src@.subrange(0, i as int) =~= src@);
}

/// Encodes opaque bytes as a field.
fn encode_bytes_field(b: &[u8]) -> (r: Vec<u8>)
    ensures
        r@ == bytes_field(b@),
{
    let mut r = encode_varint(b.len() as u64);
    append(&mut r, b);
    r
}

/// Reads a field of opaque bytes that must end `s`.
fn decode_last_bytes_field(s: &[u8]) -> (r: Result<Vec<u8>, TransportError>)
    ensures
        match r {
            Ok(b) => last_bytes_field(s@) == Ok::<Seq<u8>, TransportError>(b@),
            Err(e) => last_bytes_field(s@) == Err::<Seq<u8>, TransportError>(e),
        },
{
    match decode_varint(s) {
        Err(_) => Err(TransportError::DecodeError),
        Ok((n, k)) => {
            if n > (s.len() - k) as u64 {
                Err(TransportError::DecodeError)
            } else {
                let end = k + n as usize;
                if end != s.len() {
                    Err(TransportError::FramingError)
                } else {
                    let b = slice_to_vec(slice_subrange(s, k, end));
                    Ok(b)
                }
            }
        },
    }
}

impl PluginEvent {
    /// The payload that carries this event.
    pub fn encode(&self) -> (r: Vec<u8>)
        ensures
            r@ == event_payload(self@),
    {
        match self {
            PluginEvent::Update => encode_varint(0),
            PluginEvent::Message(b) => {
                let mut r = encode_varint(1);
                let field = encode_bytes_field(b.as_slice());
                append(&mut r, field.as_slice());
                r
            },
            PluginEvent::Theme(t) => {
                let mut r = encode_varint(2);
                append(&mut r, t.as_slice());
                r
            },
        }
    }

    /// The event that `payload` carries.
    pub fn decode(payload: &[u8]) -> (r: Result<PluginEvent, TransportError>)
        ensures
            match r {
                Ok(e) => event_of_payload(payload@) == Ok::<EventView, TransportError>(e@),
                Err(x) => event_of_payload(payload@) == Err::<EventView, TransportError>(x),
            },
    {
        match decode_varint(payload) {
            Err(_) => Err(TransportError::DecodeError),
            Ok((tag, k)) => {
                let body = slice_subrange(payload, k, payload.len());
                assert(body@ =~= payload@.skip(k as int));
                if tag == 0 {
                    if body.len() == 0 {
                        Ok(PluginEvent::Update)
                    } else {
                        Err(TransportError::FramingError)
                    }
                } else if tag == 1 {
                    match decode_last_bytes_field(body) {
                        Ok(b) => Ok(PluginEvent::Message(b)),
                        Err(e) => Err(e),
                    }
                } else if tag == 2 {
                    Ok(PluginEvent::Theme(slice_to_vec(body)))
                } else {
                    Err(TransportError::DecodeError)
                }
            },
        }
    }
}

impl PluginRequest {
    /// The payload that carries this request.
    pub fn encode(&self) -> (r: Vec<u8>)
        ensures
            r@ == request_payload(self@),
    {
        match self {
            PluginRequest::View(v) => {
                let mut r = encode_varint(0);
                append(&mut r, v.as_slice());
                r
            },
            PluginRequest::Message(b) => {
                let mut r = encode_varint(1);
                let field = encode_bytes_field(b.as_slice());
                append(&mut r, field.as_slice());
                r
            },
        }
    }

    /// The request that `payload` carries.
    pub fn decode(payload: &[u8]) -> (r: Result<PluginRequest, TransportError>)
        ensures
            match r {
                Ok(q) => request_of_payload(payload@) == Ok::<RequestView, TransportError>(q@),
                Err(x) => request_of_payload(payload@) == Err::<RequestView, TransportError>(x),
            },
    {
        match decode_varint(payload) {
            Err(_) => Err(TransportError::DecodeError),
            Ok((tag, k)) => {
                let body = slice_subrange(payload, k, payload.len());
                assert(body@ =~= payload@.skip(k as int));
                if tag == 0 {
                    Ok(PluginRequest::View(slice_to_vec(body)))
                } else if tag == 1 {
                    match decode_last_bytes_field(body) {
                        Ok(b) => Ok(PluginRequest::Message(b)),
                        Err(e) => Err(e),
                    }
                } else {
                    Err(TransportError::DecodeError)
                }
            },
        }
    }
}

proof fn lemma_bytes_field_round_trip(b: Seq<u8>)
    requires
        b.len() <= u64::MAX,
    ensures
        last_bytes_field(bytes_field(b)) == Ok::<Seq<u8>, TransportError>(b),
{
    let n = b.len() as u64;
    lemma_varint_round_trip(n, b);
    let s = bytes_field(b);
    let k = varint(n).len();
    assert(s.subrange(k as int, k + n) =~= b);
}

/// Decoding the payload of an event gives back that event, for every variant.
pub proof fn lemma_event_round_trip(e: EventView)
    requires
        event_fits(e),
    ensures
        event_of_payload(event_payload(e)) == Ok::<EventView, TransportError>(e),
{
    let p = event_payload(e);
    match e {
        EventView::Update => {
            lemma_varint_round_trip(0, Seq::empty());
            assert(varint(0) + Seq::<u8>::empty() =~= varint(0));
        },
        EventView::Message(b) => {
            lemma_varint_round_trip(1, bytes_field(b));
            assert(p.skip(varint(1).len() as int) =~= bytes_field(b));
            lemma_bytes_field_round_trip(b);
        },
        EventView::Theme(t) => {
            lemma_varint_round_trip(2, t);
            assert(p.skip(varint(2).len() as int) =~= t);
        },
    }
}

/// Decoding the payload of a request gives back that request, for every variant.
pub proof fn lemma_request_round_trip(r: RequestView)
    requires
        request_fits(r),
    ensures
        request_of_payload(request_payload(r)) == Ok::<RequestView, TransportError>(r),
{
    let p = request_payload(r);
    match r {
        RequestView::View(v) => {
            lemma_varint_round_trip(0, v);
            assert(p.skip(varint(0).len() as int) =~= v);
        },
        RequestView::Message(b) => {
            lemma_varint_round_trip(1, bytes_field(b));
            assert(p.skip(varint(1).len() as int) =~= bytes_field(b));
            lemma_bytes_field_round_trip(b);
        },
    }
}

/// Every payload holds at least the variant's index.
pub proof fn lemma_payload_not_empty(e: EventView, r: RequestView)
    ensures
        event_payload(e).len() >= 1,
        request_payload(r).len() >= 1,
{
    lemma_varint_len(0);
    lemma_varint_len(1);
    lemma_varint_len(2);
}

} // verus!
