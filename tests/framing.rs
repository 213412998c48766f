use plugin_transport::connection::{encode_frame, probe_frame, Frame};
use plugin_transport::{FrameReader, PluginEvent, PluginRequest, Received, TransportError};

fn framed_event(e: &PluginEvent) -> Vec<u8> {
    encode_frame(&e.encode()).unwrap()
}

fn framed_request(r: &PluginRequest) -> Vec<u8> {
    encode_frame(&r.encode()).unwrap()
}

fn read_one_event(bytes: &[u8]) -> Result<Received<PluginEvent>, TransportError> {
    let mut reader = FrameReader::new();
    reader.feed(bytes);
    reader.poll_event()
}

fn read_one_request(bytes: &[u8]) -> Result<Received<PluginRequest>, TransportError> {
    let mut reader = FrameReader::new();
    reader.feed(bytes);
    reader.poll_request()
}

#[test]
fn event_round_trip_every_variant() {
    let events = vec![
        PluginEvent::Update,
        PluginEvent::Message(vec![]),
        PluginEvent::Message(vec![9, 8, 7]),
        PluginEvent::Message((0..300u32).map(|i| (i % 256) as u8).collect()),
        PluginEvent::Theme(vec![1, 2, 3, 4, 5, 6]),
        PluginEvent::Theme(vec![]),
    ];
    for e in events {
        let frame = framed_event(&e);
        match read_one_event(&frame) {
            Ok(Received::Message(back)) => assert_eq!(back, e),
            other => panic!("unexpected {:?}", other),
        }
    }
}

#[test]
fn request_round_trip_every_variant() {
    let requests = vec![
        PluginRequest::View(vec![0xAA, 0xBB]),
        PluginRequest::View(vec![]),
        PluginRequest::Message(vec![]),
        PluginRequest::Message(vec![42; 70000]),
    ];
    for r in requests {
        let frame = framed_request(&r);
        match read_one_request(&frame) {
            Ok(Received::Message(back)) => assert_eq!(back, r),
            other => panic!("unexpected {:?}", other),
        }
    }
}

#[test]
fn message_payload_exact_bytes() {
    let e = PluginEvent::Message(vec![1, 2, 3]);
    assert_eq!(e.encode(), vec![1, 3, 1, 2, 3]);
    assert_eq!(framed_event(&e), vec![5, 0, 0, 0, 1, 3, 1, 2, 3]);
    assert_eq!(PluginEvent::Update.encode(), vec![0]);
    assert_eq!(PluginEvent::Theme(vec![7, 7]).encode(), vec![2, 7, 7]);
    assert_eq!(PluginRequest::View(vec![5]).encode(), vec![0, 5]);
}

#[test]
fn long_message_uses_wide_count() {
    let e = PluginEvent::Message(vec![0; 300]);
    let payload = e.encode();
    assert_eq!(&payload[..4], &[1, 251, 44, 1]);
    assert_eq!(payload.len(), 4 + 300);
    let frame = encode_frame(&payload).unwrap();
    assert_eq!(&frame[..4], &[0x30, 0x01, 0, 0]);
}

#[test]
fn chunked_feed_matches_whole_feed() {
    let e = PluginEvent::Message((0..40u8).collect());
    let frame = framed_event(&e);
    for cut_a in 0..frame.len() {
        for cut_b in cut_a..frame.len() {
            let mut reader = FrameReader::new();
            let mut got = Vec::new();
            for chunk in [&frame[..cut_a], &frame[cut_a..cut_b], &frame[cut_b..]] {
                reader.feed(chunk);
                loop {
                    match reader.poll_event().unwrap() {
                        Received::Pending => break,
                        Received::NoMessage => {}
                        Received::Message(m) => got.push(m),
                    }
                }
            }
            assert_eq!(got, vec![e.clone()]);
            assert_eq!(reader.buffered_len(), 0);
        }
    }
}

#[test]
fn byte_by_byte_feed_stays_pending_until_complete() {
    let r = PluginRequest::View(vec![3; 17]);
    let frame = framed_request(&r);
    let mut reader = FrameReader::new();
    for (i, b) in frame.iter().enumerate() {
        reader.feed(&[*b]);
        let got = reader.poll_request().unwrap();
        if i + 1 < frame.len() {
            assert!(matches!(got, Received::Pending));
        } else {
            match got {
                Received::Message(m) => assert_eq!(m, r),
                other => panic!("unexpected {:?}", other),
            }
        }
    }
}

fn real_messages(stream: &[u8]) -> Vec<PluginEvent> {
    let mut reader = FrameReader::new();
    reader.feed(stream);
    let mut out = Vec::new();
    loop {
        match reader.poll_event().unwrap() {
            Received::Pending => break,
            Received::NoMessage => {}
            Received::Message(m) => out.push(m),
        }
    }
    out
}

#[test]
fn probes_do_not_change_messages() {
    let a = PluginEvent::Update;
    let b = PluginEvent::Message(vec![4, 5]);
    let c = PluginEvent::Theme(vec![6]);
    let mut plain = Vec::new();
    let mut probed = Vec::new();
    probed.extend(probe_frame());
    for e in [&a, &b, &c] {
        plain.extend(framed_event(e));
        probed.extend(framed_event(e));
        probed.extend(probe_frame());
        probed.extend(probe_frame());
    }
    let expected = vec![a, b, c];
    assert_eq!(real_messages(&plain), expected);
    assert_eq!(real_messages(&probed), expected);
}

#[test]
fn probe_reads_as_no_message() {
    assert_eq!(probe_frame(), vec![0, 0, 0, 0, 0]);
    assert!(matches!(read_one_event(&probe_frame()), Ok(Received::NoMessage)));
    let mut reader = FrameReader::new();
    reader.feed(&probe_frame());
    assert!(matches!(reader.next_frame(), Frame::Probe));
    assert_eq!(reader.buffered_len(), 0);
}

#[test]
fn mid_frame_disconnect_is_connection_reset() {
    let mut reader = FrameReader::new();
    reader.feed(&[10, 0, 0, 0]);
    reader.feed(&[1, 2]);
    assert!(matches!(reader.poll_request(), Ok(Received::Pending)));
    assert_eq!(reader.end_of_stream(), Err(TransportError::ConnectionReset));
}

#[test]
fn malformed_length_never_hangs() {
    let mut reader = FrameReader::new();
    reader.feed(&[100, 0, 0, 0]);
    reader.feed(&[0u8; 40]);
    assert!(matches!(reader.poll_event(), Ok(Received::Pending)));
    assert_eq!(reader.end_of_stream(), Err(TransportError::ConnectionReset));
}

#[test]
fn clean_close_is_no_message() {
    let reader = FrameReader::new();
    assert_eq!(reader.end_of_stream(), Ok(()));
    let mut reader = FrameReader::new();
    reader.feed(&framed_event(&PluginEvent::Update));
    assert!(matches!(reader.poll_event(), Ok(Received::Message(PluginEvent::Update))));
    assert_eq!(reader.end_of_stream(), Ok(()));
}

#[test]
fn nonzero_sentinel_is_framing_error() {
    assert_eq!(read_one_event(&[0, 0, 0, 0, 1]).err(), Some(TransportError::FramingError));
}

#[test]
fn trailing_bytes_are_framing_error() {
    // a message of one byte, then a stray byte inside the declared length
    assert_eq!(read_one_event(&[4, 0, 0, 0, 1, 1, 5, 9]).err(), Some(TransportError::FramingError));
    assert_eq!(read_one_event(&[2, 0, 0, 0, 0, 0]).err(), Some(TransportError::FramingError));
}

#[test]
fn bad_payload_is_decode_error() {
    assert_eq!(read_one_event(&[1, 0, 0, 0, 7]).err(), Some(TransportError::DecodeError));
    assert_eq!(read_one_request(&[1, 0, 0, 0, 2]).err(), Some(TransportError::DecodeError));
    // a count larger than the bytes that follow
    assert_eq!(read_one_event(&[3, 0, 0, 0, 1, 9, 1]).err(), Some(TransportError::DecodeError));
    // a marker byte that no count can start with
    assert_eq!(read_one_request(&[2, 0, 0, 0, 1, 255]).err(), Some(TransportError::DecodeError));
}

#[test]
fn two_frames_in_one_feed() {
    let mut bytes = framed_request(&PluginRequest::Message(vec![1]));
    bytes.extend(framed_request(&PluginRequest::View(vec![2])));
    let mut reader = FrameReader::new();
    reader.feed(&bytes);
    assert!(matches!(reader.poll_request(), Ok(Received::Message(PluginRequest::Message(ref m))) if m == &vec![1]));
    assert!(matches!(reader.poll_request(), Ok(Received::Message(PluginRequest::View(ref v))) if v == &vec![2]));
    assert!(matches!(reader.poll_request(), Ok(Received::Pending)));
}
