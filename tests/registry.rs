use plugin_transport::connection::encode_frame;
use plugin_transport::exchange::{Action, ExchangeLoop, IdAllocator, Outcome, Phase};
use plugin_transport::runtime::RegistryInvariantViolation;
use plugin_transport::{FrameReader, Plugin, PluginEvent, PluginRequest, PluginRuntime, Received, RuntimeMessage, TransportError};
use plugin_transport::widgets::serde_types::Id;
use tokio::sync::mpsc::{unbounded_channel, UnboundedReceiver};

fn plugin(id: usize) -> (Plugin, UnboundedReceiver<PluginEvent>) {
    let (sender, receiver) = unbounded_channel();
    (Plugin { id, sender, view: None }, receiver)
}

fn register(rt: &mut PluginRuntime, id: usize) -> UnboundedReceiver<PluginEvent> {
    let (p, rx) = plugin(id);
    rt.handle_plugin_message(RuntimeMessage::New(p, id), &[9, 9]).unwrap();
    rx
}

#[test]
fn zero_plugins_no_views() {
    let rt = PluginRuntime::new();
    assert!(rt.views().is_empty());
}

#[test]
fn registration_pushes_theme() {
    let mut rt = PluginRuntime::new();
    let mut rx = register(&mut rt, 3);
    assert_eq!(rx.try_recv().unwrap(), PluginEvent::Theme(vec![9, 9]));
    assert!(rt.views().is_empty());
}

#[test]
fn last_view_overwrites() {
    let mut rt = PluginRuntime::new();
    let _rx = register(&mut rt, 1);
    rt.handle_plugin_message(RuntimeMessage::Request(PluginRequest::View(vec![0xA]), 1), &[]).unwrap();
    rt.handle_plugin_message(RuntimeMessage::Request(PluginRequest::View(vec![0xB]), 1), &[]).unwrap();
    assert_eq!(rt.views(), vec![(1, vec![0xB])]);
}

#[test]
fn unregister_removes_view() {
    let mut rt = PluginRuntime::new();
    let _a = register(&mut rt, 1);
    let _b = register(&mut rt, 2);
    rt.handle_plugin_message(RuntimeMessage::Request(PluginRequest::View(vec![1]), 1), &[]).unwrap();
    rt.handle_plugin_message(RuntimeMessage::Request(PluginRequest::View(vec![2]), 2), &[]).unwrap();
    rt.handle_plugin_message(RuntimeMessage::Shutdown(1), &[]).unwrap();
    assert_eq!(rt.views(), vec![(2, vec![2])]);
    let stale = rt.handle_plugin_message(RuntimeMessage::Request(PluginRequest::View(vec![3]), 1), &[]);
    assert_eq!(stale, Err(RegistryInvariantViolation::UnknownId(1)));
    assert_eq!(rt.views(), vec![(2, vec![2])]);
    assert_eq!(rt.plugins.len(), 1);
}

#[test]
fn unknown_shutdown_reported() {
    let mut rt = PluginRuntime::new();
    assert_eq!(rt.handle_plugin_message(RuntimeMessage::Shutdown(4), &[]), Err(RegistryInvariantViolation::UnknownId(4)));
}

#[test]
fn double_registration_refused() {
    let mut rt = PluginRuntime::new();
    let _a = register(&mut rt, 5);
    let (p, mut rx) = plugin(5);
    let r = rt.handle_plugin_message(RuntimeMessage::New(p, 5), &[1]);
    assert_eq!(r, Err(RegistryInvariantViolation::AlreadyRegistered(5)));
    assert_eq!(rt.plugins.len(), 1);
    assert!(rx.try_recv().is_err());
}

#[test]
fn plugin_input_goes_back_to_that_plugin() {
    let mut rt = PluginRuntime::new();
    let mut a = register(&mut rt, 1);
    let mut b = register(&mut rt, 2);
    let _ = a.try_recv();
    let _ = b.try_recv();
    rt.handle_plugin_message(RuntimeMessage::Request(PluginRequest::Message(vec![7, 7, 7]), 2), &[]).unwrap();
    assert_eq!(b.try_recv().unwrap(), PluginEvent::Message(vec![7, 7, 7]));
    assert!(a.try_recv().is_err());
}

#[test]
fn apply_message_reports_delivery() {
    let mut rt = PluginRuntime::new();
    let (p, _rx) = plugin(0);
    let d = rt.apply_message(RuntimeMessage::New(p, 8), &[4, 2]).unwrap();
    assert_eq!(d, Some((8, PluginEvent::Theme(vec![4, 2]))));
    assert_eq!(rt.plugins[0].id, 8);
    let d = rt.apply_message(RuntimeMessage::Request(PluginRequest::Message(vec![1]), 8), &[]).unwrap();
    assert_eq!(d, Some((8, PluginEvent::Message(vec![1]))));
    let d = rt.apply_message(RuntimeMessage::Request(PluginRequest::View(vec![1]), 8), &[]).unwrap();
    assert_eq!(d, None);
}

#[test]
fn clean_frame_exchange() {
    // host side: plugin 7 is registered and asked to render
    let mut host = PluginRuntime::new();
    let _rx = register(&mut host, 7);
    let to_plugin = encode_frame(&PluginEvent::Update.encode()).unwrap();

    // plugin side: reads the request and answers with its view
    let mut plugin_reader = FrameReader::new();
    plugin_reader.feed(&to_plugin);
    let event = match plugin_reader.poll_event() {
        Ok(Received::Message(e)) => e,
        other => panic!("unexpected {:?}", other),
    };
    assert_eq!(event, PluginEvent::Update);
    let artifact = vec![0x58, 0x58, 0x58];
    let to_host = encode_frame(&PluginRequest::View(artifact.clone()).encode()).unwrap();

    // host side: reads the reply and hands it to the registry
    let mut host_reader = FrameReader::new();
    host_reader.feed(&to_host);
    let reply = match host_reader.poll_request() {
        Ok(Received::Message(r)) => r,
        other => panic!("unexpected {:?}", other),
    };
    host.handle_plugin_message(RuntimeMessage::Request(reply, 7), &[]).unwrap();
    assert_eq!(host.views(), vec![(7, artifact)]);
}

#[test]
fn ids_are_distinct() {
    let mut ids = IdAllocator::new();
    let got: Vec<usize> = (0..100).map(|_| ids.unique_id().unwrap()).collect();
    let expected: Vec<usize> = (0..100).collect();
    assert_eq!(got, expected);
}

#[test]
fn exchange_happy_path() {
    let mut lp = ExchangeLoop::new(7);
    assert!(matches!(lp.advance(Outcome::Started), Action::Announce(7)));
    assert!(matches!(lp.advance(Outcome::Announced), Action::Probe));
    assert!(matches!(lp.advance(Outcome::Liveness(true)), Action::AwaitOutbound));
    assert!(matches!(lp.advance(Outcome::Outbound(None)), Action::Probe));
    assert!(matches!(lp.advance(Outcome::Liveness(true)), Action::AwaitOutbound));
    match lp.advance(Outcome::Outbound(Some(PluginEvent::Update))) {
        Action::Write(e) => assert_eq!(e, PluginEvent::Update),
        other => panic!("unexpected {:?}", other),
    }
    assert!(matches!(lp.advance(Outcome::Written(Ok(()))), Action::ReadReply));
    match lp.advance(Outcome::Reply(Ok(Some(PluginRequest::View(vec![1]))))) {
        Action::Forward(r, 7) => assert_eq!(r, PluginRequest::View(vec![1])),
        other => panic!("unexpected {:?}", other),
    }
    assert!(matches!(lp.advance(Outcome::Forwarded), Action::Probe));
    assert_eq!(lp.phase, Phase::Probing);
}

#[test]
fn exchange_closes_on_dead_peer() {
    let mut lp = ExchangeLoop::new(3);
    lp.advance(Outcome::Started);
    lp.advance(Outcome::Announced);
    assert!(matches!(lp.advance(Outcome::Liveness(false)), Action::Unregister(3)));
    assert!(matches!(lp.advance(Outcome::Unregistered), Action::Finish));
    assert!(lp.is_finished());
    assert!(matches!(lp.advance(Outcome::Liveness(true)), Action::Finish));
}

#[test]
fn exchange_closes_on_failed_write_or_read() {
    let mut lp = ExchangeLoop::new(1);
    lp.advance(Outcome::Started);
    lp.advance(Outcome::Announced);
    lp.advance(Outcome::Liveness(true));
    lp.advance(Outcome::Outbound(Some(PluginEvent::Update)));
    assert!(matches!(lp.advance(Outcome::Written(Err(TransportError::IoError))), Action::Unregister(1)));

    let mut lp = ExchangeLoop::new(2);
    lp.advance(Outcome::Started);
    lp.advance(Outcome::Announced);
    lp.advance(Outcome::Liveness(true));
    lp.advance(Outcome::Outbound(Some(PluginEvent::Update)));
    lp.advance(Outcome::Written(Ok(())));
    assert!(matches!(lp.advance(Outcome::Reply(Err(TransportError::DecodeError))), Action::Unregister(2)));
    assert_eq!(lp.phase, Phase::Closing);
}

#[test]
fn exchange_no_reply_goes_back_to_probing() {
    let mut lp = ExchangeLoop::new(1);
    lp.advance(Outcome::Started);
    lp.advance(Outcome::Announced);
    lp.advance(Outcome::Liveness(true));
    lp.advance(Outcome::Outbound(Some(PluginEvent::Update)));
    lp.advance(Outcome::Written(Ok(())));
    assert!(matches!(lp.advance(Outcome::Reply(Ok(None))), Action::Probe));
}

#[test]
fn widget_ids() {
    assert_eq!(Id::new("main".to_string()), Id::Custom("main".to_string()));
    assert_eq!(Id::unique(), Id::Unique);
}

#[test]
fn exchange_closes_when_queue_dropped() {
    let mut lp = ExchangeLoop::new(4);
    lp.advance(Outcome::Started);
    lp.advance(Outcome::Announced);
    lp.advance(Outcome::Liveness(true));
    assert!(matches!(lp.advance(Outcome::OutboundClosed), Action::Unregister(4)));
    assert!(matches!(lp.advance(Outcome::Unregistered), Action::Finish));
    assert_eq!(lp.phase, Phase::Closed);
}

#[test]
fn exchange_not_started_ends_quietly() {
    let mut lp = ExchangeLoop::new(6);
    assert!(matches!(lp.advance(Outcome::Announced), Action::Finish));
    assert!(lp.is_finished());
}

#[test]
fn duplicate_ids_detected() {
    let mut rt = PluginRuntime::new();
    assert!(rt.ids_are_unique());
    let _a = register(&mut rt, 1);
    let _b = register(&mut rt, 2);
    assert!(rt.ids_are_unique());
    let (p, _rx) = plugin(1);
    rt.plugins.push(p);
    assert!(!rt.ids_are_unique());
}

#[test]
fn each_plugin_keeps_its_own_channel() {
    let mut rt = PluginRuntime::new();
    let mut a = register(&mut rt, 1);
    let mut b = register(&mut rt, 2);
    let mut c = register(&mut rt, 3);
    assert_eq!(a.try_recv().unwrap(), PluginEvent::Theme(vec![9, 9]));
    assert_eq!(b.try_recv().unwrap(), PluginEvent::Theme(vec![9, 9]));
    assert_eq!(c.try_recv().unwrap(), PluginEvent::Theme(vec![9, 9]));
    rt.handle_plugin_message(RuntimeMessage::Request(PluginRequest::View(vec![5]), 2), &[]).unwrap();
    rt.handle_plugin_message(RuntimeMessage::Shutdown(1), &[]).unwrap();
    rt.handle_plugin_message(RuntimeMessage::Request(PluginRequest::Message(vec![3]), 3), &[]).unwrap();
    rt.handle_plugin_message(RuntimeMessage::Request(PluginRequest::Message(vec![2]), 2), &[]).unwrap();
    assert_eq!(c.try_recv().unwrap(), PluginEvent::Message(vec![3]));
    assert_eq!(b.try_recv().unwrap(), PluginEvent::Message(vec![2]));
    assert!(b.try_recv().is_err());
    assert!(c.try_recv().is_err());
    assert!(rt.sender_of(1).is_none());
    assert!(rt.sender_of(2).unwrap().same_channel(&rt.plugins[0].sender));
    assert_eq!(rt.plugins.iter().map(|p| p.id).collect::<Vec<_>>(), vec![2, 3]);
}

#[test]
fn many_stale_requests_change_nothing() {
    let mut rt = PluginRuntime::new();
    let _a = register(&mut rt, 1);
    rt.handle_plugin_message(RuntimeMessage::Request(PluginRequest::View(vec![1]), 1), &[]).unwrap();
    rt.handle_plugin_message(RuntimeMessage::Shutdown(1), &[]).unwrap();
    for i in 0..5u8 {
        let late = if i % 2 == 0 { PluginRequest::View(vec![i]) } else { PluginRequest::Message(vec![i]) };
        assert_eq!(rt.handle_plugin_message(RuntimeMessage::Request(late, 1), &[]), Err(RegistryInvariantViolation::UnknownId(1)));
        assert!(rt.views().is_empty());
    }
    assert_eq!(rt.handle_plugin_message(RuntimeMessage::Shutdown(1), &[]), Err(RegistryInvariantViolation::UnknownId(1)));
}

#[test]
fn exchange_closes_when_bridge_gone() {
    let mut lp = ExchangeLoop::new(9);
    lp.advance(Outcome::Started);
    lp.advance(Outcome::Announced);
    lp.advance(Outcome::Liveness(true));
    lp.advance(Outcome::Outbound(Some(PluginEvent::Update)));
    lp.advance(Outcome::Written(Ok(())));
    lp.advance(Outcome::Reply(Ok(Some(PluginRequest::View(vec![1])))));
    assert!(matches!(lp.advance(Outcome::ForwardFailed), Action::Unregister(9)));
}
