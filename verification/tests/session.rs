use libp2p::{Multiaddr, PeerId};
use voice_chat::address::{dial_target, Dial};
use voice_chat::connection::{
    connection_handler, sender_outcome, Call, CallAction, ConnectionAction, ConnectionEvent,
};
use voice_chat::send::{PacketSender, SendAction, SendEvent};
use voice_chat::session::{NetAction, NetEvent, RelayLink, SendSlot};

fn peer(n: u8) -> PeerId {
    let mut bytes = vec![0x00, 0x24, 0x08, 0x01, 0x12, 0x20];
    bytes.extend_from_slice(&[n; 32]);
    PeerId::from_bytes(&bytes).unwrap()
}

fn address(text: &str) -> Multiaddr {
    text.parse().unwrap()
}

#[test]
fn source_goes_to_the_first_claim() {
    let mut slot = SendSlot::new("packets");
    assert_eq!(slot.claim(), Some("packets"));
    assert_eq!(slot.claim(), None);
    assert_eq!(slot.claim(), None);
}

#[test]
fn listening_is_reported_with_this_peer() {
    let mut link = RelayLink::new(peer(1), None);
    match link.step(NetEvent::Listening(address("/ip4/127.0.0.1/tcp/7"))) {
        NetAction::ReportListening(full) => {
            assert_eq!(full, address(&format!("/ip4/127.0.0.1/tcp/7/p2p/{}", peer(1))));
        }
        _ => panic!("nothing was reported"),
    }
    let foreign = address(&format!("/ip4/127.0.0.1/tcp/7/p2p/{}", peer(2)));
    assert!(matches!(link.step(NetEvent::Listening(foreign)), NetAction::ForeignAddress));
}

#[test]
fn circuit_is_requested_until_granted() {
    let relay = address(&format!("/ip4/9.9.9.9/tcp/4001/p2p/{}", peer(5)));
    let circuit = address(&format!("/ip4/9.9.9.9/tcp/4001/p2p/{}/p2p-circuit", peer(5)));
    let mut link = RelayLink::new(peer(1), Some(relay));
    for _ in 0..2 {
        match link.step(NetEvent::Connected(peer(5))) {
            NetAction::RequestCircuit(asked) => assert_eq!(asked, circuit),
            _ => panic!("no circuit was requested"),
        }
        assert!(matches!(link.step(NetEvent::CircuitRefused), NetAction::Nothing));
    }
    assert!(matches!(link.step(NetEvent::Connected(peer(5))), NetAction::RequestCircuit(_)));
    assert!(matches!(link.step(NetEvent::CircuitGranted), NetAction::Nothing));
    assert!(matches!(link.step(NetEvent::Connected(peer(5))), NetAction::ReportEvent));
    assert!(matches!(link.step(NetEvent::CircuitRefused), NetAction::Nothing));
    assert!(matches!(link.step(NetEvent::Connected(peer(6))), NetAction::ReportEvent));
}

#[test]
fn any_first_connection_counts_as_the_relay() {
    let mut link = RelayLink::new(peer(1), Some(address("/ip4/9.9.9.9/tcp/4001")));
    match link.step(NetEvent::Connected(peer(8))) {
        NetAction::RequestCircuit(asked) => {
            let circuit = format!("/ip4/9.9.9.9/tcp/4001/p2p/{}/p2p-circuit", peer(8));
            assert_eq!(asked, address(&circuit));
        }
        _ => panic!("no circuit was requested"),
    }
}

#[test]
fn without_relay_no_circuit_is_requested() {
    let mut link = RelayLink::new(peer(1), None);
    assert!(matches!(link.step(NetEvent::Connected(peer(5))), NetAction::Nothing));
    assert!(matches!(link.step(NetEvent::Connected(peer(6))), NetAction::Nothing));
}

#[test]
fn other_events_are_reported() {
    let mut link = RelayLink::new(peer(1), None);
    assert!(matches!(link.step(NetEvent::Identified), NetAction::ReportObserved));
    assert!(matches!(link.step(NetEvent::Other), NetAction::ReportEvent));
}

#[test]
fn connection_outcomes() {
    assert_eq!(connection_handler(ConnectionEvent::Opened), ConnectionAction::Send);
    assert_eq!(connection_handler(ConnectionEvent::Unsupported), ConnectionAction::Inform);
    assert_eq!(connection_handler(ConnectionEvent::OpenFailed), ConnectionAction::Trace);
    assert_eq!(connection_handler(ConnectionEvent::Sent), ConnectionAction::Complete);
    assert_eq!(connection_handler(ConnectionEvent::SendFailed), ConnectionAction::Warn);
}

#[test]
fn sender_outcomes() {
    assert_eq!(sender_outcome(&SendAction::Finish), Some(ConnectionEvent::Sent));
    assert_eq!(sender_outcome(&SendAction::Abort), Some(ConnectionEvent::SendFailed));
    assert_eq!(sender_outcome(&SendAction::Receive), None);
    assert_eq!(sender_outcome(&SendAction::Flush), None);
    assert_eq!(sender_outcome(&SendAction::Write(vec![1])), None);
}

#[test]
fn calls_need_a_stream() {
    assert!(matches!(Call::open(ConnectionEvent::Opened), Ok((_, SendAction::Receive))));
    assert!(matches!(
        Call::open(ConnectionEvent::Unsupported),
        Err(ConnectionAction::Inform)
    ));
    assert!(matches!(Call::open(ConnectionEvent::OpenFailed), Err(ConnectionAction::Trace)));
}

#[test]
fn call_does_what_its_sender_does() {
    let (mut call, _) = Call::open(ConnectionEvent::Opened).unwrap();
    let (mut sender, _) = PacketSender::start();
    for packet in [vec![7, 8, 9], vec![], vec![1; 300]] {
        for step in 0..4 {
            let event = || {
                if step == 0 {
                    SendEvent::Packet(packet.clone())
                } else {
                    SendEvent::Done
                }
            };
            let expected = format!("Go({:?})", sender.step(event()));
            assert_eq!(format!("{:?}", call.step(event())), expected);
        }
    }
    assert!(matches!(
        call.step(SendEvent::Closed),
        CallAction::Leave(ConnectionAction::Complete)
    ));
}

#[test]
fn failing_call_is_left_with_a_warning() {
    let (mut call, _) = Call::open(ConnectionEvent::Opened).unwrap();
    match call.step(SendEvent::Packet(vec![5])) {
        CallAction::Go(SendAction::Write(header)) => assert_eq!(header, vec![0, 1]),
        _ => panic!("no header"),
    }
    assert!(matches!(call.step(SendEvent::Failed), CallAction::Leave(ConnectionAction::Warn)));
}

#[test]
fn shown_address_can_be_dialled() {
    let mut link = RelayLink::new(peer(1), None);
    match link.step(NetEvent::Listening(address("/ip4/127.0.0.1/tcp/7"))) {
        NetAction::ReportListening(full) => {
            assert!(matches!(dial_target(full), Dial::Peer(_, at) if at == peer(1)));
        }
        _ => panic!("nothing was reported"),
    }
}
