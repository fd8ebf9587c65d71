use libp2p::multiaddr::Protocol;
use libp2p::{Multiaddr, PeerId};
use voice_chat::address::{
    circuit_address, dial_choice, dial_target, listen_address, no_peer_message, relay_address, Dial,
};

fn peer(n: u8) -> PeerId {
    let mut bytes = vec![0x00, 0x24, 0x08, 0x01, 0x12, 0x20];
    bytes.extend_from_slice(&[n; 32]);
    PeerId::from_bytes(&bytes).unwrap()
}

fn address(text: &str) -> Multiaddr {
    text.parse().unwrap()
}

#[test]
fn typed_relay_is_read() {
    assert_eq!(
        relay_address(" /ip4/10.0.0.1/udp/4001/quic-v1\n"),
        Some(address("/ip4/10.0.0.1/udp/4001/quic-v1"))
    );
    let with_peer = format!("/dns4/relay.example/tcp/4001/p2p/{}", peer(1));
    assert_eq!(relay_address(&with_peer), Some(address(&with_peer)));
}

#[test]
fn enter_uses_no_relay() {
    assert_eq!(relay_address("\n"), None);
    assert_eq!(relay_address("  \t\r\n"), None);
    assert_eq!(relay_address(""), None);
}

#[test]
fn unreadable_relay_is_not_used() {
    assert_eq!(relay_address("10.0.0.1:4001\n"), None);
    assert_eq!(relay_address("/ip4/10.0.0\n"), None);
}

#[test]
fn enter_waits_for_a_connection() {
    assert!(matches!(dial_choice("\n"), Dial::Wait));
    assert!(matches!(dial_choice(" \r\n"), Dial::Wait));
}

#[test]
fn unreadable_address_is_not_dialled() {
    match dial_choice("nowhere\n") {
        Dial::Unreadable(e) => {
            assert_eq!(e.to_string(), "nowhere".parse::<Multiaddr>().unwrap_err().to_string());
        }
        _ => panic!("an address was read"),
    }
}

#[test]
fn address_without_peer_is_refused() {
    assert!(matches!(dial_choice("/ip4/10.0.0.1/tcp/4001\n"), Dial::NoPeer));
    assert!(matches!(dial_target(Multiaddr::empty()), Dial::NoPeer));
    let through_relay = format!("/ip4/10.0.0.1/tcp/4001/p2p/{}/p2p-circuit", peer(1));
    assert!(matches!(dial_choice(&through_relay), Dial::NoPeer));
    assert_eq!(no_peer_message(), "Provided address does not end with /p2p");
}

#[test]
fn peer_at_the_end_is_dialled() {
    let text =
        format!("/ip4/10.0.0.1/tcp/4001/p2p/{}/p2p-circuit/p2p/{}", peer(1), peer(2));
    match dial_choice(&format!("  {text}\n")) {
        Dial::Peer(found, at) => {
            assert_eq!(found, address(&text));
            assert_eq!(at, peer(2));
        }
        _ => panic!("no peer was found"),
    }
}

#[test]
fn circuit_goes_behind_the_relay() {
    let relay = address("/ip4/10.0.0.1/udp/4001/quic-v1");
    assert_eq!(
        circuit_address(&relay, peer(7)),
        address(&format!("/ip4/10.0.0.1/udp/4001/quic-v1/p2p/{}/p2p-circuit", peer(7)))
    );
}

#[test]
fn circuit_names_the_relay_once() {
    let plain = address("/ip6/::1/tcp/4001");
    let typed = address(&format!("/ip6/::1/tcp/4001/p2p/{}", peer(7)));
    let wrong = address(&format!("/ip6/::1/tcp/4001/p2p/{}", peer(8)));
    let expected = circuit_address(&plain, peer(7));
    assert_eq!(circuit_address(&typed, peer(7)), expected);
    assert_eq!(circuit_address(&wrong, peer(7)), expected);
    let peers = expected.iter().filter(|p| matches!(p, Protocol::P2p(_))).count();
    assert_eq!(peers, 1);
    assert_eq!(expected.iter().last(), Some(Protocol::P2pCircuit));
}

#[test]
fn circuit_drops_every_typed_peer() {
    let nested = address(&format!(
        "/dns/a.example/tcp/1/p2p/{}/p2p-circuit/p2p/{}",
        peer(1),
        peer(2)
    ));
    assert_eq!(
        circuit_address(&nested, peer(3)),
        address(&format!("/dns/a.example/tcp/1/p2p-circuit/p2p/{}/p2p-circuit", peer(3)))
    );
    assert_eq!(
        circuit_address(&Multiaddr::empty(), peer(3)),
        address(&format!("/p2p/{}/p2p-circuit", peer(3)))
    );
}

#[test]
fn circuit_keeps_every_other_component() {
    for text in [
        "/ip4/1.2.3.4/tcp/80/ws",
        "/ip4/1.2.3.4/tcp/443/tls/http/ws",
        "/dnsaddr/relay.example",
        "/ip6/fe80::1/udp/9/quic-v1/webtransport",
        "/unix/tmp%2Fsocket",
    ] {
        let relay = address(text);
        assert_eq!(
            circuit_address(&relay, peer(4)),
            relay.clone().with(Protocol::P2p(peer(4))).with(Protocol::P2pCircuit)
        );
    }
}

#[test]
fn listen_address_names_this_peer() {
    let plain = address("/ip4/192.168.0.2/tcp/5000");
    let full = address(&format!("/ip4/192.168.0.2/tcp/5000/p2p/{}", peer(1)));
    assert_eq!(listen_address(plain, peer(1)), Some(full.clone()));
    assert_eq!(listen_address(full.clone(), peer(1)), Some(full.clone()));
    assert_eq!(listen_address(full, peer(2)), None);
}
