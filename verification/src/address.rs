//! The addresses of peers and relays.
use crate::text::{is_white_space, space_around_is_trimmed, trim, trimmed};
use libp2p::multiaddr::Protocol;
use libp2p::{Multiaddr, PeerId};
use vstd::prelude::*;

verus! {

/// An address, a list of components.
#[verifier::external_type_specification]
#[verifier::external_body]
pub struct ExMultiaddr(Multiaddr);

/// The identity of a peer.
#[verifier::external_type_specification]
#[verifier::external_body]
pub struct ExPeerId(PeerId);

/// One component of an address.
#[verifier::external_type_specification]
#[verifier::external_body]
pub struct ExProtocol<'a>(Protocol<'a>);

/// Why a text is no address.
#[verifier::external_type_specification]
#[verifier::external_body]
pub struct ExAddressError(libp2p::multiaddr::Error);

/// One component of an address, told apart as far as it matters here.
#[derive(Debug)]
pub enum Component {
    /// The peer at the end of what stands before (`/p2p/..`).
    Peer(PeerId),
    /// A relay passes on from here (`/p2p-circuit`).
    Circuit,
    /// Any other.
    Other(Protocol<'static>),
}

/// The components of an address, in their order.
pub uninterp spec fn components(address: Multiaddr) -> Seq<Component>;

/// The address that a text writes, or why it writes none.
pub uninterp spec fn written_address(text: Seq<char>) -> Result<Multiaddr, libp2p::multiaddr::Error>;

/// Calls `<Multiaddr as FromStr>::from_str`: what comes, an address or an error, is a
/// function of the text alone.
#[verifier::external_body]
fn parse_address(text: &str) -> (r: Result<Multiaddr, libp2p::multiaddr::Error>)
    ensures
        r == written_address(text@),
{
    text.parse::<Multiaddr>()
}

/// Calls `Multiaddr::iter` and hands out the components it yields, each told apart by
/// its variant.
#[verifier::external_body]
fn list_components(address: &Multiaddr) -> (r: Vec<Component>)
    ensures
        r@ == components(*address),
{
    address.iter()
        .map(|p| match p {
            Protocol::P2p(peer) => Component::Peer(peer),
            Protocol::P2pCircuit => Component::Circuit,
            other => Component::Other(other.acquire()),
        })
        .collect()
}

/// Calls `<Multiaddr as FromIterator<Protocol>>::from_iter`: the address with exactly
/// these components. Those of other kinds have to be ones that some address has.
#[verifier::external_body]
fn collect_components(parts: Vec<Component>) -> (r: Multiaddr)
    requires
        forall|i: int|
            0 <= i < parts@.len() && (#[trigger] parts@[i]) is Other ==> exists|a: Multiaddr|
                #[trigger] components(a).contains(parts@[i]),
    ensures
        components(r) == parts@,
{
    parts.into_iter()
        .map(|c| match c {
            Component::Peer(peer) => Protocol::P2p(peer),
            Component::Circuit => Protocol::P2pCircuit,
            Component::Other(other) => other,
        })
        .collect()
}

/// Calls `Multiaddr::with`: this component goes last. One of another kind has to be one
/// that some address has.
#[verifier::external_body]
fn with_component(address: Multiaddr, part: Component) -> (r: Multiaddr)
    requires
        part is Other ==> exists|a: Multiaddr| #[trigger] components(a).contains(part),
    ensures
        components(r) == components(address).push(part),
{
    address.with(
        match part {
            Component::Peer(peer) => Protocol::P2p(peer),
            Component::Circuit => Protocol::P2pCircuit,
            Component::Other(other) => other,
        },
    )
}

/// Calls `Multiaddr::with_p2p`: a peer goes last unless it stands there; where another
/// peer stands there the address comes back as it was, as an error.
#[verifier::external_body]
fn with_p2p(address: Multiaddr, peer: PeerId) -> (r: Result<Multiaddr, Multiaddr>)
    ensures
        match last_peer(components(address)) {
            Some(last) => if last == peer {
                r == Ok::<Multiaddr, Multiaddr>(address)
            } else {
                r == Err::<Multiaddr, Multiaddr>(address)
            },
            None => {
                &&& r is Ok
                &&& components(r->Ok_0) == components(address).push(Component::Peer(peer))
            },
        },
{
    address.with_p2p(peer)
}

/// The peer that the last component names.
pub open spec fn last_peer(parts: Seq<Component>) -> Option<PeerId> {
    if parts.len() > 0 {
        match parts.last() {
            Component::Peer(peer) => Some(peer),
            _ => None,
        }
    } else {
        None
    }
}

/// The components that name no peer, in their order.
pub open spec fn without_peers(parts: Seq<Component>) -> Seq<Component> {
    parts.filter(|c: Component| !(c is Peer))
}

/// The components of the address at which a peer is reached through `relay`.
pub open spec fn circuit_components(relay: Seq<Component>, peer: PeerId) -> Seq<Component> {
    without_peers(relay).push(Component::Peer(peer)).push(Component::Circuit)
}

/// The relay that a line names, if it names one.
pub open spec fn relay_named(line: Seq<char>) -> Option<Multiaddr> {
    if trimmed(line).len() == 0 {
        None
    } else {
        match written_address(trimmed(line)) {
            Ok(address) => Some(address),
            Err(_) => None,
        }
    }
}

/// The relay that the user typed. A blank line means that none is used, and so does a
/// line that writes no address.
pub fn relay_address(line: &str) -> (r: Option<Multiaddr>)
    ensures
        r == (if trimmed(line@).len() == 0 {
            None
        } else {
            match written_address(trimmed(line@)) {
                Ok(address) => Some(address),
                Err(_) => None,
            }
        }),
        r == relay_named(line@),
{
    let text: &str = trim(line);
    if text.is_empty() {
        return None;
    }
    match parse_address(text) {
        Ok(address) => Some(address),
        Err(_) => None,
    }
}

/// What the user wants dialled.
pub enum Dial {
    /// Nothing: the line is blank.
    Wait,
    /// Nothing: the line writes no address.
    Unreadable(libp2p::multiaddr::Error),
    /// Nothing can be dialled, since no peer stands at the end of the address.
    NoPeer,
    /// This address, at which this peer is.
    Peer(Multiaddr, PeerId),
}

/// What is dialled at an address: the peer at its end, if there is one.
pub fn dial_target(address: Multiaddr) -> (r: Dial)
    ensures
        match last_peer(components(address)) {
            Some(peer) => r == Dial::Peer(address, peer),
            None => r is NoPeer,
        },
{
    let mut parts: Vec<Component> = list_components(&address);
    match parts.pop() {
        Some(Component::Peer(peer)) => Dial::Peer(address, peer),
        _ => Dial::NoPeer,
    }
}

/// What a line asks to dial.
pub open spec fn dialled(line: Seq<char>) -> Dial {
    if trimmed(line).len() == 0 {
        Dial::Wait
    } else {
        match written_address(trimmed(line)) {
            Ok(address) => match last_peer(components(address)) {
                Some(peer) => Dial::Peer(address, peer),
                None => Dial::NoPeer,
            },
            Err(e) => Dial::Unreadable(e),
        }
    }
}

/// What the user wants dialled, by the line typed for it.
pub fn dial_choice(line: &str) -> (r: Dial)
    ensures
        r == (if trimmed(line@).len() == 0 {
            Dial::Wait
        } else {
            match written_address(trimmed(line@)) {
                Ok(address) => match last_peer(components(address)) {
                    Some(peer) => Dial::Peer(address, peer),
                    None => Dial::NoPeer,
                },
                Err(e) => Dial::Unreadable(e),
            }
        }),
        r == dialled(line@),
{
    let text: &str = trim(line);
    if text.is_empty() {
        return Dial::Wait;
    }
    match parse_address(text) {
        Ok(address) => dial_target(address),
        Err(e) => Dial::Unreadable(e),
    }
}

/// What the user is told where no peer stands at the end of the address to dial.
pub fn no_peer_message() -> (r: &'static str)
    ensures
        r@ == "Provided address does not end with /p2p"@,
{
    "Provided address does not end with /p2p"
}

/// The address to listen on for connections that the relay `peer` at `relay` passes
/// on: that of the relay, with the peer named once and last, and the circuit behind it.
pub fn circuit_address(relay: &Multiaddr, peer: PeerId) -> (r: Multiaddr)
    ensures
        components(r) == circuit_components(components(*relay), peer),
{
    let ghost keep = |c: Component| !(c is Peer);
    let ghost all = components(*relay);
    let mut rest: Vec<Component> = list_components(relay);
    let mut kept: Vec<Component> = Vec::new();
    let ghost mut done: int = 0;
    proof {
        reveal(Seq::filter);
        assert(all.take(0).filter(keep) =~= Seq::empty());
        assert(all.skip(0) =~= all);
    }
    while !rest.is_empty()
        invariant
            keep == (|c: Component| !(c is Peer)),
            all == components(*relay),
            0 <= done <= all.len(),
            rest@ == all.skip(done),
            kept@ == all.take(done).filter(keep),
            forall|i: int| 0 <= i < kept@.len() ==> all.contains(#[trigger] kept@[i]),
        decreases rest@.len(),
    {
        let part: Component = rest.remove(0);
        proof {
            reveal(Seq::filter);
            assert(all.take(done + 1).drop_last() =~= all.take(done));
            assert(part == all[done]);
            assert(rest@ =~= all.skip(done + 1));
            done = done + 1;
        }
        match part {
            Component::Peer(_) => {},
            other => {
                kept.push(other);
            },
        }
    }
    assert(all.take(done) =~= all);
    let base: Multiaddr = collect_components(kept);
    with_component(with_component(base, Component::Peer(peer)), Component::Circuit)
}

/// `shown` is the address at which the peer `local` is reached where it listens on
/// `address`: that address with the peer last, once; `None` where another peer is last.
pub open spec fn reached_at(address: Multiaddr, local: PeerId, shown: Option<Multiaddr>) -> bool {
    match last_peer(components(address)) {
        Some(last) => shown == (if last == local {
            Some(address)
        } else {
            None
        }),
        None => {
            &&& shown matches Some(full)
            &&& components(full) == components(address).push(Component::Peer(local))
        },
    }
}

/// The address at which this peer, `local`, is reached where it listens on `address`;
/// `None` where that address ends in another peer.
pub fn listen_address(address: Multiaddr, local: PeerId) -> (r: Option<Multiaddr>)
    ensures
        reached_at(address, local, r),
{
    match with_p2p(address, local) {
        Ok(full) => Some(full),
        Err(_) => None,
    }
}

/// The address that is shown for a peer can be dialled: that peer stands at its end.
pub proof fn shown_address_names_peer(address: Multiaddr, local: PeerId, shown: Multiaddr)
    requires
        reached_at(address, local, Some(shown)),
    ensures
        last_peer(components(shown)) == Some(local),
        components(shown).last() == Component::Peer(local),
        components(shown) == components(address) || components(shown) == components(address).push(
            Component::Peer(local),
        ),
{
}

/// A circuit address names one peer, the relay, right before the circuit at its end.
pub proof fn circuit_names_relay_once(relay: Seq<Component>, peer: PeerId)
    ensures
        ({
            let parts = circuit_components(relay, peer);
            let n = parts.len() as int;
            &&& n >= 2
            &&& parts[n - 1] is Circuit
            &&& parts[n - 2] == Component::Peer(peer)
            &&& forall|i: int| 0 <= i < n - 2 ==> !((#[trigger] parts[i]) is Peer)
        }),
{
    let keep = |c: Component| !(c is Peer);
    let parts = circuit_components(relay, peer);
    assert forall|i: int| 0 <= i < parts.len() - 2 implies !((#[trigger] parts[i]) is Peer) by {
        relay.lemma_filter_pred(keep, i);
        assert(parts[i] == relay.filter(keep)[i]);
    }
}

/// It makes no difference whether the address typed for the relay already ends in a
/// peer: that is dropped, so no peer is named twice.
pub proof fn circuit_ignores_typed_peer(relay: Seq<Component>, typed: PeerId, peer: PeerId)
    ensures
        circuit_components(relay.push(Component::Peer(typed)), peer) == circuit_components(
            relay,
            peer,
        ),
{
    reveal(Seq::filter);
    assert(relay.push(Component::Peer(typed)).drop_last() =~= relay);
}

/// What a relay address has besides peers stays, in its order.
pub proof fn circuit_keeps_route(relay: Seq<Component>, peer: PeerId)
    requires
        forall|i: int| 0 <= i < relay.len() ==> !((#[trigger] relay[i]) is Peer),
    ensures
        circuit_components(relay, peer) == relay.push(Component::Peer(peer)).push(
            Component::Circuit,
        ),
{
    lemma_nothing_dropped(relay);
}

proof fn lemma_nothing_dropped(parts: Seq<Component>)
    requires
        forall|i: int| 0 <= i < parts.len() ==> !((#[trigger] parts[i]) is Peer),
    ensures
        without_peers(parts) == parts,
    decreases parts.len(),
{
    reveal(Seq::filter);
    if parts.len() > 0 {
        let head = parts.drop_last();
        assert forall|i: int| 0 <= i < head.len() implies !((#[trigger] head[i]) is Peer) by {
            assert(head[i] == parts[i]);
        }
        lemma_nothing_dropped(head);
        assert(!(parts.last() is Peer));
        assert(head.push(parts.last()) =~= parts);
    } else {
        assert(without_peers(parts) =~= parts);
    }
}

/// The peer at the end of an address is the one that its last component names, and there is
/// none where that names no peer.
pub proof fn last_peer_stands_last(parts: Seq<Component>, peer: PeerId, other: Component)
    ensures
        last_peer(parts.push(Component::Peer(peer))) == Some(peer),
        !(other is Peer) ==> last_peer(parts.push(other)) is None,
        last_peer(Seq::<Component>::empty()) is None,
        last_peer(parts) == Some(peer) <==> parts.len() > 0 && parts.last() == Component::Peer(
            peer,
        ),
{
    assert(parts.push(Component::Peer(peer)).last() == Component::Peer(peer));
    assert(parts.push(other).last() == other);
}

/// Every component is looked at for itself: peers are dropped wherever they stand, and
/// everything else stays, in its order.
pub proof fn peers_are_dropped_one_by_one(
    a: Seq<Component>,
    b: Seq<Component>,
    peer: PeerId,
    other: Component,
)
    ensures
        without_peers(a + b) == without_peers(a) + without_peers(b),
        without_peers(a.push(Component::Peer(peer))) == without_peers(a),
        !(other is Peer) ==> without_peers(a.push(other)) == without_peers(a).push(other),
        without_peers(Seq::<Component>::empty()).len() == 0,
    decreases b.len(),
{
    reveal(Seq::filter);
    assert(a.push(Component::Peer(peer)).drop_last() =~= a);
    assert(a.push(other).drop_last() =~= a);
    if b.len() == 0 {
        assert(a + b =~= a);
        assert(without_peers(a) + without_peers(b) =~= without_peers(a));
    } else {
        peers_are_dropped_one_by_one(a, b.drop_last(), peer, other);
        assert((a + b).drop_last() =~= a + b.drop_last());
        assert(without_peers(a + b) =~= without_peers(a) + without_peers(b));
    }
}

/// What a typed line means does not depend on white space around it: the same relay, and the
/// same address to dial, as for the rest of the line, and none for a line of nothing else.
pub proof fn space_around_means_the_same_address(a: Seq<char>, core: Seq<char>, b: Seq<char>)
    requires
        forall|i: int| 0 <= i < a.len() ==> is_white_space(#[trigger] a[i]),
        forall|i: int| 0 <= i < b.len() ==> is_white_space(#[trigger] b[i]),
        core.len() > 0 ==> !is_white_space(core.first()) && !is_white_space(core.last()),
    ensures
        core.len() == 0 ==> relay_named(a + core + b) is None && dialled(a + core + b) is Wait,
        core.len() > 0 ==> (written_address(core) matches Ok(address) ==> {
            &&& relay_named(a + core + b) == Some(address)
            &&& match last_peer(components(address)) {
                Some(peer) => dialled(a + core + b) == Dial::Peer(address, peer),
                None => dialled(a + core + b) is NoPeer,
            }
        }),
        core.len() > 0 ==> (written_address(core) matches Err(e) ==> {
            &&& relay_named(a + core + b) is None
            &&& dialled(a + core + b) == Dial::Unreadable(e)
        }),
{
    space_around_is_trimmed(a, core, b);
}

} // verus!
