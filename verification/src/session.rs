//! Who sends, and what the events of the network ask for.
use crate::address::{
    circuit_address, circuit_components, components, listen_address, reached_at, Component,
};
use libp2p::{Multiaddr, PeerId};
use vstd::prelude::*;

verus! {

/// The one source of packets, for the first connection that asks for it.
#[derive(Debug)]
pub struct SendSlot<T> {
    source: Option<T>,
}

/// A claim turns what the slot holds from `before` to `after` and gets `result`: what
/// was there, and nothing stays.
pub open spec fn claim_step<T>(before: Option<T>, result: Option<T>, after: Option<T>) -> bool {
    result == before && after is None
}

impl<T> SendSlot<T> {
    /// What the slot holds.
    pub closed spec fn source(&self) -> Option<T> {
        self.source
    }

    /// A slot that holds `source`.
    pub fn new(source: T) -> (r: Self)
        ensures
            r.source() == Some(source),
    {
        SendSlot { source: Some(source) }
    }

    /// Takes what the slot holds.
    pub fn claim(&mut self) -> (r: Option<T>)
        ensures
            claim_step(old(self).source(), r, final(self).source()),
    {
        self.source.take()
    }
}

/// Packets are sent to one peer only: of all claims at most the first gets the source.
pub proof fn source_is_claimed_once<T>(held: Seq<Option<T>>, results: Seq<Option<T>>)
    requires
        held.len() == results.len() + 1,
        forall|i: int|
            #![trigger results[i]]
            0 <= i < results.len() ==> claim_step(held[i], results[i], held[i + 1]),
    ensures
        results.len() > 0 ==> results[0] == held[0],
        forall|i: int| 1 <= i < results.len() ==> (#[trigger] results[i]) is None,
{
    assert forall|i: int| 1 <= i < results.len() implies (#[trigger] results[i]) is None by {
        let earlier = results[i - 1];
        assert(claim_step(held[i - 1], earlier, held[i]));
    }
}

/// What happened on the network.
pub enum NetEvent {
    /// This peer listens on an address.
    Listening(Multiaddr),
    /// A connection to a peer stands.
    Connected(PeerId),
    /// A peer told at which address it sees this one.
    Identified,
    /// The address of a circuit is being listened on.
    CircuitGranted,
    /// The address of a circuit could not be listened on.
    CircuitRefused,
    /// Anything else.
    Other,
}

/// What is to be done about it.
pub enum NetAction {
    /// Tell the user the address at which this peer is reached.
    ReportListening(Multiaddr),
    /// Give up: the address listened on names another peer.
    ForeignAddress,
    /// Listen on this address of a circuit.
    RequestCircuit(Multiaddr),
    /// Tell the user the address that was observed.
    ReportObserved,
    /// Log the event.
    ReportEvent,
    /// Nothing.
    Nothing,
}

/// How this peer stands with its relay.
pub struct RelayLink {
    local: PeerId,
    relay: Option<Multiaddr>,
    established: bool,
}

/// One event: in state `before` it asks for `action` and leads to `after`. As long as
/// no circuit is granted, every connection that comes to stand is taken for the one to
/// the relay; afterwards connections are only logged.
pub open spec fn link_step(
    before: RelayLink,
    event: NetEvent,
    action: NetAction,
    after: RelayLink,
) -> bool {
    &&& after.local() == before.local()
    &&& after.relay() == before.relay()
    &&& after.established() == (before.established() || event is CircuitGranted)
    &&& match event {
        NetEvent::Listening(address) => match action {
            NetAction::ReportListening(full) => reached_at(address, before.local(), Some(full)),
            _ => action is ForeignAddress && reached_at(address, before.local(), None),
        },
        NetEvent::Connected(peer) => if before.established() {
            action is ReportEvent
        } else {
            match before.relay() {
                Some(relay) => {
                    &&& action matches NetAction::RequestCircuit(circuit)
                    &&& components(circuit) == circuit_components(components(relay), peer)
                },
                None => action is Nothing,
            }
        },
        NetEvent::Identified => action is ReportObserved,
        NetEvent::CircuitGranted | NetEvent::CircuitRefused => action is Nothing,
        NetEvent::Other => action is ReportEvent,
    }
}

/// A link starts with this peer and the relay it was made for, and no circuit.
pub open spec fn starts_link(local: PeerId, relay: Option<Multiaddr>, start: RelayLink) -> bool {
    &&& start.local() == local
    &&& start.relay() == relay
    &&& !start.established()
}

impl RelayLink {
    /// This peer.
    pub closed spec fn local(&self) -> PeerId {
        self.local
    }

    /// The relay, if one is used.
    pub closed spec fn relay(&self) -> Option<Multiaddr> {
        self.relay
    }

    /// A circuit is granted.
    pub closed spec fn established(&self) -> bool {
        self.established
    }

    /// No circuit is granted yet.
    pub fn new(local: PeerId, relay: Option<Multiaddr>) -> (r: Self)
        ensures
            r.local() == local,
            r.relay() == relay,
            !r.established(),
            starts_link(local, relay, r),
    {
        RelayLink { local, relay, established: false }
    }

    /// Takes note of what happened and says what is to be done about it.
    pub fn step(&mut self, event: NetEvent) -> (r: NetAction)
        ensures
            link_step(*old(self), event, r, *final(self)),
    {
        match event {
            NetEvent::Listening(address) => match listen_address(address, self.local) {
                Some(full) => NetAction::ReportListening(full),
                None => NetAction::ForeignAddress,
            },
            NetEvent::Connected(peer) => {
                if self.established {
                    return NetAction::ReportEvent;
                }
                match &self.relay {
                    Some(relay) => NetAction::RequestCircuit(circuit_address(relay, peer)),
                    None => NetAction::Nothing,
                }
            },
            NetEvent::Identified => NetAction::ReportObserved,
            NetEvent::CircuitGranted => {
                self.established = true;
                NetAction::Nothing
            },
            NetEvent::CircuitRefused => NetAction::Nothing,
            NetEvent::Other => NetAction::ReportEvent,
        }
    }
}

/// `states` are those before, between and after the events.
pub open spec fn link_run(
    states: Seq<RelayLink>,
    events: Seq<NetEvent>,
    actions: Seq<NetAction>,
) -> bool {
    &&& states.len() == events.len() + 1
    &&& actions.len() == events.len()
    &&& forall|i: int|
        #![trigger events[i]]
        0 <= i < events.len() ==> link_step(states[i], events[i], actions[i], states[i + 1])
}

/// One circuit is enough: once it is granted no other is asked for.
pub proof fn no_circuit_after_grant(
    states: Seq<RelayLink>,
    events: Seq<NetEvent>,
    actions: Seq<NetAction>,
    granted: int,
    later: int,
)
    requires
        link_run(states, events, actions),
        0 <= granted < later < events.len(),
        events[granted] is CircuitGranted,
    ensures
        states[later].established(),
        !(actions[later] is RequestCircuit),
    decreases later - granted,
{
    assert(link_step(states[later], events[later], actions[later], states[later + 1]));
    if later == granted + 1 {
        assert(link_step(states[granted], events[granted], actions[granted], states[later]));
    } else {
        no_circuit_after_grant(states, events, actions, granted, later - 1);
        assert(link_step(
            states[later - 1],
            events[later - 1],
            actions[later - 1],
            states[later],
        ));
    }
}

/// Who uses no relay never asks for a circuit.
pub proof fn no_circuit_without_relay(
    states: Seq<RelayLink>,
    events: Seq<NetEvent>,
    actions: Seq<NetAction>,
    i: int,
)
    requires
        link_run(states, events, actions),
        states[0].relay() is None,
        0 <= i < events.len(),
    ensures
        states[i].relay() is None,
        !(actions[i] is RequestCircuit),
    decreases i,
{
    assert(link_step(states[i], events[i], actions[i], states[i + 1]));
    if i > 0 {
        no_circuit_without_relay(states, events, actions, i - 1);
        assert(link_step(states[i - 1], events[i - 1], actions[i - 1], states[i]));
    }
}

proof fn lemma_link_so_far(
    states: Seq<RelayLink>,
    events: Seq<NetEvent>,
    actions: Seq<NetAction>,
    i: int,
)
    requires
        link_run(states, events, actions),
        0 <= i <= events.len(),
    ensures
        states[i].local() == states[0].local(),
        states[i].relay() == states[0].relay(),
        states[i].established() <==> states[0].established() || exists|j: int|
            0 <= j < i && (#[trigger] events[j]) is CircuitGranted,
    decreases i,
{
    if i > 0 {
        lemma_link_so_far(states, events, actions, i - 1);
        assert(link_step(states[i - 1], events[i - 1], actions[i - 1], states[i]));
        if states[i - 1].established() && !states[0].established() {
            let j = choose|j: int| 0 <= j < i - 1 && (#[trigger] events[j]) is CircuitGranted;
            assert(events[j] is CircuitGranted);
        }
        if states[i].established() && !states[0].established() && !states[i - 1].established() {
            assert(events[i - 1] is CircuitGranted);
        }
    }
}

/// The address that the user is shown can be pasted and dialled, with a relay or without,
/// at any moment of a run: it has this peer last, and is but for that the address listened
/// on. One is shown for every address listened on that does not have another peer last, and
/// for that one alone.
pub proof fn shown_address_is_this_peers(
    local: PeerId,
    relay: Option<Multiaddr>,
    states: Seq<RelayLink>,
    events: Seq<NetEvent>,
    actions: Seq<NetAction>,
    i: int,
)
    requires
        starts_link(local, relay, states[0]),
        link_run(states, events, actions),
        0 <= i < events.len(),
    ensures
        actions[i] is ReportListening ==> events[i] is Listening,
        actions[i] is ForeignAddress ==> events[i] is Listening,
        events[i] matches NetEvent::Listening(address) ==> {
            let parts = components(address);
            &&& actions[i] is ForeignAddress <==> parts.len() > 0 && parts.last() is Peer
                && parts.last() != Component::Peer(local)
            &&& !(actions[i] is ForeignAddress) ==> (actions[i] matches NetAction::ReportListening(
                full,
            ) && {
                &&& components(full).len() > 0
                &&& components(full).last() == Component::Peer(local)
                &&& components(full) == parts || components(full).drop_last() == parts
                &&& parts.len() > 0 && parts.last() == Component::Peer(local) ==> full == address
                &&& !(parts.len() > 0 && parts.last() is Peer) ==> components(full).drop_last()
                    == parts
            })
        },
{
    lemma_link_so_far(states, events, actions, i);
    assert(link_step(states[i], events[i], actions[i], states[i + 1]));
    match events[i] {
        NetEvent::Listening(address) => {
            let parts = components(address);
            if !(parts.len() > 0 && parts.last() is Peer) {
                assert(parts.push(Component::Peer(local)).drop_last() =~= parts);
            }
        },
        _ => {},
    }
}

/// A circuit is asked for exactly where a connection comes to stand while a relay is used
/// and no circuit has been granted so far. The address asked for has the peer of that
/// connection and the circuit at its end and names no other peer.
pub proof fn circuit_is_requested_until_granted(
    local: PeerId,
    relay: Option<Multiaddr>,
    states: Seq<RelayLink>,
    events: Seq<NetEvent>,
    actions: Seq<NetAction>,
    i: int,
)
    requires
        starts_link(local, relay, states[0]),
        link_run(states, events, actions),
        0 <= i < events.len(),
    ensures
        actions[i] is RequestCircuit <==> events[i] is Connected && relay is Some && !(exists|
            j: int,
        |
            0 <= j < i && (#[trigger] events[j]) is CircuitGranted),
        actions[i] matches NetAction::RequestCircuit(circuit) ==> (events[i] matches NetEvent::Connected(
            peer,
        ) && {
            let parts = components(circuit);
            let n = parts.len() as int;
            &&& n >= 2
            &&& parts[n - 1] is Circuit
            &&& parts[n - 2] == Component::Peer(peer)
            &&& parts.take(n - 2) == components(relay->Some_0).filter(|c: Component| !(c is Peer))
        }),
{
    lemma_link_so_far(states, events, actions, i);
    assert(link_step(states[i], events[i], actions[i], states[i + 1]));
    match actions[i] {
        NetAction::RequestCircuit(circuit) => {
            let parts = components(circuit);
            let route = components(relay->Some_0).filter(|c: Component| !(c is Peer));
            assert(parts.take(parts.len() - 2) =~= route);
        },
        _ => {},
    }
}

/// Every other event is logged, but for a connection without a relay and for what came of a
/// request; what a peer observed is shown exactly where it told so.
pub proof fn other_events_are_logged(
    before: RelayLink,
    event: NetEvent,
    action: NetAction,
    after: RelayLink,
)
    requires
        link_step(before, event, action, after),
    ensures
        action is ReportObserved <==> event is Identified,
        action is ReportEvent <==> event is Other || event is Connected && before.established(),
        action is Nothing <==> event is CircuitGranted || event is CircuitRefused || event
            is Connected && !before.established() && before.relay() is None,
        after.local() == before.local(),
        after.relay() == before.relay(),
{
}

} // verus!
