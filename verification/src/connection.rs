//! A connection that packets are sent on, from its opening to its end.
//!
//! The stream is opened and written outside. What comes of that is handed to [`Call`],
//! which says what is to be done next, and what is told of the connection in the end.
use crate::send::{
    bytes_written, packet_goes_out_whole, packets_taken, send_run, send_step, sender_writes_packets, unwritten,
    PacketSender, SendAction, SendEvent, SendStage,
};
use crate::wire::wire;
use vstd::prelude::*;

verus! {

/// What came of a connection that packets are to be sent on.
#[derive(Debug, Clone, Copy, PartialEq, Eq, Structural)]
pub enum ConnectionEvent {
    /// A voice stream was opened.
    Opened,
    /// The peer does not speak the voice protocol.
    Unsupported,
    /// No stream could be opened for another reason.
    OpenFailed,
    /// All packets were sent.
    Sent,
    /// Sending failed.
    SendFailed,
}

/// What is to be done about it.
#[derive(Debug, Clone, Copy, PartialEq, Eq, Structural)]
pub enum ConnectionAction {
    /// Send packets on the stream.
    Send,
    /// Tell the user, and leave it.
    Inform,
    /// Log it for debugging, and leave it.
    Trace,
    /// Warn the user, and leave it.
    Warn,
    /// Tell the user that the call is complete.
    Complete,
}

/// What is to be done about a connection that `event` came of.
pub open spec fn handling(event: ConnectionEvent) -> ConnectionAction {
    match event {
        ConnectionEvent::Opened => ConnectionAction::Send,
        ConnectionEvent::Unsupported => ConnectionAction::Inform,
        ConnectionEvent::OpenFailed => ConnectionAction::Trace,
        ConnectionEvent::Sent => ConnectionAction::Complete,
        ConnectionEvent::SendFailed => ConnectionAction::Warn,
    }
}

/// What is to be done about a connection.
pub fn connection_handler(event: ConnectionEvent) -> (r: ConnectionAction)
    ensures
        r == handling(event),
{
    match event {
        ConnectionEvent::Opened => ConnectionAction::Send,
        ConnectionEvent::Unsupported => ConnectionAction::Inform,
        ConnectionEvent::OpenFailed => ConnectionAction::Trace,
        ConnectionEvent::Sent => ConnectionAction::Complete,
        ConnectionEvent::SendFailed => ConnectionAction::Warn,
    }
}

/// What came of a connection whose sender asks for `action`, if that is its last.
pub open spec fn outcome(action: SendAction) -> Option<ConnectionEvent> {
    match action {
        SendAction::Finish => Some(ConnectionEvent::Sent),
        SendAction::Abort => Some(ConnectionEvent::SendFailed),
        _ => None,
    }
}

/// What came of a connection whose sender asks for `action`: a sender that finishes has
/// sent everything, one that aborts has failed, and any other is still at work.
pub fn sender_outcome(action: &SendAction) -> (r: Option<ConnectionEvent>)
    ensures
        r == outcome(*action),
{
    match action {
        SendAction::Finish => Some(ConnectionEvent::Sent),
        SendAction::Abort => Some(ConnectionEvent::SendFailed),
        _ => None,
    }
}

/// What is to be done next on a connection.
#[derive(Debug)]
pub enum CallAction {
    /// Do what the sender asks for.
    Go(SendAction),
    /// Tell of the connection what this asks for, and leave it.
    Leave(ConnectionAction),
}

/// An open connection that packets are sent on.
#[derive(Debug)]
pub struct Call {
    sender: PacketSender,
}

/// One step of a call: it goes on where a sender goes on, and is left where a sender
/// stops.
pub open spec fn call_step(
    before: SendStage,
    event: SendEvent,
    action: CallAction,
    after: SendStage,
) -> bool {
    match event {
        SendEvent::Closed => {
            &&& action == CallAction::Leave(handling(ConnectionEvent::Sent))
            &&& after == before
        },
        SendEvent::Failed => {
            &&& action == CallAction::Leave(handling(ConnectionEvent::SendFailed))
            &&& after == before
        },
        _ => {
            &&& action matches CallAction::Go(next)
            &&& send_step(before, event, next, after)
        },
    }
}

/// `opened` is what follows from the attempt to open a stream that `event` came of.
pub open spec fn opens(
    event: ConnectionEvent,
    opened: Result<(Call, SendAction), ConnectionAction>,
) -> bool {
    match opened {
        Ok((call, first)) => event is Opened && call.stage() is Idle && first is Receive,
        Err(action) => !(event is Opened) && action == handling(event),
    }
}

impl Call {
    /// How far the current packet is.
    pub closed spec fn stage(&self) -> SendStage {
        self.sender.stage()
    }

    /// What follows from the attempt to open a stream: a call, and what it does first,
    /// where there is a stream, or else what is told of the connection.
    pub fn open(event: ConnectionEvent) -> (r: Result<(Call, SendAction), ConnectionAction>)
        ensures
            match r {
                Ok((call, first)) => {
                    &&& event is Opened
                    &&& call.stage() is Idle
                    &&& first is Receive
                },
                Err(action) => !(event is Opened) && action == handling(event),
            },
            opens(event, r),
    {
        match connection_handler(event) {
            ConnectionAction::Send => {
                let (sender, first) = PacketSender::start();
                Ok((Call { sender }, first))
            },
            action => Err(action),
        }
    }

    /// Takes note of what happened and says what to do next.
    pub fn step(&mut self, event: SendEvent) -> (r: CallAction)
        ensures
            call_step(old(self).stage(), event, r, final(self).stage()),
    {
        let action: SendAction = self.sender.step(event);
        match sender_outcome(&action) {
            Some(end) => CallAction::Leave(connection_handler(end)),
            None => CallAction::Go(action),
        }
    }
}

/// `stages` are those before, between and after the steps that `events` and `actions`
/// belong to, and a packet comes only when it was waited for.
pub open spec fn call_run(
    stages: Seq<SendStage>,
    events: Seq<SendEvent>,
    actions: Seq<CallAction>,
) -> bool {
    &&& stages.len() == events.len() + 1
    &&& actions.len() == events.len()
    &&& forall|i: int|
        #![trigger events[i]]
        0 <= i < events.len() ==> {
            &&& call_step(stages[i], events[i], actions[i], stages[i + 1])
            &&& events[i] is Packet ==> stages[i] is Idle
        }
}

/// The bytes that were to be written, in their order.
pub open spec fn bytes_called(actions: Seq<CallAction>) -> Seq<u8>
    decreases actions.len(),
{
    if actions.len() == 0 {
        Seq::empty()
    } else {
        let written = bytes_called(actions.drop_last());
        match actions.last() {
            CallAction::Go(SendAction::Write(bytes)) => written + bytes@,
            _ => written,
        }
    }
}

/// A call does what a sender does: next to a sender that starts where it starts and to
/// which the same happens, it is as far and has written the same bytes at every moment.
/// It is left as complete where the sender finishes, with a warning where the sender
/// aborts, and nowhere else.
pub proof fn call_does_what_sender_does(
    stages: Seq<SendStage>,
    events: Seq<SendEvent>,
    actions: Seq<CallAction>,
    sender_stages: Seq<SendStage>,
    sender_actions: Seq<SendAction>,
)
    requires
        call_run(stages, events, actions),
        send_run(sender_stages, events, sender_actions),
        stages[0] == sender_stages[0],
    ensures
        stages.last() == sender_stages.last(),
        bytes_called(actions) == bytes_written(sender_actions),
        forall|i: int|
            #![trigger actions[i]]
            0 <= i < actions.len() ==> match outcome(sender_actions[i]) {
                Some(end) => actions[i] == CallAction::Leave(handling(end)),
                None => actions[i] is Go,
            },
    decreases events.len(),
{
    let n = events.len() as int;
    if n > 0 {
        let fewer = events.drop_last();
        assert forall|i: int|
            #![trigger fewer[i]]
            0 <= i < fewer.len() implies {
            &&& call_step(
                stages.drop_last()[i],
                fewer[i],
                actions.drop_last()[i],
                stages.drop_last()[i + 1],
            )
            &&& send_step(
                sender_stages.drop_last()[i],
                fewer[i],
                sender_actions.drop_last()[i],
                sender_stages.drop_last()[i + 1],
            )
            &&& fewer[i] is Packet ==> {
                &&& stages.drop_last()[i] is Idle
                &&& sender_stages.drop_last()[i] is Idle
            }
        } by {
            assert(fewer[i] == events[i]);
        }
        call_does_what_sender_does(
            stages.drop_last(),
            fewer,
            actions.drop_last(),
            sender_stages.drop_last(),
            sender_actions.drop_last(),
        );
        assert(call_step(stages[n - 1], events[n - 1], actions[n - 1], stages[n]));
        assert(send_step(
            sender_stages[n - 1],
            events[n - 1],
            sender_actions[n - 1],
            sender_stages[n],
        ));
        assert(stages.drop_last().last() == stages[n - 1]);
        assert(sender_stages.drop_last().last() == sender_stages[n - 1]);
        assert forall|i: int| #![trigger actions[i]] 0 <= i < actions.len() implies (match outcome(
            sender_actions[i],
        ) {
            Some(end) => actions[i] == CallAction::Leave(handling(end)),
            None => actions[i] is Go,
        }) by {
            if i < n - 1 {
                assert(actions[i] == actions.drop_last()[i]);
                assert(sender_actions[i] == sender_actions.drop_last()[i]);
            }
        }
    }
}

/// What a sender asks for where a call asks for `action` upon `event`.
pub open spec fn action_of_sender(event: SendEvent, action: CallAction) -> SendAction {
    match action {
        CallAction::Go(next) => next,
        CallAction::Leave(_) => if event is Closed {
            SendAction::Finish
        } else {
            SendAction::Abort
        },
    }
}

/// An open connection carries the packets and nothing else: at every moment of a call
/// what was written, and what is still to be written of the current packet, is the wire
/// form of the packets that came.
pub proof fn call_writes_packets(
    stages: Seq<SendStage>,
    events: Seq<SendEvent>,
    actions: Seq<CallAction>,
)
    requires
        call_run(stages, events, actions),
        stages[0] is Idle,
    ensures
        bytes_called(actions) + unwritten(stages.last()) == wire(packets_taken(events)),
{
    let inner = Seq::new(actions.len(), |i: int| action_of_sender(events[i], actions[i]));
    assert forall|i: int|
        #![trigger events[i]]
        0 <= i < events.len() implies {
        &&& send_step(stages[i], events[i], inner[i], stages[i + 1])
        &&& events[i] is Packet ==> stages[i] is Idle
    } by {
        assert(call_step(stages[i], events[i], actions[i], stages[i + 1]));
    }
    call_does_what_sender_does(stages, events, actions, stages, inner);
    sender_writes_packets(stages, events, inner);
}

/// What is told of a connection tells its outcomes apart: packets are sent exactly where a
/// stream was opened, the call is complete exactly where all of them were, and each of the
/// three ways to fail is told in its own way.
pub proof fn outcomes_are_told_apart(a: ConnectionEvent, b: ConnectionEvent)
    ensures
        handling(a) == handling(b) ==> a == b,
        handling(a) is Send <==> a is Opened,
        handling(a) is Complete <==> a is Sent,
        handling(a) is Warn <==> a is SendFailed,
        handling(a) is Inform <==> a is Unsupported,
        handling(a) is Trace <==> a is OpenFailed,
        outcome(SendAction::Finish) == Some(ConnectionEvent::Sent),
        outcome(SendAction::Abort) == Some(ConnectionEvent::SendFailed),
{
}

/// A packet goes out whole on a connection: the two bytes of its length, the more
/// significant first, then its own bytes, then a flush, and only then is the next one
/// waited for.
pub proof fn call_sends_packet_whole(
    stages: Seq<SendStage>,
    packet: Vec<u8>,
    actions: Seq<CallAction>,
)
    requires
        stages.len() == 5,
        actions.len() == 4,
        call_step(stages[0], SendEvent::Packet(packet), actions[0], stages[1]),
        call_step(stages[1], SendEvent::Done, actions[1], stages[2]),
        call_step(stages[2], SendEvent::Done, actions[2], stages[3]),
        call_step(stages[3], SendEvent::Done, actions[3], stages[4]),
    ensures
        actions[0] matches CallAction::Go(SendAction::Write(header)) && header@.len() == 2
            && header@[0] * 256 + header@[1] == packet@.len() % 65536,
        actions[1] matches CallAction::Go(SendAction::Write(bytes)) && bytes@ == packet@,
        actions[2] matches CallAction::Go(next) && next is Flush,
        actions[3] matches CallAction::Go(next) && next is Receive,
        stages[4] is Idle,
{
    let inner = seq![
        actions[0]->Go_0,
        actions[1]->Go_0,
        actions[2]->Go_0,
        actions[3]->Go_0,
    ];
    packet_goes_out_whole(stages, packet, inner);
    assert(inner[0] == actions[0]->Go_0 && inner[1] == actions[1]->Go_0);
    assert(inner[2] == actions[2]->Go_0 && inner[3] == actions[3]->Go_0);
}

/// A call is left as complete exactly where there are no more packets, with a warning
/// exactly where the stream failed, and in no other way.
pub proof fn call_is_left_at_its_end(
    before: SendStage,
    event: SendEvent,
    action: CallAction,
    after: SendStage,
)
    requires
        call_step(before, event, action, after),
    ensures
        event is Closed <==> (action matches CallAction::Leave(told) && told is Complete),
        event is Failed <==> (action matches CallAction::Leave(told) && told is Warn),
        event is Packet || event is Done <==> action is Go,
{
}

/// There is a call exactly where a stream was opened, and it waits for a packet; elsewhere
/// the user is told that the peer does not speak the protocol, or the failure is logged.
pub proof fn call_needs_a_stream(
    event: ConnectionEvent,
    opened: Result<(Call, SendAction), ConnectionAction>,
)
    requires
        opens(event, opened),
    ensures
        opened is Ok <==> event is Opened,
        opened matches Ok((call, first)) ==> call.stage() is Idle && first is Receive,
        event is Unsupported ==> (opened matches Err(action) && action is Inform),
        event is OpenFailed ==> (opened matches Err(action) && action is Trace),
{
}

} // verus!
