//! Writing packets to a voice stream.
//!
//! The stream is written outside. After each piece of work [`PacketSender::step`] says
//! what is to be done next.
use crate::chunks::{lemma_joined_last, lemma_joined_none};
use crate::wire::{framed, packet_header, wire};
use vstd::prelude::*;

verus! {

/// What happened.
#[derive(Debug)]
pub enum SendEvent {
    /// A packet is to be sent.
    Packet(Vec<u8>),
    /// There will be no more packets.
    Closed,
    /// What was to be written or flushed has been.
    Done,
    /// Writing or flushing failed.
    Failed,
}

/// What is to be done next.
#[derive(Debug)]
pub enum SendAction {
    /// Wait for a packet.
    Receive,
    /// Write all of these bytes.
    Write(Vec<u8>),
    /// Flush the stream.
    Flush,
    /// Stop: everything was sent.
    Finish,
    /// Stop with the error of the stream.
    Abort,
}

#[derive(Debug)]
enum Stage {
    Idle,
    HeaderOut(Vec<u8>),
    BodyOut,
    Flushing,
}

/// How far the current packet is.
pub enum SendStage {
    /// There is none.
    Idle,
    /// Its header is being written; these bytes are to follow.
    HeaderOut(Seq<u8>),
    /// Its bytes are being written.
    BodyOut,
    /// The stream is being flushed behind it.
    Flushing,
}

/// The sending side between two pieces of outside work.
#[derive(Debug)]
pub struct PacketSender {
    stage: Stage,
}

/// One step: `event` in state `before` asks for `action` and leads to `after`. A packet
/// is written header first, then its bytes, then the stream is flushed, and only then
/// is the next one waited for.
pub open spec fn send_step(
    before: SendStage,
    event: SendEvent,
    action: SendAction,
    after: SendStage,
) -> bool {
    match event {
        SendEvent::Packet(packet) => {
            &&& action matches SendAction::Write(bytes)
            &&& bytes@ == crate::wire::header_of(packet@.len())
            &&& after == SendStage::HeaderOut(packet@)
        },
        SendEvent::Closed => action is Finish && after == before,
        SendEvent::Failed => action is Abort && after == before,
        SendEvent::Done => match before {
            SendStage::HeaderOut(body) => {
                &&& action matches SendAction::Write(bytes)
                &&& bytes@ == body
                &&& after is BodyOut
            },
            SendStage::BodyOut => action is Flush && after is Flushing,
            _ => action is Receive && after is Idle,
        },
    }
}

/// A sender starts without a packet, and waits for one.
pub open spec fn starts_sender(start: (PacketSender, SendAction)) -> bool {
    start.0.stage() is Idle && start.1 is Receive
}

impl PacketSender {
    /// How far the current packet is.
    pub closed spec fn stage(&self) -> SendStage {
        match self.stage {
            Stage::Idle => SendStage::Idle,
            Stage::HeaderOut(body) => SendStage::HeaderOut(body@),
            Stage::BodyOut => SendStage::BodyOut,
            Stage::Flushing => SendStage::Flushing,
        }
    }

    /// A sender, and what it does first.
    pub fn start() -> (r: (Self, SendAction))
        ensures
            r.0.stage() is Idle,
            r.1 is Receive,
            starts_sender(r),
    {
        (PacketSender { stage: Stage::Idle }, SendAction::Receive)
    }

    /// Takes note of what happened and says what to do next.
    pub fn step(&mut self, event: SendEvent) -> (r: SendAction)
        ensures
            send_step(old(self).stage(), event, r, final(self).stage()),
    {
        match event {
            SendEvent::Packet(packet) => {
                let header: [u8; 2] = packet_header(packet.len());
                let mut bytes: Vec<u8> = Vec::new();
                bytes.push(header[0]);
                bytes.push(header[1]);
                assert(bytes@ =~= header@);
                self.stage = Stage::HeaderOut(packet);
                SendAction::Write(bytes)
            },
            SendEvent::Closed => SendAction::Finish,
            SendEvent::Failed => SendAction::Abort,
            SendEvent::Done => {
                let mut stage: Stage = Stage::Idle;
                core::mem::swap(&mut stage, &mut self.stage);
                match stage {
                    Stage::HeaderOut(body) => {
                        self.stage = Stage::BodyOut;
                        SendAction::Write(body)
                    },
                    Stage::BodyOut => {
                        self.stage = Stage::Flushing;
                        SendAction::Flush
                    },
                    _ => SendAction::Receive,
                }
            },
        }
    }
}

/// `stages` are those before, between and after the steps that `events` and `actions`
/// belong to, and a packet comes only when it was waited for.
pub open spec fn send_run(
    stages: Seq<SendStage>,
    events: Seq<SendEvent>,
    actions: Seq<SendAction>,
) -> bool {
    &&& stages.len() == events.len() + 1
    &&& actions.len() == events.len()
    &&& forall|i: int|
        #![trigger events[i]]
        0 <= i < events.len() ==> {
            &&& send_step(stages[i], events[i], actions[i], stages[i + 1])
            &&& events[i] is Packet ==> stages[i] is Idle
        }
}

/// The packets that came, in their order.
pub open spec fn packets_taken(events: Seq<SendEvent>) -> Seq<Seq<u8>>
    decreases events.len(),
{
    if events.len() == 0 {
        Seq::empty()
    } else {
        let taken = packets_taken(events.drop_last());
        match events.last() {
            SendEvent::Packet(packet) => taken.push(packet@),
            _ => taken,
        }
    }
}

/// The bytes that were to be written, in their order.
pub open spec fn bytes_written(actions: Seq<SendAction>) -> Seq<u8>
    decreases actions.len(),
{
    if actions.len() == 0 {
        Seq::empty()
    } else {
        let written = bytes_written(actions.drop_last());
        match actions.last() {
            SendAction::Write(bytes) => written + bytes@,
            _ => written,
        }
    }
}

/// What is still to be written of the current packet.
pub open spec fn unwritten(stage: SendStage) -> Seq<u8> {
    match stage {
        SendStage::HeaderOut(body) => body,
        _ => Seq::empty(),
    }
}

/// The stream carries the packets and nothing else: at every moment what was written,
/// and what is still to be written of the current packet, is the wire form of the
/// packets that came.
pub proof fn sender_writes_packets(
    stages: Seq<SendStage>,
    events: Seq<SendEvent>,
    actions: Seq<SendAction>,
)
    requires
        send_run(stages, events, actions),
        stages[0] is Idle,
    ensures
        bytes_written(actions) + unwritten(stages.last()) == wire(packets_taken(events)),
    decreases events.len(),
{
    if events.len() == 0 {
        assert(bytes_written(actions) + unwritten(stages.last()) =~= wire(packets_taken(events)));
    } else {
        let n = events.len() - 1;
        let earlier = events.drop_last();
        assert forall|i: int|
            #![trigger earlier[i]]
            0 <= i < earlier.len() implies {
            &&& send_step(
                stages.drop_last()[i],
                earlier[i],
                actions.drop_last()[i],
                stages.drop_last()[i + 1],
            )
            &&& earlier[i] is Packet ==> stages.drop_last()[i] is Idle
        } by {
            assert(earlier[i] == events[i]);
        }
        sender_writes_packets(stages.drop_last(), earlier, actions.drop_last());
        assert(send_step(stages[n], events[n], actions[n], stages[n + 1]));
        assert(stages.drop_last().last() == stages[n]);
        let taken = packets_taken(earlier);
        match events[n] {
            SendEvent::Packet(packet) => {
                assert(taken.push(packet@).drop_last() =~= taken);
                assert(bytes_written(actions) + unwritten(stages.last()) =~= wire(taken) + framed(
                    packet@,
                ));
            },
            _ => {
                assert(bytes_written(actions) + unwritten(stages.last()) =~= wire(taken));
            },
        }
    }
}

/// A packet goes out whole: the two bytes of its length, the more significant first, then
/// its own bytes, then a flush, and only then is the next one waited for.
pub proof fn packet_goes_out_whole(
    stages: Seq<SendStage>,
    packet: Vec<u8>,
    actions: Seq<SendAction>,
)
    requires
        stages.len() == 5,
        actions.len() == 4,
        send_step(stages[0], SendEvent::Packet(packet), actions[0], stages[1]),
        send_step(stages[1], SendEvent::Done, actions[1], stages[2]),
        send_step(stages[2], SendEvent::Done, actions[2], stages[3]),
        send_step(stages[3], SendEvent::Done, actions[3], stages[4]),
    ensures
        actions[0] matches SendAction::Write(header) && header@.len() == 2 && header@[0] * 256
            + header@[1] == packet@.len() % 65536,
        actions[1] matches SendAction::Write(bytes) && bytes@ == packet@,
        actions[2] is Flush,
        actions[3] is Receive,
        stages[4] is Idle,
{
    crate::wire::header_is_big_endian(
        packet@.len(),
        crate::wire::header_of(packet@.len()),
    );
}

/// The next packet is waited for only where all of the last one is written and flushed;
/// bytes are written only for a packet; and the sender stops exactly where there are no
/// more packets, or where the stream failed.
pub proof fn sender_waits_when_all_is_out(
    before: SendStage,
    event: SendEvent,
    action: SendAction,
    after: SendStage,
)
    requires
        send_step(before, event, action, after),
    ensures
        action is Receive ==> after is Idle && unwritten(after).len() == 0 && event is Done && !(
        before is HeaderOut) && !(before is BodyOut),
        action is Flush ==> after is Flushing && before is BodyOut && event is Done,
        action is Write ==> event is Packet || before is HeaderOut && event is Done,
        action is Finish <==> event is Closed,
        action is Abort <==> event is Failed,
        before is HeaderOut && event is Done ==> (action matches SendAction::Write(bytes) && bytes@
            == before->HeaderOut_0),
        before is BodyOut && event is Done ==> action is Flush,
        before is Flushing && event is Done ==> action is Receive,
{
}

/// Whenever the next packet is waited for, the stream carries exactly the packets that came,
/// each whole behind its length: from the start on, what was written is their wire form.
pub proof fn stream_is_complete_when_waiting(
    stages: Seq<SendStage>,
    events: Seq<SendEvent>,
    actions: Seq<SendAction>,
)
    requires
        stages[0] is Idle,
        send_run(stages, events, actions),
        actions.len() > 0,
        actions.last() is Receive,
    ensures
        stages.last() is Idle,
        actions.map_values(
            |a: SendAction|
                match a {
                    SendAction::Write(bytes) => bytes@,
                    _ => Seq::<u8>::empty(),
                },
        ).flatten() == wire(packets_taken(events)),
{
    let n = events.len() as int;
    assert(send_step(stages[n - 1], events[n - 1], actions[n - 1], stages[n]));
    sender_waits_when_all_is_out(stages[n - 1], events[n - 1], actions[n - 1], stages[n]);
    sender_writes_packets(stages, events, actions);
    lemma_written_is_joined(actions);
    assert(bytes_written(actions) + unwritten(stages.last()) =~= bytes_written(actions));
}

proof fn lemma_written_is_joined(actions: Seq<SendAction>)
    ensures
        bytes_written(actions) == actions.map_values(
            |a: SendAction|
                match a {
                    SendAction::Write(bytes) => bytes@,
                    _ => Seq::<u8>::empty(),
                },
        ).flatten(),
    decreases actions.len(),
{
    let of = |a: SendAction|
        match a {
            SendAction::Write(bytes) => bytes@,
            _ => Seq::<u8>::empty(),
        };
    if actions.len() == 0 {
        lemma_joined_none(actions, of);
    } else {
        lemma_written_is_joined(actions.drop_last());
        lemma_joined_last(actions, of);
        assert(bytes_written(actions) =~= bytes_written(actions.drop_last()) + of(actions.last()));
    }
}

/// No packet is passed over: those that were taken are those that came, in their order.
pub proof fn taken_packets_are_those_that_came(events: Seq<SendEvent>)
    ensures
        packets_taken(events) == events.map_values(
            |e: SendEvent|
                match e {
                    SendEvent::Packet(packet) => seq![packet@],
                    _ => Seq::<Seq<u8>>::empty(),
                },
        ).flatten(),
    decreases events.len(),
{
    let of = |e: SendEvent|
        match e {
            SendEvent::Packet(packet) => seq![packet@],
            _ => Seq::<Seq<u8>>::empty(),
        };
    if events.len() == 0 {
        lemma_joined_none(events, of);
    } else {
        taken_packets_are_those_that_came(events.drop_last());
        lemma_joined_last(events, of);
        assert(packets_taken(events) =~= packets_taken(events.drop_last()) + of(events.last()));
    }
}

/// A sender that has just started waits for a packet, with nothing else to do.
pub proof fn sender_starts_by_waiting(start: (PacketSender, SendAction))
    requires
        starts_sender(start),
    ensures
        start.1 is Receive,
        start.0.stage() is Idle,
        unwritten(start.0.stage()).len() == 0,
{
}

} // verus!
