//! From a voice stream to the playback buffer: reading packets, decoding, resampling.
//!
//! The stream, the decoder and the resampler work outside. After each piece of their
//! work [`Receiver::step`] says what is to be done next.
use crate::chunks::{
    chunks_are_full, chunks_of, full_blocks_are_chunks, lemma_flatten_more, lemma_joined_last,
    lemma_joined_none, rest_of, SampleQueue,
};
use crate::playback::{
    all_offered, all_samples_tried, capacity, feed, none_offered, offered_samples_fit,
    offers_follow, one_ring, push_upmixed, upmixed, upmixed_joins, upmixed_repeats, Feed,
    PlaybackConsumer, PlaybackProducer,
};
use crate::wire::{length_in, packet_length, packets_in};
use vstd::prelude::*;

verus! {

/// What happened.
#[derive(Debug)]
pub enum ReceiveEvent {
    /// The stream gave a header.
    HeaderRead([u8; 2]),
    /// The stream gave the bytes of a packet.
    BodyRead(Vec<u8>),
    /// The stream gave no more.
    ReadFailed,
    /// The decoder filled the first `len` samples of `pcm`.
    Decoded { pcm: Vec<i16>, len: usize },
    /// The decoder gave up on a packet.
    DecodeFailed,
    /// Decoded samples, as the playback side holds them. `chunk_size` is how many the
    /// resampler takes next; without one it is not looked at.
    Converted { samples: Vec<u32>, chunk_size: usize },
    /// The resampler turned a block into these samples.
    Resampled(Vec<u32>),
    /// The resampler gave up on a block.
    ResampleFailed,
}

/// What is to be done next.
#[derive(Debug)]
pub enum ReceiveAction {
    /// Read a header.
    ReadHeader,
    /// Read this many bytes.
    ReadBody(usize),
    /// Decode this packet.
    Decode(Vec<u8>),
    /// Turn these decoded samples into those that the playback side holds.
    Convert(Vec<i16>),
    /// Resample this block.
    Resample(Vec<u32>),
    /// Stop.
    Stop,
}

/// The receiving side between two pieces of outside work.
#[derive(Debug)]
pub struct Receiver {
    resampling: bool,
    channels: usize,
    chunk_size: usize,
    pending: SampleQueue,
}

/// With `pending` waiting for the resampler, which takes `n` at a time: a full block
/// goes out, the rest waits on; where none is full the next packet is read.
pub open spec fn hands_on_chunk(
    pending: Seq<u32>,
    n: nat,
    action: ReceiveAction,
    left: Seq<u32>,
) -> bool {
    if pending.len() >= n {
        &&& action matches ReceiveAction::Resample(out)
        &&& out@ == pending.take(n as int)
        &&& left == pending.skip(n as int)
    } else {
        &&& action is ReadHeader
        &&& left == pending
    }
}

/// One step: `event` in state `before` asks for `action` and leads to `after`.
pub open spec fn receive_step(
    before: Receiver,
    event: ReceiveEvent,
    action: ReceiveAction,
    after: Receiver,
) -> bool {
    &&& after.is_resampling() == before.is_resampling()
    &&& after.channels() == before.channels()
    &&& match event {
        ReceiveEvent::Converted { samples, chunk_size } => if before.is_resampling() {
            &&& after.chunk_size() == chunk_size
            &&& hands_on_chunk(
                before.pending() + samples@,
                chunk_size as nat,
                action,
                after.pending(),
            )
        } else {
            &&& after.chunk_size() == before.chunk_size()
            &&& after.pending() == before.pending()
            &&& action is ReadHeader
        },
        ReceiveEvent::Resampled(_) | ReceiveEvent::ResampleFailed => {
            &&& after.chunk_size() == before.chunk_size()
            &&& hands_on_chunk(before.pending(), before.chunk_size(), action, after.pending())
        },
        _ => {
            &&& after.chunk_size() == before.chunk_size()
            &&& after.pending() == before.pending()
            &&& match event {
                ReceiveEvent::HeaderRead(header) => action == ReceiveAction::ReadBody(
                    length_in(header@) as usize,
                ),
                ReceiveEvent::BodyRead(packet) => action == ReceiveAction::Decode(packet),
                ReceiveEvent::Decoded { pcm, len } => {
                    &&& action matches ReceiveAction::Convert(out)
                    &&& out@ == pcm@.take(len as int)
                },
                ReceiveEvent::DecodeFailed => action is ReadHeader,
                _ => action is Stop,
            }
        },
    }
}

/// The samples that a step offers to the playback buffer: what was converted, or what
/// the resampler made of it, for every channel.
pub open spec fn offers_of(before: Receiver, event: ReceiveEvent) -> Seq<u32> {
    match event {
        ReceiveEvent::Converted { samples, chunk_size } => if before.is_resampling() {
            Seq::empty()
        } else {
            upmixed(samples@, before.channels())
        },
        ReceiveEvent::Resampled(samples) => upmixed(samples@, before.channels()),
        _ => Seq::empty(),
    }
}

/// A receiver starts with nothing waiting, and reads a header.
pub open spec fn starts_receiver(
    resampling: bool,
    channels: nat,
    start: (Receiver, ReceiveAction),
) -> bool {
    &&& start.0.is_resampling() == resampling
    &&& start.0.channels() == channels
    &&& start.0.pending().len() == 0
    &&& start.1 is ReadHeader
}

impl Receiver {
    /// Samples pass through a resampler.
    pub closed spec fn is_resampling(&self) -> bool {
        self.resampling
    }

    /// Channels of the playback device.
    pub closed spec fn channels(&self) -> nat {
        self.channels as nat
    }

    /// What the resampler takes at a time, as last heard.
    pub closed spec fn chunk_size(&self) -> nat {
        self.chunk_size as nat
    }

    /// Samples waiting for the resampler.
    pub closed spec fn pending(&self) -> Seq<u32> {
        self.pending@
    }

    /// A receiver, and what it does first. `resampling` says whether the playback
    /// device needs a resampler.
    pub fn start(resampling: bool, channels: usize) -> (r: (Self, ReceiveAction))
        ensures
            r.0.is_resampling() == resampling,
            r.0.channels() == channels,
            r.0.chunk_size() == 0,
            r.0.pending() == Seq::<u32>::empty(),
            r.1 is ReadHeader,
            starts_receiver(resampling, channels as nat, r),
    {
        (
            Receiver { resampling, channels, chunk_size: 0, pending: SampleQueue::new() },
            ReceiveAction::ReadHeader,
        )
    }

    fn next_chunk(&mut self) -> (r: ReceiveAction)
        ensures
            final(self).is_resampling() == old(self).is_resampling(),
            final(self).channels() == old(self).channels(),
            final(self).chunk_size() == old(self).chunk_size(),
            hands_on_chunk(old(self).pending(), old(self).chunk_size(), r, final(self).pending()),
    {
        match self.pending.take_chunk(self.chunk_size) {
            Some(chunk) => ReceiveAction::Resample(chunk),
            None => ReceiveAction::ReadHeader,
        }
    }

    /// Takes note of what happened, offers to the playback buffer what is ready for it,
    /// and says what to do next. The decoder cannot fill more than it was given.
    pub fn step(&mut self, producer: &mut PlaybackProducer, event: ReceiveEvent) -> (r:
        ReceiveAction)
        requires
            event matches ReceiveEvent::Decoded { pcm, len } ==> len <= pcm@.len(),
        ensures
            receive_step(*old(self), event, r, *final(self)),
            forall|c: PlaybackConsumer|
                #![trigger one_ring(*final(producer), c)]
                #![trigger one_ring(*old(producer), c)]
                one_ring(*final(producer), c) == one_ring(*old(producer), c),
            capacity(*final(producer)) == capacity(*old(producer)),
            all_offered(
                capacity(*old(producer)),
                feed(*old(producer)),
                offers_of(*old(self), event),
                feed(*final(producer)),
            ),
    {
        proof {
            none_offered(capacity(*producer), feed(*producer));
        }
        match event {
            ReceiveEvent::HeaderRead(header) => ReceiveAction::ReadBody(packet_length(header)),
            ReceiveEvent::BodyRead(packet) => ReceiveAction::Decode(packet),
            ReceiveEvent::ReadFailed => ReceiveAction::Stop,
            ReceiveEvent::Decoded { pcm, len } => {
                let mut samples: Vec<i16> = pcm;
                samples.truncate(len);
                assert(samples@ =~= pcm@.take(len as int));
                ReceiveAction::Convert(samples)
            },
            ReceiveEvent::DecodeFailed => ReceiveAction::ReadHeader,
            ReceiveEvent::Converted { samples, chunk_size } => {
                if self.resampling {
                    self.chunk_size = chunk_size;
                    self.pending.extend(&samples);
                    self.next_chunk()
                } else {
                    push_upmixed(producer, samples.as_slice(), self.channels);
                    ReceiveAction::ReadHeader
                }
            },
            ReceiveEvent::Resampled(samples) => {
                push_upmixed(producer, samples.as_slice(), self.channels);
                self.next_chunk()
            },
            ReceiveEvent::ResampleFailed => self.next_chunk(),
        }
    }
}

/// `event` is what can come of `action`.
pub open spec fn answers(action: ReceiveAction, event: ReceiveEvent) -> bool {
    match action {
        ReceiveAction::ReadHeader => event is HeaderRead || event is ReadFailed,
        ReceiveAction::ReadBody(n) => match event {
            ReceiveEvent::BodyRead(packet) => packet@.len() == n,
            _ => event is ReadFailed,
        },
        ReceiveAction::Decode(_) => event is Decoded || event is DecodeFailed,
        ReceiveAction::Convert(_) => event is Converted,
        ReceiveAction::Resample(_) => event is Resampled || event is ResampleFailed,
        ReceiveAction::Stop => false,
    }
}

/// `actions` are what is to be done before the first event and after each, and every
/// event is what came of the action before it.
pub open spec fn receive_run(
    states: Seq<Receiver>,
    events: Seq<ReceiveEvent>,
    actions: Seq<ReceiveAction>,
) -> bool {
    &&& states.len() == events.len() + 1
    &&& actions.len() == events.len() + 1
    &&& actions[0] is ReadHeader
    &&& forall|i: int|
        #![trigger events[i]]
        0 <= i < events.len() ==> {
            &&& answers(actions[i], events[i])
            &&& receive_step(states[i], events[i], actions[i + 1], states[i + 1])
        }
}

/// The bytes that the stream gave, in their order.
pub open spec fn bytes_read(events: Seq<ReceiveEvent>) -> Seq<u8>
    decreases events.len(),
{
    if events.len() == 0 {
        Seq::empty()
    } else {
        let earlier = bytes_read(events.drop_last());
        match events.last() {
            ReceiveEvent::HeaderRead(header) => earlier + header@,
            ReceiveEvent::BodyRead(packet) => earlier + packet@,
            _ => earlier,
        }
    }
}

/// The packets that were to be decoded, in their order.
pub open spec fn packets_to_decode(actions: Seq<ReceiveAction>) -> Seq<Seq<u8>>
    decreases actions.len(),
{
    if actions.len() == 0 {
        Seq::empty()
    } else {
        let earlier = packets_to_decode(actions.drop_last());
        match actions.last() {
            ReceiveAction::Decode(packet) => earlier.push(packet@),
            _ => earlier,
        }
    }
}

proof fn lemma_shorter_run(
    states: Seq<Receiver>,
    events: Seq<ReceiveEvent>,
    actions: Seq<ReceiveAction>,
)
    requires
        receive_run(states, events, actions),
        events.len() > 0,
    ensures
        receive_run(states.drop_last(), events.drop_last(), actions.drop_last()),
{
    let earlier = events.drop_last();
    assert forall|i: int|
        #![trigger earlier[i]]
        0 <= i < earlier.len() implies {
        &&& answers(actions.drop_last()[i], earlier[i])
        &&& receive_step(
            states.drop_last()[i],
            earlier[i],
            actions.drop_last()[i + 1],
            states.drop_last()[i + 1],
        )
    } by {
        assert(earlier[i] == events[i]);
    }
}

/// The last packet that was begun has been read to its end.
pub open spec fn between_packets(actions: Seq<ReceiveAction>) -> bool {
    let n = actions.len() as int;
    &&& !(actions[n - 1] is ReadBody)
    &&& n >= 2 && actions[n - 1] is Stop ==> !(actions[n - 2] is ReadBody)
}

proof fn lemma_packets_read(
    states: Seq<Receiver>,
    events: Seq<ReceiveEvent>,
    actions: Seq<ReceiveAction>,
    tail: Seq<u8>,
)
    requires
        receive_run(states, events, actions),
        between_packets(actions),
    ensures
        packets_in(bytes_read(events) + tail) == packets_to_decode(actions) + packets_in(tail),
    decreases events.len(),
{
    let n = events.len() as int;
    if n == 0 {
        reveal_with_fuel(packets_to_decode, 2);
        assert(bytes_read(events) + tail =~= tail);
        assert(packets_to_decode(actions) + packets_in(tail) =~= packets_in(tail));
    } else {
        let event = events[n - 1];
        assert(answers(actions[n - 1], event));
        assert(receive_step(states[n - 1], event, actions[n], states[n]));
        lemma_shorter_run(states, events, actions);
        assert(actions.drop_last().last() == actions[n - 1]);
        match event {
            ReceiveEvent::BodyRead(packet) => {
                let earlier = events.drop_last();
                assert(actions[n - 1] is ReadBody);
                assert(n >= 2);
                let before = earlier[n - 2];
                assert(before == events[n - 2]);
                assert(answers(actions[n - 2], before));
                assert(receive_step(states[n - 2], before, actions[n - 1], states[n - 1]));
                let header = before->HeaderRead_0;
                assert(before is HeaderRead);
                assert(!(actions[n - 2] is ReadBody));
                lemma_shorter_run(states.drop_last(), earlier, actions.drop_last());
                let head = earlier.drop_last();
                let whole = header@ + packet@ + tail;
                lemma_packets_read(
                    states.drop_last().drop_last(),
                    head,
                    actions.drop_last().drop_last(),
                    whole,
                );
                assert(earlier.last() == before);
                assert(bytes_read(earlier) == bytes_read(head) + header@);
                assert(bytes_read(events) == bytes_read(earlier) + packet@);
                assert(bytes_read(events) + tail =~= bytes_read(head) + whole);
                assert(length_in(whole) == packet@.len());
                assert(whole.subrange(2, 2 + packet@.len() as int) =~= packet@);
                assert(whole.skip(2 + packet@.len() as int) =~= tail);
                assert(packets_in(whole) == seq![packet@] + packets_in(tail));
                let decoded = packets_to_decode(actions.drop_last().drop_last());
                assert(packets_to_decode(actions.drop_last()) == decoded);
                assert(packets_to_decode(actions) == decoded.push(packet@));
                assert(decoded + (seq![packet@] + packets_in(tail)) =~= decoded.push(packet@)
                    + packets_in(tail));
            },
            _ => {
                lemma_packets_read(
                    states.drop_last(),
                    events.drop_last(),
                    actions.drop_last(),
                    tail,
                );
                assert(bytes_read(events) == bytes_read(events.drop_last()));
                assert(packets_to_decode(actions) == packets_to_decode(actions.drop_last()));
            },
        }
    }
}

/// Whatever follows on the stream, the packets that went to the decoder are the first
/// of those that stand in it, also where it breaks off inside of one.
pub proof fn receiver_reads_no_other_packets(
    states: Seq<Receiver>,
    events: Seq<ReceiveEvent>,
    actions: Seq<ReceiveAction>,
    tail: Seq<u8>,
)
    requires
        receive_run(states, events, actions),
    ensures
        packets_to_decode(actions).is_prefix_of(packets_in(bytes_read(events) + tail)),
    decreases events.len(),
{
    let n = events.len() as int;
    if between_packets(actions) {
        lemma_packets_read(states, events, actions, tail);
    } else {
        assert(answers(actions[n - 1], events[n - 1]));
        assert(receive_step(states[n - 1], events[n - 1], actions[n], states[n]));
        lemma_shorter_run(states, events, actions);
        let rest = bytes_read(events).skip(bytes_read(events.drop_last()).len() as int) + tail;
        receiver_reads_no_other_packets(
            states.drop_last(),
            events.drop_last(),
            actions.drop_last(),
            rest,
        );
        assert(bytes_read(events) + tail =~= bytes_read(events.drop_last()) + rest);
    }
}

/// The receiver finds the packets: between two packets, those that went to the decoder
/// are the packets that stand in the bytes read so far.
pub proof fn receiver_reads_packets(
    states: Seq<Receiver>,
    events: Seq<ReceiveEvent>,
    actions: Seq<ReceiveAction>,
)
    requires
        receive_run(states, events, actions),
        between_packets(actions),
    ensures
        packets_to_decode(actions) == packets_in(bytes_read(events)),
{
    lemma_packets_read(states, events, actions, Seq::empty());
    assert(bytes_read(events) + Seq::<u8>::empty() =~= bytes_read(events));
    assert(packets_to_decode(actions) + packets_in(Seq::empty()) =~= packets_to_decode(actions));
}

/// A stream that ends, also inside of a packet, is read whole: where what was read is how
/// `stream` begins, and the read that failed found too few bytes left in it, the packets
/// that went to the decoder are exactly those that stand in the stream.
pub proof fn receiver_reads_stream(
    states: Seq<Receiver>,
    events: Seq<ReceiveEvent>,
    actions: Seq<ReceiveAction>,
    stream: Seq<u8>,
)
    requires
        receive_run(states, events, actions),
        bytes_read(events).is_prefix_of(stream),
        actions.last() is Stop,
        ({
            let left = stream.len() - bytes_read(events).len();
            match actions[actions.len() - 2] {
                ReceiveAction::ReadBody(n) => left < n,
                _ => left < 2,
            }
        }),
    ensures
        packets_to_decode(actions) == packets_in(stream),
{
    let n = events.len() as int;
    let came = bytes_read(events);
    let left = stream.skip(came.len() as int);
    assert(stream =~= came + left);
    assert(n > 0);
    assert(answers(actions[n - 1], events[n - 1]));
    assert(receive_step(states[n - 1], events[n - 1], actions[n], states[n]));
    assert(events.last() is ReadFailed);
    let fewer = events.drop_last();
    let asked = actions.drop_last();
    lemma_shorter_run(states, events, actions);
    assert(asked.last() == actions[n - 1]);
    assert(bytes_read(fewer) == came);
    assert(packets_to_decode(actions) == packets_to_decode(asked));
    match actions[n - 1] {
        ReceiveAction::ReadBody(len) => {
            assert(n >= 2);
            let before = fewer[n - 2];
            assert(before == events[n - 2]);
            assert(answers(actions[n - 2], before));
            assert(receive_step(states[n - 2], before, actions[n - 1], states[n - 1]));
            assert(before is HeaderRead);
            let header = before->HeaderRead_0;
            lemma_shorter_run(states.drop_last(), fewer, asked);
            let tail = header@ + left;
            assert(asked.drop_last().last() == actions[n - 2]);
            lemma_packets_read(
                states.drop_last().drop_last(),
                fewer.drop_last(),
                asked.drop_last(),
                tail,
            );
            assert(fewer.last() == before);
            assert(came == bytes_read(fewer.drop_last()) + header@);
            assert(stream =~= bytes_read(fewer.drop_last()) + tail);
            assert(packets_to_decode(asked) == packets_to_decode(asked.drop_last()));
            assert(length_in(tail) == len);
            assert(packets_in(tail) =~= Seq::<Seq<u8>>::empty());
        },
        _ => {
            lemma_packets_read(states.drop_last(), fewer, asked, left);
            assert(packets_in(left) =~= Seq::<Seq<u8>>::empty());
        },
    }
    assert(packets_to_decode(actions) + Seq::<Seq<u8>>::empty() =~= packets_to_decode(actions));
}

/// What is sent arrives: where the receiver has read exactly the bytes of the packets
/// that a sender took, those packets, in their order, went to its decoder.
pub proof fn sent_packets_arrive(
    stages: Seq<crate::send::SendStage>,
    sent: Seq<crate::send::SendEvent>,
    writes: Seq<crate::send::SendAction>,
    states: Seq<Receiver>,
    events: Seq<ReceiveEvent>,
    actions: Seq<ReceiveAction>,
)
    requires
        crate::send::send_run(stages, sent, writes),
        stages[0] is Idle,
        !(stages.last() is HeaderOut),
        crate::wire::all_short(crate::send::packets_taken(sent)),
        receive_run(states, events, actions),
        between_packets(actions),
        bytes_read(events) == crate::send::bytes_written(writes),
    ensures
        packets_to_decode(actions) == crate::send::packets_taken(sent),
{
    crate::send::sender_writes_packets(stages, sent, writes);
    assert(bytes_read(events) =~= crate::wire::wire(crate::send::packets_taken(sent)));
    crate::wire::whole_stream_reads_back(crate::send::packets_taken(sent));
    receiver_reads_packets(states, events, actions);
}

/// The samples that came for the resampler, in their order.
pub open spec fn samples_to_resample(
    states: Seq<Receiver>,
    events: Seq<ReceiveEvent>,
) -> Seq<u32>
    decreases events.len(),
{
    if events.len() == 0 {
        Seq::empty()
    } else {
        let earlier = samples_to_resample(states, events.drop_last());
        match events.last() {
            ReceiveEvent::Converted { samples, chunk_size } => if states[events.len()
                - 1].is_resampling() {
                earlier + samples@
            } else {
                earlier
            },
            _ => earlier,
        }
    }
}

/// The blocks that went to the resampler, in their order.
pub open spec fn blocks_resampled(actions: Seq<ReceiveAction>) -> Seq<Seq<u32>>
    decreases actions.len(),
{
    if actions.len() == 0 {
        Seq::empty()
    } else {
        let earlier = blocks_resampled(actions.drop_last());
        match actions.last() {
            ReceiveAction::Resample(block) => earlier.push(block@),
            _ => earlier,
        }
    }
}

proof fn lemma_same_states(states: Seq<Receiver>, more: Seq<Receiver>, events: Seq<ReceiveEvent>)
    requires
        events.len() <= states.len() <= more.len(),
        forall|i: int| 0 <= i < states.len() ==> states[i] == more[i],
    ensures
        samples_to_resample(states, events) == samples_to_resample(more, events),
    decreases events.len(),
{
    if events.len() > 0 {
        lemma_same_states(states, more, events.drop_last());
    }
}

/// No sample is lost, doubled or moved on the way to the resampler: at every moment
/// what went to it, and then what waits, is what waited first and then what came.
pub proof fn receiver_keeps_samples(
    states: Seq<Receiver>,
    events: Seq<ReceiveEvent>,
    actions: Seq<ReceiveAction>,
)
    requires
        receive_run(states, events, actions),
    ensures
        blocks_resampled(actions).flatten() + states.last().pending() == states[0].pending()
            + samples_to_resample(states, events),
    decreases events.len(),
{
    let n = events.len() as int;
    if n == 0 {
        reveal_with_fuel(blocks_resampled, 2);
        assert(Seq::<Seq<u32>>::empty().flatten() =~= Seq::<u32>::empty());
        assert(blocks_resampled(actions).flatten() + states.last().pending()
            =~= states[0].pending() + samples_to_resample(states, events));
    } else {
        lemma_shorter_run(states, events, actions);
        receiver_keeps_samples(states.drop_last(), events.drop_last(), actions.drop_last());
        lemma_same_states(states.drop_last(), states, events.drop_last());
        assert(receive_step(states[n - 1], events[n - 1], actions[n], states[n]));
        assert(states.drop_last().last() == states[n - 1]);
        let blocks = blocks_resampled(actions.drop_last());
        let sent = blocks.flatten();
        let came = samples_to_resample(states, events.drop_last());
        let waits = states[n - 1].pending();
        assert(sent + waits == states[0].pending() + came);
        match events[n - 1] {
            ReceiveEvent::Converted { samples, chunk_size } => {
                if states[n - 1].is_resampling() {
                    assert(sent + (waits + samples@) =~= (sent + waits) + samples@);
                    assert((states[0].pending() + came) + samples@ =~= states[0].pending() + (came
                        + samples@));
                }
            },
            _ => {},
        }
        match actions[n] {
            ReceiveAction::Resample(block) => {
                lemma_flatten_more(blocks, block@);
                assert((sent + block@) + states[n].pending() =~= sent + (block@
                    + states[n].pending()));
                assert(block@ + states[n].pending() =~= (match events[n - 1] {
                    ReceiveEvent::Converted { samples, chunk_size } => waits + samples@,
                    _ => waits,
                }));
            },
            _ => {},
        }
        assert(blocks_resampled(actions).flatten() + states.last().pending()
            =~= states[0].pending() + samples_to_resample(states, events));
    }
}

/// Whenever it is asked, the resampler takes `n` samples.
pub open spec fn takes_always(events: Seq<ReceiveEvent>, n: nat) -> bool {
    forall|i: int|
        #![trigger events[i]]
        0 <= i < events.len() ==> (events[i] matches ReceiveEvent::Converted {
            samples,
            chunk_size,
        } ==> chunk_size == n)
}

/// The resampler gets full blocks only, and whenever it has nothing to do it has got
/// every full block: on a receiver that starts empty the blocks are those of all the
/// samples that were decoded, however the packets spread them, and what waits is what
/// they leave over.
pub proof fn receiver_cuts_blocks(
    states: Seq<Receiver>,
    events: Seq<ReceiveEvent>,
    actions: Seq<ReceiveAction>,
    n: nat,
)
    requires
        receive_run(states, events, actions),
        takes_always(events, n),
        n > 0,
        states[0].is_resampling(),
        states[0].pending().len() == 0,
    ensures
        states.last().is_resampling(),
        forall|i: int|
            0 <= i < blocks_resampled(actions).len() ==> (#[trigger] blocks_resampled(
                actions,
            )[i]).len() == n,
        !(actions.last() is Resample) ==> {
            let came = samples_to_resample(states, events);
            &&& blocks_resampled(actions) == chunks_of(came, n)
            &&& states.last().pending() == rest_of(came, n)
        },
        actions.last() is Resample ==> states.last().chunk_size() == n,
    decreases events.len(),
{
    let m = events.len() as int;
    let blocks = blocks_resampled(actions);
    if m == 0 {
        reveal_with_fuel(blocks_resampled, 2);
    } else {
        lemma_shorter_run(states, events, actions);
        let fewer = events.drop_last();
        assert(answers(actions[m - 1], events[m - 1]));
        assert forall|i: int| #![trigger fewer[i]] 0 <= i < fewer.len() implies (
        fewer[i] matches ReceiveEvent::Converted { samples, chunk_size } ==> chunk_size == n) by {
            assert(fewer[i] == events[i]);
        }
        receiver_cuts_blocks(states.drop_last(), fewer, actions.drop_last(), n);
        chunks_are_full(samples_to_resample(states.drop_last(), fewer), n);
        assert(receive_step(states[m - 1], events[m - 1], actions[m], states[m]));
        assert(states.drop_last().last() == states[m - 1]);
        assert(actions.drop_last().last() == actions[m - 1]);
        let earlier = blocks_resampled(actions.drop_last());
        assert forall|i: int| 0 <= i < blocks.len() implies (#[trigger] blocks[i]).len() == n by {
            if i < earlier.len() {
                assert(blocks[i] == earlier[i]);
            }
        }
    }
    if !(actions.last() is Resample) {
        receiver_keeps_samples(states, events, actions);
        let came = samples_to_resample(states, events);
        assert(states[0].pending() + came =~= came);
        assert(states.last().pending().len() < n);
        full_blocks_are_chunks(blocks, states.last().pending(), n);
    }
}

/// The samples that the steps offer to the playback buffer, in their order.
pub open spec fn all_offers(states: Seq<Receiver>, events: Seq<ReceiveEvent>) -> Seq<u32>
    decreases events.len(),
{
    if events.len() == 0 {
        Seq::empty()
    } else {
        all_offers(states, events.drop_last()) + offers_of(states[events.len() - 1], events.last())
    }
}

/// What is received goes to the sound card: over any number of steps, with `buffers` for
/// how far the buffer has got before, between and after them, it is offered the samples
/// of all the steps, one after another; with room for all of them, that is what it then
/// holds behind what it held first.
pub proof fn receiver_fills_buffer(
    states: Seq<Receiver>,
    events: Seq<ReceiveEvent>,
    size: nat,
    buffers: Seq<Feed>,
)
    requires
        states.len() == events.len() + 1,
        buffers.len() == events.len() + 1,
        forall|i: int|
            #![trigger events[i]]
            0 <= i < events.len() ==> all_offered(
                size,
                buffers[i],
                offers_of(states[i], events[i]),
                buffers[i + 1],
            ),
    ensures
        all_offered(size, buffers[0], all_offers(states, events), buffers.last()),
        buffers.last().tried == buffers[0].tried + all_offers(states, events),
        buffers[0].unread.len() + all_offers(states, events).len() <= size ==> {
            &&& buffers.last().unread == buffers[0].unread + all_offers(states, events)
            &&& buffers.last().sent == buffers[0].sent + all_offers(states, events)
        },
{
    let offers = all_offers(states, events);
    lemma_offers_so_far(states, events, size, buffers, events.len() as int);
    assert(events.take(events.len() as int) =~= events);
    all_samples_tried(size, buffers[0], offers, buffers.last());
    if buffers[0].unread.len() + offers.len() <= size {
        offered_samples_fit(size, buffers[0], offers, buffers.last());
    }
}

proof fn lemma_offers_so_far(
    states: Seq<Receiver>,
    events: Seq<ReceiveEvent>,
    size: nat,
    buffers: Seq<Feed>,
    k: int,
)
    requires
        states.len() == events.len() + 1,
        buffers.len() == events.len() + 1,
        forall|i: int|
            #![trigger events[i]]
            0 <= i < events.len() ==> all_offered(
                size,
                buffers[i],
                offers_of(states[i], events[i]),
                buffers[i + 1],
            ),
        0 <= k <= events.len(),
    ensures
        all_offered(size, buffers[0], all_offers(states, events.take(k)), buffers[k]),
    decreases k,
{
    if k == 0 {
        none_offered(size, buffers[0]);
    } else {
        lemma_offers_so_far(states, events, size, buffers, k - 1);
        assert(events.take(k).drop_last() =~= events.take(k - 1));
        offers_follow(
            size,
            buffers[0],
            all_offers(states, events.take(k - 1)),
            buffers[k - 1],
            offers_of(states[k - 1], events[k - 1]),
            buffers[k],
        );
    }
}

/// What comes off the stream goes on as it came: behind a header as many bytes are read as
/// its two bytes say, the more significant first; a packet is decoded as it was read, and
/// of what was decoded exactly the first `len` samples go on. Behind a packet that could not
/// be decoded the next one is read, and only the end of the stream stops the receiver.
pub proof fn received_bytes_go_on(
    before: Receiver,
    event: ReceiveEvent,
    action: ReceiveAction,
    after: Receiver,
)
    requires
        receive_step(before, event, action, after),
    ensures
        event matches ReceiveEvent::HeaderRead(header) ==> (action matches ReceiveAction::ReadBody(
            n,
        ) && n == header@[0] * 256 + header@[1]),
        event matches ReceiveEvent::BodyRead(packet) ==> (action matches ReceiveAction::Decode(
            bytes,
        ) && bytes@ == packet@),
        event matches ReceiveEvent::Decoded { pcm, len } ==> (len <= pcm@.len() ==> (
        action matches ReceiveAction::Convert(samples) && samples@.len() == len && samples@
            == pcm@.take(len as int))),
        event is DecodeFailed ==> action is ReadHeader,
        action is Stop <==> event is ReadFailed,
        after.is_resampling() == before.is_resampling(),
        after.channels() == before.channels(),
{
}

/// A step moves samples on to the resampler and does nothing else to them: what it hands
/// out, and then what waits, is what waited and then, where a resampler is used, what was
/// converted.
pub proof fn step_moves_samples_on(
    before: Receiver,
    event: ReceiveEvent,
    action: ReceiveAction,
    after: Receiver,
)
    requires
        receive_step(before, event, action, after),
    ensures
        ({
            let out = match action {
                ReceiveAction::Resample(block) => block@,
                _ => Seq::empty(),
            };
            let came = match event {
                ReceiveEvent::Converted { samples, chunk_size } if before.is_resampling() =>
                    samples@,
                _ => Seq::empty(),
            };
            out + after.pending() == before.pending() + came
        }),
        after.chunk_size() == (match event {
            ReceiveEvent::Converted { samples, chunk_size } if before.is_resampling() =>
                chunk_size as nat,
            _ => before.chunk_size(),
        }),
{
    let none = Seq::<u32>::empty();
    assert(before.pending() + none =~= before.pending());
    assert(none + after.pending() =~= after.pending());
    match action {
        ReceiveAction::Resample(block) => match event {
            ReceiveEvent::Converted { samples, chunk_size } => {
                assert(block@ + after.pending() =~= before.pending() + samples@);
            },
            _ => {
                assert(block@ + after.pending() =~= before.pending());
            },
        },
        _ => {},
    }
}

/// A step hands out full blocks only, and none that is full stays behind: a block has as
/// many samples as the resampler takes, and the next header is read behind samples only
/// where it can take no block; without a resampler the next header is read at once.
pub proof fn step_leaves_nothing_full(
    before: Receiver,
    event: ReceiveEvent,
    action: ReceiveAction,
    after: Receiver,
)
    requires
        receive_step(before, event, action, after),
    ensures
        action matches ReceiveAction::Resample(block) ==> block@.len() == after.chunk_size(),
        action is Resample ==> event is Resampled || event is ResampleFailed || event is Converted
            && before.is_resampling(),
        event is Resampled || event is ResampleFailed || event is Converted
            && before.is_resampling() ==> action is Resample || action is ReadHeader
            && after.pending().len() < after.chunk_size(),
        event is Converted && !before.is_resampling() ==> action is ReadHeader,
{
}

proof fn lemma_never_resamples(
    states: Seq<Receiver>,
    events: Seq<ReceiveEvent>,
    actions: Seq<ReceiveAction>,
    k: int,
)
    requires
        receive_run(states, events, actions),
        !states[0].is_resampling(),
        0 <= k <= events.len(),
    ensures
        !states[k].is_resampling(),
        !(actions[k] is Resample),
    decreases k,
{
    if k > 0 {
        lemma_never_resamples(states, events, actions, k - 1);
        assert(answers(actions[k - 1], events[k - 1]));
        assert(receive_step(states[k - 1], events[k - 1], actions[k], states[k]));
    }
}

proof fn lemma_keeps_settings(
    states: Seq<Receiver>,
    events: Seq<ReceiveEvent>,
    actions: Seq<ReceiveAction>,
    k: int,
)
    requires
        receive_run(states, events, actions),
        0 <= k <= events.len(),
    ensures
        states[k].is_resampling() == states[0].is_resampling(),
        states[k].channels() == states[0].channels(),
    decreases k,
{
    if k > 0 {
        lemma_keeps_settings(states, events, actions, k - 1);
        assert(receive_step(states[k - 1], events[k - 1], actions[k], states[k]));
    }
}

proof fn lemma_offers_converted(
    channels: nat,
    states: Seq<Receiver>,
    events: Seq<ReceiveEvent>,
    actions: Seq<ReceiveAction>,
    k: int,
)
    requires
        receive_run(states, events, actions),
        !states[0].is_resampling(),
        states[0].channels() == channels,
        0 <= k <= events.len(),
    ensures
        all_offers(states, events.take(k)) == upmixed(
            events.take(k).map_values(
                |e: ReceiveEvent|
                    match e {
                        ReceiveEvent::Converted { samples, chunk_size } => samples@,
                        _ => Seq::<u32>::empty(),
                    },
            ).flatten(),
            channels,
        ),
    decreases k,
{
    let of = |e: ReceiveEvent|
        match e {
            ReceiveEvent::Converted { samples, chunk_size } => samples@,
            _ => Seq::<u32>::empty(),
        };
    if k == 0 {
        lemma_joined_none(events.take(0), of);
    } else {
        lemma_offers_converted(channels, states, events, actions, k - 1);
        lemma_never_resamples(states, events, actions, k - 1);
        lemma_keeps_settings(states, events, actions, k - 1);
        assert(answers(actions[k - 1], events[k - 1]));
        assert(events.take(k).drop_last() =~= events.take(k - 1));
        lemma_joined_last(events.take(k), of);
        upmixed_joins(
            events.take(k - 1).map_values(of).flatten(),
            of(events[k - 1]),
            channels,
        );
        assert(upmixed(Seq::<u32>::empty(), channels) =~= Seq::<u32>::empty());
        assert(offers_of(states[k - 1], events[k - 1]) =~= upmixed(of(events[k - 1]), channels));
    }
}

proof fn lemma_offers_resampled(
    channels: nat,
    states: Seq<Receiver>,
    events: Seq<ReceiveEvent>,
    actions: Seq<ReceiveAction>,
    k: int,
)
    requires
        receive_run(states, events, actions),
        states[0].is_resampling(),
        states[0].channels() == channels,
        0 <= k <= events.len(),
    ensures
        all_offers(states, events.take(k)) == upmixed(
            events.take(k).map_values(
                |e: ReceiveEvent|
                    match e {
                        ReceiveEvent::Resampled(samples) => samples@,
                        _ => Seq::<u32>::empty(),
                    },
            ).flatten(),
            channels,
        ),
    decreases k,
{
    let of = |e: ReceiveEvent|
        match e {
            ReceiveEvent::Resampled(samples) => samples@,
            _ => Seq::<u32>::empty(),
        };
    if k == 0 {
        lemma_joined_none(events.take(0), of);
    } else {
        lemma_offers_resampled(channels, states, events, actions, k - 1);
        lemma_keeps_settings(states, events, actions, k - 1);
        assert(events.take(k).drop_last() =~= events.take(k - 1));
        lemma_joined_last(events.take(k), of);
        upmixed_joins(
            events.take(k - 1).map_values(of).flatten(),
            of(events[k - 1]),
            channels,
        );
        assert(upmixed(Seq::<u32>::empty(), channels) =~= Seq::<u32>::empty());
        assert(offers_of(states[k - 1], events[k - 1]) =~= upmixed(of(events[k - 1]), channels));
    }
}

/// All that is received is played, without a resampler: from the start on, over any number
/// of steps, with `buffers` for how far the playback buffer has got before, between and
/// after them, it is offered all the samples that were converted, joined, each once for
/// every channel, and nothing else; where there is room for them, that is what it then
/// holds behind what it held first.
pub proof fn converted_samples_are_played(
    channels: nat,
    states: Seq<Receiver>,
    events: Seq<ReceiveEvent>,
    actions: Seq<ReceiveAction>,
    size: nat,
    buffers: Seq<Feed>,
)
    requires
        starts_receiver(false, channels, (states[0], actions[0])),
        receive_run(states, events, actions),
        buffers.len() == events.len() + 1,
        forall|i: int|
            #![trigger events[i]]
            0 <= i < events.len() ==> all_offered(
                size,
                buffers[i],
                offers_of(states[i], events[i]),
                buffers[i + 1],
            ),
    ensures
        ({
            let played = events.map_values(
                |e: ReceiveEvent|
                    match e {
                        ReceiveEvent::Converted { samples, chunk_size } => samples@,
                        _ => Seq::<u32>::empty(),
                    },
            ).flatten();
            &&& buffers.last().tried == buffers[0].tried + upmixed(played, channels)
            &&& buffers[0].unread.len() + played.len() * channels <= size ==> {
                &&& buffers.last().unread == buffers[0].unread + upmixed(played, channels)
                &&& buffers.last().sent == buffers[0].sent + upmixed(played, channels)
            }
        }),
        forall|i: int| 0 <= i < actions.len() ==> !(#[trigger] actions[i] is Resample),
{
    let played = events.map_values(
        |e: ReceiveEvent|
            match e {
                ReceiveEvent::Converted { samples, chunk_size } => samples@,
                _ => Seq::<u32>::empty(),
            },
    ).flatten();
    lemma_offers_converted(channels, states, events, actions, events.len() as int);
    assert(events.take(events.len() as int) =~= events);
    receiver_fills_buffer(states, events, size, buffers);
    upmixed_repeats(played, channels);
    assert forall|i: int| 0 <= i < actions.len() implies !(#[trigger] actions[i] is Resample) by {
        lemma_never_resamples(states, events, actions, i);
    }
}

/// All that is received is played, with a resampler: from the start on, over any number of
/// steps, the playback buffer is offered all the samples that the resampler gave, joined,
/// each once for every channel, and nothing else; where there is room for them, that is
/// what it then holds behind what it held first. The resampler gets all the samples that
/// were converted, joined, but for those that still wait.
pub proof fn resampled_samples_are_played(
    channels: nat,
    states: Seq<Receiver>,
    events: Seq<ReceiveEvent>,
    actions: Seq<ReceiveAction>,
    size: nat,
    buffers: Seq<Feed>,
)
    requires
        starts_receiver(true, channels, (states[0], actions[0])),
        receive_run(states, events, actions),
        buffers.len() == events.len() + 1,
        forall|i: int|
            #![trigger events[i]]
            0 <= i < events.len() ==> all_offered(
                size,
                buffers[i],
                offers_of(states[i], events[i]),
                buffers[i + 1],
            ),
    ensures
        ({
            let played = events.map_values(
                |e: ReceiveEvent|
                    match e {
                        ReceiveEvent::Resampled(samples) => samples@,
                        _ => Seq::<u32>::empty(),
                    },
            ).flatten();
            &&& buffers.last().tried == buffers[0].tried + upmixed(played, channels)
            &&& buffers[0].unread.len() + played.len() * channels <= size ==> {
                &&& buffers.last().unread == buffers[0].unread + upmixed(played, channels)
                &&& buffers.last().sent == buffers[0].sent + upmixed(played, channels)
            }
        }),
        actions.map_values(
            |a: ReceiveAction|
                match a {
                    ReceiveAction::Resample(block) => block@,
                    _ => Seq::<u32>::empty(),
                },
        ).flatten() + states.last().pending() == events.map_values(
            |e: ReceiveEvent|
                match e {
                    ReceiveEvent::Converted { samples, chunk_size } => samples@,
                    _ => Seq::<u32>::empty(),
                },
        ).flatten(),
{
    let played = events.map_values(
        |e: ReceiveEvent|
            match e {
                ReceiveEvent::Resampled(samples) => samples@,
                _ => Seq::<u32>::empty(),
            },
    ).flatten();
    lemma_offers_resampled(channels, states, events, actions, events.len() as int);
    assert(events.take(events.len() as int) =~= events);
    receiver_fills_buffer(states, events, size, buffers);
    upmixed_repeats(played, channels);
    lemma_blocks_so_far(states, events, actions);
}

proof fn lemma_blocks_so_far(
    states: Seq<Receiver>,
    events: Seq<ReceiveEvent>,
    actions: Seq<ReceiveAction>,
)
    requires
        receive_run(states, events, actions),
        states[0].is_resampling(),
        states[0].pending().len() == 0,
    ensures
        actions.map_values(
            |a: ReceiveAction|
                match a {
                    ReceiveAction::Resample(block) => block@,
                    _ => Seq::<u32>::empty(),
                },
        ).flatten() + states.last().pending() == events.map_values(
            |e: ReceiveEvent|
                match e {
                    ReceiveEvent::Converted { samples, chunk_size } => samples@,
                    _ => Seq::<u32>::empty(),
                },
        ).flatten(),
    decreases events.len(),
{
    let block_of = |a: ReceiveAction|
        match a {
            ReceiveAction::Resample(block) => block@,
            _ => Seq::<u32>::empty(),
        };
    let samples_of = |e: ReceiveEvent|
        match e {
            ReceiveEvent::Converted { samples, chunk_size } => samples@,
            _ => Seq::<u32>::empty(),
        };
    let n = events.len() as int;
    lemma_joined_last(actions, block_of);
    let blocks = actions.drop_last().map_values(block_of).flatten();
    if n == 0 {
        lemma_joined_none(actions.drop_last(), block_of);
        lemma_joined_none(events, samples_of);
        assert(actions.map_values(block_of).flatten() + states.last().pending() =~= Seq::<
            u32,
        >::empty());
    } else {
        let (before, event, action, after) = (states[n - 1], events[n - 1], actions[n], states[n]);
        lemma_shorter_run(states, events, actions);
        lemma_blocks_so_far(states.drop_last(), events.drop_last(), actions.drop_last());
        lemma_joined_last(events, samples_of);
        lemma_keeps_settings(states, events, actions, n - 1);
        assert(receive_step(before, event, action, after));
        assert(states.drop_last().last() == before);
        step_moves_samples_on(before, event, action, after);
        let came = events.drop_last().map_values(samples_of).flatten();
        assert(blocks + before.pending() == came);
        assert((blocks + block_of(action)) + after.pending() =~= blocks + (block_of(action)
            + after.pending()));
        assert(blocks + (before.pending() + samples_of(event)) =~= (blocks + before.pending())
            + samples_of(event));
    }
}

/// A receiver that has just started reads a header, with nothing else to do.
pub proof fn receiver_starts_by_reading(
    resampling: bool,
    channels: nat,
    start: (Receiver, ReceiveAction),
)
    requires
        starts_receiver(resampling, channels, start),
    ensures
        start.1 is ReadHeader,
        start.0.is_resampling() == resampling,
        start.0.channels() == channels,
        start.0.pending() == Seq::<u32>::empty(),
{
}

} // verus!
