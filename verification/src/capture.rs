//! From the microphone to packets: resampling, cutting into frames, encoding.
//!
//! The resampler and the encoder work outside. After each piece of their work
//! [`Capture::step`] says what is to be done next.
use crate::audio::{MAX_PACKET_BYTES, OPUS_FRAME_SAMPLES};
use crate::chunks::{
    chunks_are_full, chunks_of, full_blocks_are_chunks, lemma_flatten_more, lemma_joined_last,
    lemma_joined_none, rest_of, SampleQueue,
};
use crate::wire::all_short;
use vstd::prelude::*;

verus! {

/// What happened.
#[derive(Debug)]
pub enum CaptureEvent {
    /// The microphone delivered mono samples. `chunk_size` is how many the resampler
    /// takes next; without one it is not looked at.
    Samples { samples: Vec<u32>, chunk_size: usize },
    /// The microphone is gone.
    Closed,
    /// The resampler turned a block into these samples.
    Resampled(Vec<u32>),
    /// The resampler gave up on a block.
    ResampleFailed,
    /// The encoder filled the first `len` bytes of `buffer`.
    Encoded { buffer: Vec<u8>, len: usize },
    /// The encoder gave up on a frame.
    EncodeFailed,
    /// A packet was handed on.
    Sent,
}

/// What is to be done next.
#[derive(Debug)]
pub enum CaptureAction {
    /// Wait for the microphone.
    Receive,
    /// Resample this block.
    Resample(Vec<u32>),
    /// Encode this frame.
    Encode(Vec<u32>),
    /// Hand this packet on.
    Send(Vec<u8>),
    /// Stop.
    Finish,
}

/// The capture side between two pieces of outside work.
#[derive(Debug)]
pub struct Capture {
    resampling: bool,
    chunk_size: usize,
    pending: SampleQueue,
    frame: SampleQueue,
}

/// With `frame` waiting for the encoder: a full frame goes out, the rest waits on;
/// where no frame is full the microphone is next.
pub open spec fn hands_out_frame(frame: Seq<u32>, action: CaptureAction, left: Seq<u32>) -> bool {
    if frame.len() >= OPUS_FRAME_SAMPLES {
        &&& action matches CaptureAction::Encode(out)
        &&& out@ == frame.take(OPUS_FRAME_SAMPLES as int)
        &&& left == frame.skip(OPUS_FRAME_SAMPLES as int)
    } else {
        &&& action is Receive
        &&& left == frame
    }
}

/// With `pending` waiting for the resampler, which takes `n` at a time, and `frame`
/// waiting for the encoder: a full block goes out to the resampler, and only where
/// none is full are frames looked at.
pub open spec fn hands_out_chunk(
    pending: Seq<u32>,
    n: nat,
    frame: Seq<u32>,
    action: CaptureAction,
    left: Seq<u32>,
    frame_left: Seq<u32>,
) -> bool {
    if pending.len() >= n {
        &&& action matches CaptureAction::Resample(out)
        &&& out@ == pending.take(n as int)
        &&& left == pending.skip(n as int)
        &&& frame_left == frame
    } else {
        &&& left == pending
        &&& hands_out_frame(frame, action, frame_left)
    }
}

/// The bytes that the encoder filled.
pub open spec fn filled(buffer: Seq<u8>, len: nat) -> Seq<u8> {
    if len < buffer.len() {
        buffer.take(len as int)
    } else {
        buffer
    }
}

/// One step: `event` in state `before` asks for `action` and leads to `after`.
pub open spec fn capture_step(
    before: Capture,
    event: CaptureEvent,
    action: CaptureAction,
    after: Capture,
) -> bool {
    &&& after.is_resampling() == before.is_resampling()
    &&& match event {
        CaptureEvent::Samples { samples, chunk_size } => if before.is_resampling() {
            &&& after.chunk_size() == chunk_size
            &&& hands_out_chunk(
                before.pending() + samples@,
                chunk_size as nat,
                before.frame(),
                action,
                after.pending(),
                after.frame(),
            )
        } else {
            &&& after.chunk_size() == before.chunk_size()
            &&& after.pending() == before.pending()
            &&& hands_out_frame(before.frame() + samples@, action, after.frame())
        },
        CaptureEvent::Resampled(samples) => {
            &&& after.chunk_size() == before.chunk_size()
            &&& hands_out_chunk(
                before.pending(),
                before.chunk_size(),
                before.frame() + samples@,
                action,
                after.pending(),
                after.frame(),
            )
        },
        CaptureEvent::ResampleFailed => {
            &&& after.chunk_size() == before.chunk_size()
            &&& hands_out_chunk(
                before.pending(),
                before.chunk_size(),
                before.frame(),
                action,
                after.pending(),
                after.frame(),
            )
        },
        CaptureEvent::EncodeFailed | CaptureEvent::Sent => {
            &&& after.chunk_size() == before.chunk_size()
            &&& after.pending() == before.pending()
            &&& hands_out_frame(before.frame(), action, after.frame())
        },
        CaptureEvent::Encoded { buffer, len } => {
            &&& after.chunk_size() == before.chunk_size()
            &&& after.pending() == before.pending()
            &&& after.frame() == before.frame()
            &&& action matches CaptureAction::Send(packet)
            &&& packet@ == filled(buffer@, len as nat)
        },
        CaptureEvent::Closed => {
            &&& after.chunk_size() == before.chunk_size()
            &&& after.pending() == before.pending()
            &&& after.frame() == before.frame()
            &&& action is Finish
        },
    }
}

/// A capture side starts with nothing waiting, and waits for the microphone.
pub open spec fn starts_capture(resampling: bool, start: (Capture, CaptureAction)) -> bool {
    &&& start.0.is_resampling() == resampling
    &&& start.0.pending().len() == 0
    &&& start.0.frame().len() == 0
    &&& start.1 is Receive
}

impl Capture {
    /// Samples pass through a resampler.
    pub closed spec fn is_resampling(&self) -> bool {
        self.resampling
    }

    /// What the resampler takes at a time, as last heard.
    pub closed spec fn chunk_size(&self) -> nat {
        self.chunk_size as nat
    }

    /// Samples waiting for the resampler.
    pub closed spec fn pending(&self) -> Seq<u32> {
        self.pending@
    }

    /// Samples waiting for the encoder.
    pub closed spec fn frame(&self) -> Seq<u32> {
        self.frame@
    }

    /// A capture side, and what it does first. `resampling` says whether the device
    /// needs a resampler.
    pub fn start(resampling: bool) -> (r: (Self, CaptureAction))
        ensures
            r.0.is_resampling() == resampling,
            r.0.chunk_size() == 0,
            r.0.pending() == Seq::<u32>::empty(),
            r.0.frame() == Seq::<u32>::empty(),
            r.1 is Receive,
            starts_capture(resampling, r),
    {
        (
            Capture {
                resampling,
                chunk_size: 0,
                pending: SampleQueue::new(),
                frame: SampleQueue::new(),
            },
            CaptureAction::Receive,
        )
    }

    fn next_frame(&mut self) -> (r: CaptureAction)
        ensures
            final(self).is_resampling() == old(self).is_resampling(),
            final(self).chunk_size() == old(self).chunk_size(),
            final(self).pending() == old(self).pending(),
            hands_out_frame(old(self).frame(), r, final(self).frame()),
    {
        match self.frame.take_chunk(OPUS_FRAME_SAMPLES) {
            Some(frame) => CaptureAction::Encode(frame),
            None => CaptureAction::Receive,
        }
    }

    fn next_chunk(&mut self) -> (r: CaptureAction)
        ensures
            final(self).is_resampling() == old(self).is_resampling(),
            final(self).chunk_size() == old(self).chunk_size(),
            hands_out_chunk(
                old(self).pending(),
                old(self).chunk_size(),
                old(self).frame(),
                r,
                final(self).pending(),
                final(self).frame(),
            ),
    {
        match self.pending.take_chunk(self.chunk_size) {
            Some(chunk) => CaptureAction::Resample(chunk),
            None => self.next_frame(),
        }
    }

    /// Takes note of what happened and says what to do next.
    pub fn step(&mut self, event: CaptureEvent) -> (r: CaptureAction)
        ensures
            capture_step(*old(self), event, r, *final(self)),
    {
        match event {
            CaptureEvent::Samples { samples, chunk_size } => {
                if self.resampling {
                    self.chunk_size = chunk_size;
                    self.pending.extend(&samples);
                    self.next_chunk()
                } else {
                    self.frame.extend(&samples);
                    self.next_frame()
                }
            },
            CaptureEvent::Closed => CaptureAction::Finish,
            CaptureEvent::Resampled(samples) => {
                self.frame.extend(&samples);
                self.next_chunk()
            },
            CaptureEvent::ResampleFailed => self.next_chunk(),
            CaptureEvent::Encoded { buffer, len } => {
                let mut packet: Vec<u8> = buffer;
                packet.truncate(len);
                assert(packet@ =~= filled(buffer@, len as nat));
                CaptureAction::Send(packet)
            },
            CaptureEvent::EncodeFailed => self.next_frame(),
            CaptureEvent::Sent => self.next_frame(),
        }
    }
}

/// A packet is no longer than the room that the encoder was given, so its length fits
/// in the header that it travels behind.
pub proof fn packets_are_bounded(buffer: Seq<u8>, len: nat)
    ensures
        filled(buffer, len).len() <= buffer.len(),
        filled(buffer, len) == buffer.take(filled(buffer, len).len() as int),
        buffer.len() == MAX_PACKET_BYTES ==> all_short(seq![filled(buffer, len)]),
{
    assert(filled(buffer, len) =~= buffer.take(filled(buffer, len).len() as int));
}

/// `states` are those before, between and after the steps that `events` and `actions`
/// belong to.
pub open spec fn capture_run(
    states: Seq<Capture>,
    events: Seq<CaptureEvent>,
    actions: Seq<CaptureAction>,
) -> bool {
    &&& states.len() == events.len() + 1
    &&& actions.len() == events.len()
    &&& forall|i: int|
        #![trigger events[i]]
        0 <= i < events.len() ==> capture_step(states[i], events[i], actions[i], states[i + 1])
}

/// The samples that came for the resampler, in their order.
pub open spec fn samples_to_resample(resampling: bool, events: Seq<CaptureEvent>) -> Seq<u32>
    decreases events.len(),
{
    if events.len() == 0 {
        Seq::empty()
    } else {
        let earlier = samples_to_resample(resampling, events.drop_last());
        match events.last() {
            CaptureEvent::Samples { samples, chunk_size } => if resampling {
                earlier + samples@
            } else {
                earlier
            },
            _ => earlier,
        }
    }
}

/// The samples that came for the encoder, in their order: those of the microphone, or
/// what the resampler made of them.
pub open spec fn samples_to_encode(resampling: bool, events: Seq<CaptureEvent>) -> Seq<u32>
    decreases events.len(),
{
    if events.len() == 0 {
        Seq::empty()
    } else {
        let earlier = samples_to_encode(resampling, events.drop_last());
        match events.last() {
            CaptureEvent::Samples { samples, chunk_size } => if resampling {
                earlier
            } else {
                earlier + samples@
            },
            CaptureEvent::Resampled(samples) => earlier + samples@,
            _ => earlier,
        }
    }
}

/// The blocks that went to the resampler, in their order.
pub open spec fn blocks_resampled(actions: Seq<CaptureAction>) -> Seq<Seq<u32>>
    decreases actions.len(),
{
    if actions.len() == 0 {
        Seq::empty()
    } else {
        let earlier = blocks_resampled(actions.drop_last());
        match actions.last() {
            CaptureAction::Resample(block) => earlier.push(block@),
            _ => earlier,
        }
    }
}

/// The frames that went to the encoder, in their order.
pub open spec fn frames_encoded(actions: Seq<CaptureAction>) -> Seq<Seq<u32>>
    decreases actions.len(),
{
    if actions.len() == 0 {
        Seq::empty()
    } else {
        let earlier = frames_encoded(actions.drop_last());
        match actions.last() {
            CaptureAction::Encode(frame) => earlier.push(frame@),
            _ => earlier,
        }
    }
}

proof fn lemma_shorter_run(
    states: Seq<Capture>,
    events: Seq<CaptureEvent>,
    actions: Seq<CaptureAction>,
)
    requires
        capture_run(states, events, actions),
        events.len() > 0,
    ensures
        capture_run(states.drop_last(), events.drop_last(), actions.drop_last()),
{
    let earlier = events.drop_last();
    assert forall|i: int|
        #![trigger earlier[i]]
        0 <= i < earlier.len() implies capture_step(
        states.drop_last()[i],
        earlier[i],
        actions.drop_last()[i],
        states.drop_last()[i + 1],
    ) by {
        assert(earlier[i] == events[i]);
    }
}

proof fn lemma_moves_on(
    out: Seq<u32>,
    waits: Seq<u32>,
    first: Seq<u32>,
    came: Seq<u32>,
    more: Seq<u32>,
    block: Seq<u32>,
    left: Seq<u32>,
)
    requires
        out + waits == first + came,
        waits + more == block + left,
    ensures
        (out + block) + left == first + (came + more),
{
    assert((out + block) + left =~= out + (block + left));
    assert(out + (waits + more) =~= (out + waits) + more);
    assert((first + came) + more =~= first + (came + more));
}

/// No sample is lost, doubled or moved on the way to the resampler and to the encoder:
/// at every moment what went to either of them, and then what waits for it, is what
/// waited first and then what came for it.
pub proof fn capture_keeps_samples(
    states: Seq<Capture>,
    events: Seq<CaptureEvent>,
    actions: Seq<CaptureAction>,
)
    requires
        capture_run(states, events, actions),
    ensures
        states.last().is_resampling() == states[0].is_resampling(),
        blocks_resampled(actions).flatten() + states.last().pending() == states[0].pending()
            + samples_to_resample(states[0].is_resampling(), events),
        frames_encoded(actions).flatten() + states.last().frame() == states[0].frame()
            + samples_to_encode(states[0].is_resampling(), events),
    decreases events.len(),
{
    let n = events.len() as int;
    let resampling = states[0].is_resampling();
    if n == 0 {
        assert(Seq::<Seq<u32>>::empty().flatten() =~= Seq::<u32>::empty());
        assert(blocks_resampled(actions).flatten() + states[0].pending() =~= states[0].pending()
            + samples_to_resample(resampling, events));
        assert(frames_encoded(actions).flatten() + states[0].frame() =~= states[0].frame()
            + samples_to_encode(resampling, events));
    } else {
        lemma_shorter_run(states, events, actions);
        capture_keeps_samples(states.drop_last(), events.drop_last(), actions.drop_last());
        let before = states[n - 1];
        let after = states[n];
        let event = events[n - 1];
        let action = actions[n - 1];
        assert(capture_step(before, event, action, after));
        assert(states.drop_last().last() == before);
        let blocks = blocks_resampled(actions.drop_last());
        let frames = frames_encoded(actions.drop_last());
        let none = Seq::<u32>::empty();
        let to_resample = match event {
            CaptureEvent::Samples { samples, chunk_size } => if resampling {
                samples@
            } else {
                none
            },
            _ => none,
        };
        let to_encode = match event {
            CaptureEvent::Samples { samples, chunk_size } => if resampling {
                none
            } else {
                samples@
            },
            CaptureEvent::Resampled(samples) => samples@,
            _ => none,
        };
        let block = match action {
            CaptureAction::Resample(out) => out@,
            _ => none,
        };
        let frame = match action {
            CaptureAction::Encode(out) => out@,
            _ => none,
        };
        let came_resample = samples_to_resample(resampling, events.drop_last());
        let came_encode = samples_to_encode(resampling, events.drop_last());
        assert(samples_to_resample(resampling, events) =~= came_resample + to_resample);
        assert(samples_to_encode(resampling, events) =~= came_encode + to_encode);
        assert(before.pending() + none =~= before.pending());
        assert(before.frame() + none =~= before.frame());
        assert(before.pending() + to_resample =~= block + after.pending());
        assert(before.frame() + to_encode =~= frame + after.frame());
        lemma_moves_on(
            blocks.flatten(),
            before.pending(),
            states[0].pending(),
            came_resample,
            to_resample,
            block,
            after.pending(),
        );
        lemma_moves_on(
            frames.flatten(),
            before.frame(),
            states[0].frame(),
            came_encode,
            to_encode,
            frame,
            after.frame(),
        );
        lemma_flatten_more(blocks, block);
        lemma_flatten_more(frames, frame);
        assert(blocks.flatten() + none =~= blocks.flatten());
        assert(frames.flatten() + none =~= frames.flatten());
    }
}

/// The encoder gets full frames only, and whenever the microphone is next, and when it is
/// gone, it has got every full frame: on a capture side that starts empty the frames are
/// those of all the samples that came for it, however the microphone spread them, and
/// what waits is what they leave over.
pub proof fn capture_cuts_frames(
    states: Seq<Capture>,
    events: Seq<CaptureEvent>,
    actions: Seq<CaptureAction>,
)
    requires
        capture_run(states, events, actions),
        states[0].frame().len() == 0,
    ensures
        forall|i: int|
            0 <= i < frames_encoded(actions).len() ==> (#[trigger] frames_encoded(actions)[i]).len()
                == OPUS_FRAME_SAMPLES,
        actions.len() > 0 && (actions.last() is Receive || actions.last() is Finish && all_answered(
            events,
            actions,
        )) ==> {
            let came = samples_to_encode(states[0].is_resampling(), events);
            &&& frames_encoded(actions) == chunks_of(came, OPUS_FRAME_SAMPLES as nat)
            &&& states.last().frame() == rest_of(came, OPUS_FRAME_SAMPLES as nat)
        },
    decreases events.len(),
{
    let n = events.len() as int;
    if n > 0 {
        lemma_shorter_run(states, events, actions);
        capture_cuts_frames(states.drop_last(), events.drop_last(), actions.drop_last());
        assert(capture_step(states[n - 1], events[n - 1], actions[n - 1], states[n]));
        let frames = frames_encoded(actions);
        let earlier = frames_encoded(actions.drop_last());
        assert forall|i: int| 0 <= i < frames.len() implies (#[trigger] frames[i]).len()
            == OPUS_FRAME_SAMPLES by {
            if i < earlier.len() {
                assert(frames[i] == earlier[i]);
            }
        }
        if actions.last() is Finish && all_answered(events, actions) {
            assert(events[n - 1] is Closed);
            if n > 1 {
                assert(answers(actions[n - 2], events[n - 1]));
                assert(actions.drop_last().last() is Receive);
                assert(states.drop_last().last() == states[n - 1]);
            }
            assert(states[n].frame().len() < OPUS_FRAME_SAMPLES);
        }
        if actions.last() is Receive || actions.last() is Finish && all_answered(events, actions) {
            capture_keeps_samples(states, events, actions);
            let came = samples_to_encode(states[0].is_resampling(), events);
            assert(states[0].frame() + came =~= came);
            full_blocks_are_chunks(frames, states.last().frame(), OPUS_FRAME_SAMPLES as nat);
        }
    }
}

/// `event` is what can come of `action`.
pub open spec fn answers(action: CaptureAction, event: CaptureEvent) -> bool {
    match action {
        CaptureAction::Receive => event is Samples || event is Closed,
        CaptureAction::Resample(_) => event is Resampled || event is ResampleFailed,
        CaptureAction::Encode(_) => event is Encoded || event is EncodeFailed,
        CaptureAction::Send(_) => event is Sent,
        CaptureAction::Finish => false,
    }
}

/// Every event is what came of the action before it; the microphone is first.
pub open spec fn all_answered(events: Seq<CaptureEvent>, actions: Seq<CaptureAction>) -> bool {
    forall|i: int|
        #![trigger events[i]]
        0 <= i < events.len() ==> answers(
            if i == 0 {
                CaptureAction::Receive
            } else {
                actions[i - 1]
            },
            events[i],
        )
}

proof fn lemma_shorter_answered(events: Seq<CaptureEvent>, actions: Seq<CaptureAction>)
    requires
        all_answered(events, actions),
        events.len() > 0,
        actions.len() == events.len(),
    ensures
        all_answered(events.drop_last(), actions.drop_last()),
{
    let fewer = events.drop_last();
    assert forall|i: int| #![trigger fewer[i]] 0 <= i < fewer.len() implies answers(
        if i == 0 {
            CaptureAction::Receive
        } else {
            actions.drop_last()[i - 1]
        },
        fewer[i],
    ) by {
        assert(fewer[i] == events[i]);
    }
}

/// The packets that were handed on, in their order.
pub open spec fn packets_handed_on(actions: Seq<CaptureAction>) -> Seq<Seq<u8>>
    decreases actions.len(),
{
    if actions.len() == 0 {
        Seq::empty()
    } else {
        let earlier = packets_handed_on(actions.drop_last());
        match actions.last() {
            CaptureAction::Send(packet) => earlier.push(packet@),
            _ => earlier,
        }
    }
}

/// The packets that the encoder made, in their order: what it filled of its buffers.
pub open spec fn packets_encoded(events: Seq<CaptureEvent>) -> Seq<Seq<u8>>
    decreases events.len(),
{
    if events.len() == 0 {
        Seq::empty()
    } else {
        let earlier = packets_encoded(events.drop_last());
        match events.last() {
            CaptureEvent::Encoded { buffer, len } => earlier.push(filled(buffer@, len as nat)),
            _ => earlier,
        }
    }
}

/// How many frames the encoder gave up on.
pub open spec fn encode_failures(events: Seq<CaptureEvent>) -> nat
    decreases events.len(),
{
    if events.len() == 0 {
        0
    } else {
        encode_failures(events.drop_last()) + (if events.last() is EncodeFailed {
            1nat
        } else {
            0nat
        })
    }
}

/// What leaves the capture side is what the encoder made: its packets, all of them, in
/// their order, and nothing else.
pub proof fn capture_hands_on_packets(
    states: Seq<Capture>,
    events: Seq<CaptureEvent>,
    actions: Seq<CaptureAction>,
)
    requires
        capture_run(states, events, actions),
    ensures
        packets_handed_on(actions) == packets_encoded(events),
    decreases events.len(),
{
    let n = events.len() as int;
    if n > 0 {
        lemma_shorter_run(states, events, actions);
        capture_hands_on_packets(states.drop_last(), events.drop_last(), actions.drop_last());
        assert(capture_step(states[n - 1], events[n - 1], actions[n - 1], states[n]));
    }
}

/// Each frame that the encoder got leaves as one packet, unless it gave up on it or is
/// still at work on it.
pub proof fn each_frame_is_one_packet(
    states: Seq<Capture>,
    events: Seq<CaptureEvent>,
    actions: Seq<CaptureAction>,
)
    requires
        capture_run(states, events, actions),
        all_answered(events, actions),
    ensures
        frames_encoded(actions).len() == packets_handed_on(actions).len() + encode_failures(events)
            + (if actions.len() > 0 && actions.last() is Encode {
            1nat
        } else {
            0nat
        }),
    decreases events.len(),
{
    let n = events.len() as int;
    if n > 0 {
        lemma_shorter_run(states, events, actions);
        lemma_shorter_answered(events, actions);
        each_frame_is_one_packet(states.drop_last(), events.drop_last(), actions.drop_last());
        assert(capture_step(states[n - 1], events[n - 1], actions[n - 1], states[n]));
        assert(answers(
            if n == 1 {
                CaptureAction::Receive
            } else {
                actions[n - 2]
            },
            events[n - 1],
        ));
        if n > 1 {
            assert(actions.drop_last().last() == actions[n - 2]);
        }
    }
}

/// Where the encoder never gives up, one packet leaves for every full frame of the
/// samples that came for it: so it is whenever the microphone is next, and when it is
/// gone, on a capture side that starts empty.
pub proof fn every_full_frame_leaves(
    states: Seq<Capture>,
    events: Seq<CaptureEvent>,
    actions: Seq<CaptureAction>,
)
    requires
        capture_run(states, events, actions),
        all_answered(events, actions),
        states[0].frame().len() == 0,
        encode_failures(events) == 0,
        actions.len() > 0,
        actions.last() is Receive || actions.last() is Finish,
    ensures
        packets_handed_on(actions).len() == chunks_of(
            samples_to_encode(states[0].is_resampling(), events),
            OPUS_FRAME_SAMPLES as nat,
        ).len(),
{
    each_frame_is_one_packet(states, events, actions);
    capture_cuts_frames(states, events, actions);
}

/// Where the encoder has the room meant for it, every packet that leaves is short enough
/// for the header that it travels behind.
pub proof fn packets_handed_on_are_short(
    states: Seq<Capture>,
    events: Seq<CaptureEvent>,
    actions: Seq<CaptureAction>,
)
    requires
        capture_run(states, events, actions),
        forall|i: int|
            #![trigger events[i]]
            0 <= i < events.len() ==> (events[i] matches CaptureEvent::Encoded { buffer, len }
                ==> buffer@.len() == MAX_PACKET_BYTES),
    ensures
        all_short(packets_handed_on(actions)),
    decreases events.len(),
{
    let n = events.len() as int;
    if n > 0 {
        lemma_shorter_run(states, events, actions);
        let fewer = events.drop_last();
        assert forall|i: int| #![trigger fewer[i]] 0 <= i < fewer.len() implies (
        fewer[i] matches CaptureEvent::Encoded { buffer, len } ==> buffer@.len()
            == MAX_PACKET_BYTES) by {
            assert(fewer[i] == events[i]);
        }
        packets_handed_on_are_short(states.drop_last(), fewer, actions.drop_last());
        assert(capture_step(states[n - 1], events[n - 1], actions[n - 1], states[n]));
        let packets = packets_handed_on(actions);
        let earlier = packets_handed_on(actions.drop_last());
        assert forall|i: int| 0 <= i < packets.len() implies (#[trigger] packets[i]).len()
            < 65536 by {
            if i < earlier.len() {
                assert(packets[i] == earlier[i]);
            }
        }
    }
}

/// Whenever it is asked, the resampler takes `n` samples.
pub open spec fn takes_always(events: Seq<CaptureEvent>, n: nat) -> bool {
    forall|i: int|
        #![trigger events[i]]
        0 <= i < events.len() ==> (events[i] matches CaptureEvent::Samples { samples, chunk_size }
            ==> chunk_size == n)
}

/// The resampler gets full blocks only, and whenever it has nothing to do it has got
/// every full block: on a capture side that starts empty the blocks are those of all
/// the samples of the microphone, however it spread them, and what waits is what they
/// leave over.
pub proof fn capture_cuts_blocks(
    states: Seq<Capture>,
    events: Seq<CaptureEvent>,
    actions: Seq<CaptureAction>,
    n: nat,
)
    requires
        capture_run(states, events, actions),
        all_answered(events, actions),
        takes_always(events, n),
        n > 0,
        states[0].is_resampling(),
        states[0].pending().len() == 0,
    ensures
        forall|i: int|
            0 <= i < blocks_resampled(actions).len() ==> (#[trigger] blocks_resampled(
                actions,
            )[i]).len() == n,
        events.len() == 0 || !(actions.last() is Resample) ==> {
            let came = samples_to_resample(true, events);
            &&& blocks_resampled(actions) == chunks_of(came, n)
            &&& states.last().pending() == rest_of(came, n)
        },
        events.len() > 0 && !(actions.last() is Finish) ==> states.last().chunk_size() == n,
    decreases events.len(),
{
    let m = events.len() as int;
    let blocks = blocks_resampled(actions);
    if m > 0 {
        lemma_shorter_run(states, events, actions);
        let fewer = events.drop_last();
        let event = events[m - 1];
        assert(answers(
            if m == 1 {
                CaptureAction::Receive
            } else {
                actions[m - 2]
            },
            event,
        ));
        lemma_shorter_answered(events, actions);
        assert forall|i: int| #![trigger fewer[i]] 0 <= i < fewer.len() implies (
        fewer[i] matches CaptureEvent::Samples { samples, chunk_size } ==> chunk_size == n) by {
            assert(fewer[i] == events[i]);
        }
        capture_cuts_blocks(states.drop_last(), fewer, actions.drop_last(), n);
        chunks_are_full(samples_to_resample(true, fewer), n);
        assert(capture_step(states[m - 1], event, actions[m - 1], states[m]));
        assert(states.drop_last().last() == states[m - 1]);
        capture_keeps_samples(states.drop_last(), fewer, actions.drop_last());
        let earlier = blocks_resampled(actions.drop_last());
        assert forall|i: int| 0 <= i < blocks.len() implies (#[trigger] blocks[i]).len() == n by {
            if i < earlier.len() {
                assert(blocks[i] == earlier[i]);
            }
        }
    }
    if m == 0 || !(actions.last() is Resample) {
        capture_keeps_samples(states, events, actions);
        let came = samples_to_resample(true, events);
        assert(states[0].pending() + came =~= came);
        assert(states.last().pending().len() < n);
        full_blocks_are_chunks(blocks, states.last().pending(), n);
    }
}

/// A step moves samples on and does nothing else to them: what it hands to the resampler,
/// and then what waits for it, is what waited and then what the microphone delivered for
/// it; and what it hands to the encoder, and then what waits for that, is what waited and
/// then what came for it, from the microphone or, where one is used, from the resampler.
pub proof fn step_moves_samples_on(
    before: Capture,
    event: CaptureEvent,
    action: CaptureAction,
    after: Capture,
)
    requires
        capture_step(before, event, action, after),
    ensures
        ({
            let out = match action {
                CaptureAction::Resample(block) => block@,
                _ => Seq::empty(),
            };
            let came = match event {
                CaptureEvent::Samples { samples, chunk_size } if before.is_resampling() => samples@,
                _ => Seq::empty(),
            };
            out + after.pending() == before.pending() + came
        }),
        ({
            let out = match action {
                CaptureAction::Encode(frame) => frame@,
                _ => Seq::empty(),
            };
            let came = match event {
                CaptureEvent::Samples { samples, chunk_size } if !before.is_resampling() => samples@,
                CaptureEvent::Resampled(samples) => samples@,
                _ => Seq::empty(),
            };
            out + after.frame() == before.frame() + came
        }),
        after.is_resampling() == before.is_resampling(),
        after.chunk_size() == (match event {
            CaptureEvent::Samples { samples, chunk_size } if before.is_resampling() =>
                chunk_size as nat,
            _ => before.chunk_size(),
        }),
{
    let none = Seq::<u32>::empty();
    assert(before.pending() + none =~= before.pending());
    assert(before.frame() + none =~= before.frame());
    assert(none + after.pending() =~= after.pending());
    assert(none + after.frame() =~= after.frame());
    match event {
        CaptureEvent::Samples { samples, chunk_size } => {
            let whole = if before.is_resampling() {
                before.pending() + samples@
            } else {
                before.frame() + samples@
            };
            match action {
                CaptureAction::Resample(block) => {
                    assert(block@ + after.pending() =~= whole);
                },
                CaptureAction::Encode(frame) => {
                    if before.is_resampling() {
                        assert(frame@ + after.frame() =~= before.frame());
                    } else {
                        assert(frame@ + after.frame() =~= whole);
                    }
                },
                _ => {},
            }
        },
        CaptureEvent::Resampled(samples) => {
            let whole = before.frame() + samples@;
            match action {
                CaptureAction::Resample(block) => {
                    assert(block@ + after.pending() =~= before.pending());
                },
                CaptureAction::Encode(frame) => {
                    assert(frame@ + after.frame() =~= whole);
                },
                _ => {},
            }
        },
        _ => match action {
            CaptureAction::Resample(block) => {
                assert(block@ + after.pending() =~= before.pending());
            },
            CaptureAction::Encode(frame) => {
                assert(frame@ + after.frame() =~= before.frame());
            },
            _ => {},
        },
    }
}

/// A step hands out full blocks and full frames only, and none that is full stays behind:
/// a block has as many samples as the resampler takes, a frame 960; the microphone is
/// waited for only where no frame is full, and frames are looked at behind the resampler
/// only where it can take no block.
pub proof fn step_leaves_nothing_full(
    before: Capture,
    event: CaptureEvent,
    action: CaptureAction,
    after: Capture,
)
    requires
        capture_step(before, event, action, after),
    ensures
        action matches CaptureAction::Resample(block) ==> block@.len() == after.chunk_size(),
        action matches CaptureAction::Encode(frame) ==> frame@.len() == 960,
        action is Receive ==> after.frame().len() < 960,
        action is Resample ==> event is Resampled || event is ResampleFailed || event is Samples
            && before.is_resampling(),
        (event is Resampled || event is ResampleFailed || event is Samples
            && before.is_resampling()) && !(action is Resample) ==> after.pending().len()
            < after.chunk_size(),
{
}

/// Packets leave as the encoder made them, and only then: a packet is handed on exactly
/// where the encoder filled its buffer, and it is the `len` bytes that were filled, no more
/// and no fewer. The capture side stops exactly where the microphone is gone.
pub proof fn packet_is_what_was_filled(
    before: Capture,
    event: CaptureEvent,
    action: CaptureAction,
    after: Capture,
)
    requires
        capture_step(before, event, action, after),
    ensures
        action is Send <==> event is Encoded,
        event matches CaptureEvent::Encoded { buffer, len } ==> (len <= buffer@.len() ==> (
        action matches CaptureAction::Send(packet) && packet@.len() == len && packet@
            == buffer@.take(len as int))),
        event matches CaptureEvent::Encoded { buffer, len } ==> (len > buffer@.len() ==> (
        action matches CaptureAction::Send(packet) && packet@ == buffer@)),
        action is Finish <==> event is Closed,
{
    match event {
        CaptureEvent::Encoded { buffer, len } => {
            if len == buffer@.len() {
                assert(buffer@.take(len as int) =~= buffer@);
            }
        },
        _ => {},
    }
}

/// For every buffer, what the encoder filled of it has as many bytes as it says.
pub proof fn filled_has_the_length(buffer: Seq<u8>, len: nat)
    requires
        len <= buffer.len(),
    ensures
        filled(buffer, len).len() == len,
        filled(buffer, len) == buffer.take(len as int),
{
    assert(buffer.take(buffer.len() as int) =~= buffer);
}

/// Everything that is captured is encoded, in 20 ms frames: from the start on, at every
/// moment, the frames that went to the encoder, joined, and then what waits for it, are all
/// the samples that came for it, joined, and every frame has 960 of them. Whenever the
/// microphone is waited for less than a frame waits.
pub proof fn captured_samples_are_encoded(
    resampling: bool,
    states: Seq<Capture>,
    events: Seq<CaptureEvent>,
    actions: Seq<CaptureAction>,
)
    requires
        starts_capture(resampling, (states[0], CaptureAction::Receive)),
        capture_run(states, events, actions),
    ensures
        states.last().is_resampling() == resampling,
        !resampling ==> actions.map_values(
            |a: CaptureAction|
                match a {
                    CaptureAction::Encode(frame) => frame@,
                    _ => Seq::<u32>::empty(),
                },
        ).flatten() + states.last().frame() == events.map_values(
            |e: CaptureEvent|
                match e {
                    CaptureEvent::Samples { samples, chunk_size } => samples@,
                    CaptureEvent::Resampled(samples) => samples@,
                    _ => Seq::<u32>::empty(),
                },
        ).flatten(),
        resampling ==> actions.map_values(
            |a: CaptureAction|
                match a {
                    CaptureAction::Encode(frame) => frame@,
                    _ => Seq::<u32>::empty(),
                },
        ).flatten() + states.last().frame() == events.map_values(
            |e: CaptureEvent|
                match e {
                    CaptureEvent::Resampled(samples) => samples@,
                    _ => Seq::<u32>::empty(),
                },
        ).flatten(),
        resampling ==> actions.map_values(
            |a: CaptureAction|
                match a {
                    CaptureAction::Resample(block) => block@,
                    _ => Seq::<u32>::empty(),
                },
        ).flatten() + states.last().pending() == events.map_values(
            |e: CaptureEvent|
                match e {
                    CaptureEvent::Samples { samples, chunk_size } => samples@,
                    _ => Seq::<u32>::empty(),
                },
        ).flatten(),
        forall|i: int|
            0 <= i < actions.len() ==> (#[trigger] actions[i] matches CaptureAction::Encode(frame)
                ==> frame@.len() == 960),
        actions.len() > 0 && actions.last() is Receive ==> states.last().frame().len() < 960,
    decreases events.len(),
{
    let frame_of = |a: CaptureAction|
        match a {
            CaptureAction::Encode(frame) => frame@,
            _ => Seq::<u32>::empty(),
        };
    let block_of = |a: CaptureAction|
        match a {
            CaptureAction::Resample(block) => block@,
            _ => Seq::<u32>::empty(),
        };
    let both_of = |e: CaptureEvent|
        match e {
            CaptureEvent::Samples { samples, chunk_size } => samples@,
            CaptureEvent::Resampled(samples) => samples@,
            _ => Seq::<u32>::empty(),
        };
    let resampled_of = |e: CaptureEvent|
        match e {
            CaptureEvent::Resampled(samples) => samples@,
            _ => Seq::<u32>::empty(),
        };
    let samples_of = |e: CaptureEvent|
        match e {
            CaptureEvent::Samples { samples, chunk_size } => samples@,
            _ => Seq::<u32>::empty(),
        };
    let n = events.len() as int;
    if n == 0 {
        lemma_joined_none(actions, frame_of);
        lemma_joined_none(actions, block_of);
        lemma_joined_none(events, both_of);
        lemma_joined_none(events, resampled_of);
        lemma_joined_none(events, samples_of);
        assert(Seq::<u32>::empty() + states.last().frame() =~= Seq::<u32>::empty());
        assert(Seq::<u32>::empty() + states.last().pending() =~= Seq::<u32>::empty());
    } else {
        let (before, event, action, after) = (
            states[n - 1],
            events[n - 1],
            actions[n - 1],
            states[n],
        );
        lemma_shorter_run(states, events, actions);
        captured_samples_are_encoded(
            resampling,
            states.drop_last(),
            events.drop_last(),
            actions.drop_last(),
        );
        assert(capture_step(before, event, action, after));
        assert(states.drop_last().last() == before);
        step_moves_samples_on(before, event, action, after);
        step_leaves_nothing_full(before, event, action, after);
        lemma_joined_last(actions, frame_of);
        lemma_joined_last(actions, block_of);
        lemma_joined_last(events, both_of);
        lemma_joined_last(events, resampled_of);
        lemma_joined_last(events, samples_of);
        let none = Seq::<u32>::empty();
        let frames = actions.drop_last().map_values(frame_of).flatten();
        let blocks = actions.drop_last().map_values(block_of).flatten();
        let came = if resampling {
            events.drop_last().map_values(resampled_of).flatten()
        } else {
            events.drop_last().map_values(both_of).flatten()
        };
        let more = if resampling {
            resampled_of(event)
        } else {
            both_of(event)
        };
        lemma_moves_on(frames, before.frame(), none, came, more, frame_of(action), after.frame());
        assert(none + (came + more) =~= came + more);
        assert(none + came =~= came);
        if resampling {
            let delivered = events.drop_last().map_values(samples_of).flatten();
            assert(none + delivered =~= delivered);
            lemma_moves_on(
                blocks,
                before.pending(),
                none,
                delivered,
                samples_of(event),
                block_of(action),
                after.pending(),
            );
            assert(none + (delivered + samples_of(event)) =~= delivered + samples_of(event));
        }
        assert forall|i: int| 0 <= i < actions.len() implies (
        #[trigger] actions[i] matches CaptureAction::Encode(frame) ==> frame@.len() == 960) by {
            if i < n - 1 {
                assert(actions[i] == actions.drop_last()[i]);
            }
        }
    }
}

/// A capture side that has just started waits for the microphone, with nothing else to do.
pub proof fn capture_starts_by_listening(resampling: bool, start: (Capture, CaptureAction))
    requires
        starts_capture(resampling, start),
    ensures
        start.1 is Receive,
        start.0.is_resampling() == resampling,
        start.0.pending() == Seq::<u32>::empty(),
        start.0.frame() == Seq::<u32>::empty(),
{
}

} // verus!
