//! The playback buffer: filled by the receiving side, emptied by the sound card,
//! each on a thread of its own.
use ringbuf::traits::{Consumer, Producer, Split};
use ringbuf::{HeapCons, HeapProd, HeapRb};
use vstd::prelude::*;

verus! {

/// The end of a playback buffer that samples go in at.
#[verifier::external_body]
pub struct PlaybackProducer {
    inner: HeapProd<u32>,
}

/// The end of a playback buffer that samples come out at.
#[verifier::external_body]
pub struct PlaybackConsumer {
    inner: HeapCons<u32>,
}

/// `p` and `c` are the two ends of one buffer.
pub uninterp spec fn one_ring(p: PlaybackProducer, c: PlaybackConsumer) -> bool;

/// How many samples the buffer of this end was made for.
pub uninterp spec fn capacity(p: PlaybackProducer) -> nat;

/// The samples that have been offered at this end since the buffer was made, the oldest
/// first.
pub uninterp spec fn tried(p: PlaybackProducer) -> Seq<u32>;

/// Those of them that went in.
pub uninterp spec fn sent(p: PlaybackProducer) -> Seq<u32>;

/// How many samples are known at this end to have come out at the other.
pub uninterp spec fn passed(p: PlaybackProducer) -> nat;

/// The samples that went in at this end and are not yet known here to have come out
/// at the other, the oldest first.
pub uninterp spec fn unread(p: PlaybackProducer) -> Seq<u32>;

/// How often a sample has been asked for at this end.
pub uninterp spec fn asked(c: PlaybackConsumer) -> nat;

/// The samples that have come out at this end since the buffer was made, the oldest
/// first.
pub uninterp spec fn taken(c: PlaybackConsumer) -> Seq<u32>;

/// The samples that are known at this end to have gone in at the other and have not
/// come out, the oldest first.
pub uninterp spec fn ready(c: PlaybackConsumer) -> Seq<u32>;

/// One of the two is how the other begins.
pub open spec fn one_continues(a: Seq<u32>, b: Seq<u32>) -> bool {
    a.is_prefix_of(b) || b.is_prefix_of(a)
}

/// Calls `HeapRb::new` and `split`: an empty ring buffer for exactly `size` samples,
/// and its two ends, which hold it together. `new` panics where there is no room for a
/// sample, or where the samples would take more bytes than an allocation can have.
#[verifier::external_body]
fn ring_ends(size: usize) -> (r: (PlaybackProducer, PlaybackConsumer))
    requires
        size > 0,
        size * 4 <= isize::MAX,
    ensures
        one_ring(r.0, r.1),
        capacity(r.0) == size,
        tried(r.0) == Seq::<u32>::empty(),
        sent(r.0) == Seq::<u32>::empty(),
        passed(r.0) == 0,
        unread(r.0) == Seq::<u32>::empty(),
        asked(r.1) == 0,
        taken(r.1) == Seq::<u32>::empty(),
        ready(r.1) == Seq::<u32>::empty(),
{
    let (producer, consumer) = HeapRb::<u32>::new(size).split();
    (PlaybackProducer { inner: producer }, PlaybackConsumer { inner: consumer })
}

/// Calls `Producer::try_push`. With room left, as far as this end knows, the sample
/// goes in behind the others. Without, the buffer is asked how many samples have come
/// out meanwhile: those are no longer unread and the new one goes in, or there are
/// none, and it is handed back with everything left as it was. The end stays that of
/// the same buffer. What the other end has taken rests on the thread it runs on; no
/// more than that is said of it.
#[verifier::external_body]
fn try_push(producer: &mut PlaybackProducer, sample: u32) -> (r: Result<(), u32>)
    ensures
        forall|c: PlaybackConsumer|
            #![trigger one_ring(*final(producer), c)]
            #![trigger one_ring(*old(producer), c)]
            one_ring(*final(producer), c) == one_ring(*old(producer), c),
        capacity(*final(producer)) == capacity(*old(producer)),
        tried(*final(producer)) == tried(*old(producer)).push(sample),
        unread(*old(producer)).len() < capacity(*old(producer)) ==> {
            &&& r is Ok
            &&& passed(*final(producer)) == passed(*old(producer))
            &&& unread(*final(producer)) == unread(*old(producer)).push(sample)
        },
        unread(*old(producer)).len() >= capacity(*old(producer)) && r is Ok ==> ({
            let out = passed(*final(producer)) - passed(*old(producer));
            &&& 0 < out <= unread(*old(producer)).len()
            &&& unread(*final(producer)) == unread(*old(producer)).skip(out).push(sample)
        }),
        r is Ok ==> sent(*final(producer)) == sent(*old(producer)).push(sample),
        r matches Err(back) ==> {
            &&& back == sample
            &&& sent(*final(producer)) == sent(*old(producer))
            &&& passed(*final(producer)) == passed(*old(producer))
            &&& unread(*final(producer)) == unread(*old(producer))
        },
{
    producer.inner.try_push(sample)
}

/// Calls `Consumer::try_pop`, which takes the oldest sample. Where none is ready, as
/// far as this end knows, the buffer is asked for those that have gone in meanwhile;
/// `None` comes where there are none, and nothing is then taken. The end stays that of
/// the same buffer, and what has come out here, and then what is ready, are the samples
/// that go in at the other end, from the first and in their order, though either end
/// may be ahead of what is known of the other. What has gone in rests on the thread
/// that the other end runs on; no more than that is said of it.
#[verifier::external_body]
fn try_pop(consumer: &mut PlaybackConsumer) -> (r: Option<u32>)
    ensures
        forall|p: PlaybackProducer|
            #![trigger one_ring(p, *final(consumer))]
            #![trigger one_ring(p, *old(consumer))]
            one_ring(p, *final(consumer)) == one_ring(p, *old(consumer)),
        asked(*final(consumer)) == asked(*old(consumer)) + 1,
        taken(*final(consumer)) == (match r {
            Some(sample) => taken(*old(consumer)).push(sample),
            None => taken(*old(consumer)),
        }),
        ready(*old(consumer)).len() > 0 ==> {
            &&& r == Some(ready(*old(consumer))[0])
            &&& ready(*final(consumer)) == ready(*old(consumer)).drop_first()
        },
        r is None ==> ready(*final(consumer)).len() == 0,
        forall|p: PlaybackProducer| #[trigger]
            one_ring(p, *final(consumer)) ==> one_continues(
                sent(p),
                taken(*final(consumer)) + ready(*final(consumer)),
            ),
{
    consumer.inner.try_pop()
}

/// How many samples a buffer holds for a device with `channels` samples in each of `rate`
/// frames a second.
pub open spec fn buffer_size(rate: nat, channels: nat) -> nat {
    rate * channels
}

/// `ends` are the two ends of a new buffer for such a device.
pub open spec fn starts_buffer(
    rate: nat,
    channels: nat,
    ends: (PlaybackProducer, PlaybackConsumer),
) -> bool {
    &&& one_ring(ends.0, ends.1)
    &&& capacity(ends.0) == buffer_size(rate, channels)
    &&& feed(ends.0) == no_feed()
    &&& taken(ends.1).len() == 0
    &&& ready(ends.1).len() == 0
}

/// A buffer that holds one second of sound for a device with `channels` samples in
/// each of `rate` frames a second: its two ends, with nothing in between.
pub fn playback_buffer(rate: u32, channels: usize) -> (r: (PlaybackProducer, PlaybackConsumer))
    requires
        rate > 0,
        channels > 0,
        rate * channels * 4 <= isize::MAX,
    ensures
        one_ring(r.0, r.1),
        capacity(r.0) == rate * channels,
        capacity(r.0) == buffer_size(rate as nat, channels as nat),
        feed(r.0) == no_feed(),
        asked(r.1) == 0,
        taken(r.1) == Seq::<u32>::empty(),
        ready(r.1) == Seq::<u32>::empty(),
        starts_buffer(rate as nat, channels as nat, r),
{
    assert(0 < rate * channels <= usize::MAX) by (nonlinear_arith)
        requires
            rate > 0,
            channels > 0,
            rate * channels * 4 <= isize::MAX,
    ;
    let size: usize = rate as usize * channels;
    ring_ends(size)
}

/// How far an end has got that samples go in at.
pub struct Feed {
    /// The samples that have been offered.
    pub tried: Seq<u32>,
    /// Those of them that went in.
    pub sent: Seq<u32>,
    /// How many of these are known to have come out.
    pub passed: nat,
    /// Those not known to have come out.
    pub unread: Seq<u32>,
}

/// How far the end `p` has got.
pub open spec fn feed(p: PlaybackProducer) -> Feed {
    Feed { tried: tried(p), sent: sent(p), passed: passed(p), unread: unread(p) }
}

/// Nothing has been offered.
pub open spec fn no_feed() -> Feed {
    Feed { tried: Seq::empty(), sent: Seq::empty(), passed: 0, unread: Seq::empty() }
}

/// Each sample of `mono` in its order, once for every channel.
pub open spec fn upmixed(mono: Seq<u32>, channels: nat) -> Seq<u32>
    decreases mono.len(),
{
    if mono.len() == 0 {
        Seq::empty()
    } else {
        upmixed(mono.drop_last(), channels) + Seq::new(channels, |i: int| mono.last())
    }
}

/// Offering `sample` to a buffer for `size` samples leads from `before` to `after`: with
/// room left it goes in last; in a full buffer it is dropped, or goes in where some of
/// the oldest have come out.
pub open spec fn offered(size: nat, before: Feed, sample: u32, after: Feed) -> bool {
    &&& after.tried == before.tried.push(sample)
    &&& if before.unread.len() < size {
        &&& after.sent == before.sent.push(sample)
        &&& after.passed == before.passed
        &&& after.unread == before.unread.push(sample)
    } else if after.passed == before.passed {
        &&& after.sent == before.sent
        &&& after.unread == before.unread
    } else {
        let out = after.passed - before.passed;
        &&& 0 < out <= before.unread.len()
        &&& after.sent == before.sent.push(sample)
        &&& after.unread == before.unread.skip(out).push(sample)
    }
}

/// `states` are those before, between and after offering `samples`, one after another.
pub open spec fn offering(size: nat, states: Seq<Feed>, samples: Seq<u32>) -> bool {
    &&& states.len() == samples.len() + 1
    &&& forall|i: int|
        #![trigger samples[i]]
        0 <= i < samples.len() ==> offered(size, states[i], samples[i], states[i + 1])
}

/// Offering all of `samples`, one after another, leads from `before` to `after`.
pub open spec fn all_offered(size: nat, before: Feed, samples: Seq<u32>, after: Feed) -> bool {
    exists|states: Seq<Feed>| #[trigger]
        offering(size, states, samples) && states.first() == before && states.last() == after
}

/// Offering nothing changes nothing.
pub proof fn none_offered(size: nat, before: Feed)
    ensures
        all_offered(size, before, Seq::empty(), before),
{
    assert(offering(size, seq![before], Seq::empty()));
}

proof fn lemma_one_more_offered(
    size: nat,
    before: Feed,
    samples: Seq<u32>,
    mid: Feed,
    sample: u32,
    after: Feed,
)
    requires
        all_offered(size, before, samples, mid),
        offered(size, mid, sample, after),
    ensures
        all_offered(size, before, samples.push(sample), after),
{
    let states = choose|states: Seq<Feed>| #[trigger]
        offering(size, states, samples) && states.first() == before && states.last() == mid;
    let more = samples.push(sample);
    let longer = states.push(after);
    assert forall|i: int|
        #![trigger more[i]]
        0 <= i < more.len() implies offered(size, longer[i], more[i], longer[i + 1]) by {
        if i < samples.len() {
            assert(more[i] == samples[i]);
        }
    }
    assert(offering(size, longer, more));
}

/// Offering some samples and then others is offering them all, one after another.
pub proof fn offers_follow(
    size: nat,
    before: Feed,
    first: Seq<u32>,
    mid: Feed,
    second: Seq<u32>,
    after: Feed,
)
    requires
        all_offered(size, before, first, mid),
        all_offered(size, mid, second, after),
    ensures
        all_offered(size, before, first + second, after),
{
    let early = choose|states: Seq<Feed>| #[trigger]
        offering(size, states, first) && states.first() == before && states.last() == mid;
    let late = choose|states: Seq<Feed>| #[trigger]
        offering(size, states, second) && states.first() == mid && states.last() == after;
    let n = first.len() as int;
    let states = early + late.drop_first();
    let samples = first + second;
    assert forall|i: int|
        #![trigger samples[i]]
        0 <= i < samples.len() implies offered(size, states[i], samples[i], states[i + 1]) by {
        if i < n {
            assert(samples[i] == first[i]);
        } else {
            assert(samples[i] == second[i - n]);
            assert(states[i] == late[i - n]);
            assert(states[i + 1] == late[i - n + 1]);
        }
    }
    assert(offering(size, states, samples));
}

/// The first of `samples`, as many as there is room for in a buffer for `size` samples
/// that holds `held`.
pub open spec fn with_room(samples: Seq<u32>, size: nat, held: nat) -> Seq<u32> {
    if held + samples.len() <= size {
        samples
    } else if held < size {
        samples.take(size - held)
    } else {
        Seq::empty()
    }
}

/// Offers each sample of `mono` to the buffer once for every channel. What finds no
/// room is dropped: as long as nothing is known to come out, that is everything behind
/// the first samples that there is room for.
pub fn push_upmixed(producer: &mut PlaybackProducer, mono: &[u32], channels: usize)
    ensures
        forall|c: PlaybackConsumer|
            #![trigger one_ring(*final(producer), c)]
            #![trigger one_ring(*old(producer), c)]
            one_ring(*final(producer), c) == one_ring(*old(producer), c),
        capacity(*final(producer)) == capacity(*old(producer)),
        all_offered(
            capacity(*old(producer)),
            feed(*old(producer)),
            upmixed(mono@, channels as nat),
            feed(*final(producer)),
        ),
        tried(*final(producer)) == tried(*old(producer)) + upmixed(mono@, channels as nat),
        passed(*final(producer)) == passed(*old(producer)) ==> {
            let kept = with_room(
                upmixed(mono@, channels as nat),
                capacity(*old(producer)),
                unread(*old(producer)).len(),
            );
            &&& unread(*final(producer)) == unread(*old(producer)) + kept
            &&& sent(*final(producer)) == sent(*old(producer)) + kept
        },
{
    let ghost start = *producer;
    let ghost size = capacity(start);
    let ghost before = feed(start);
    let mut i: usize = 0;
    proof {
        none_offered(size, before);
        assert(upmixed(mono@.take(0), channels as nat) =~= Seq::<u32>::empty());
    }
    while i < mono.len()
        invariant
            i <= mono@.len(),
            forall|c: PlaybackConsumer|
                #![trigger one_ring(*producer, c)]
                #![trigger one_ring(start, c)]
                one_ring(*producer, c) == one_ring(start, c),
            capacity(*producer) == size,
            all_offered(
                size,
                before,
                upmixed(mono@.take(i as int), channels as nat),
                feed(*producer),
            ),
        decreases mono@.len() - i,
    {
        let sample: u32 = mono[i];
        let ghost done = upmixed(mono@.take(i as int), channels as nat);
        let mut j: usize = 0;
        assert(done + Seq::new(0, |x: int| sample) =~= done);
        while j < channels
            invariant
                j <= channels,
                forall|c: PlaybackConsumer|
                    #![trigger one_ring(*producer, c)]
                    #![trigger one_ring(start, c)]
                    one_ring(*producer, c) == one_ring(start, c),
                capacity(*producer) == size,
                all_offered(
                    size,
                    before,
                    done + Seq::new(j as nat, |x: int| sample),
                    feed(*producer),
                ),
            decreases channels - j,
        {
            let ghost mid = feed(*producer);
            let ghost sofar = done + Seq::new(j as nat, |x: int| sample);
            let _ = try_push(producer, sample);
            proof {
                lemma_one_more_offered(size, before, sofar, mid, sample, feed(*producer));
                assert(sofar.push(sample) =~= done + Seq::new((j + 1) as nat, |x: int| sample));
            }
            j = j + 1;
        }
        proof {
            let next = mono@.take(i + 1);
            assert(next.drop_last() =~= mono@.take(i as int));
            assert(upmixed(next, channels as nat) =~= done + Seq::new(
                channels as nat,
                |x: int| sample,
            ));
        }
        i = i + 1;
    }
    proof {
        assert(mono@.take(i as int) =~= mono@);
        let samples = upmixed(mono@, channels as nat);
        all_samples_tried(size, before, samples, feed(*producer));
        if passed(*producer) == passed(start) {
            untouched_buffer_drops_newest(size, before, samples, feed(*producer));
        }
    }
}

/// Every channel gets every sample: sample `i` stands at all of the places of frame
/// `i`, and there are as many frames as samples.
pub proof fn upmixed_repeats(mono: Seq<u32>, channels: nat)
    ensures
        upmixed(mono, channels).len() == mono.len() * channels,
        forall|i: int, c: int|
            0 <= i < mono.len() && 0 <= c < channels ==> #[trigger] upmixed(mono, channels)[i
                * channels + c] == mono[i],
    decreases mono.len(),
{
    if mono.len() > 0 {
        let head = mono.drop_last();
        let n = head.len();
        upmixed_repeats(head, channels);
        assert(mono.len() * channels == n * channels + channels) by (nonlinear_arith)
            requires
                mono.len() == n + 1,
        ;
        assert forall|i: int, c: int|
            0 <= i < mono.len() && 0 <= c < channels implies #[trigger] upmixed(mono, channels)[i
            * channels + c] == mono[i] by {
            if i < n {
                assert(0 <= i * channels + c < n * channels) by (nonlinear_arith)
                    requires
                        0 <= i < n,
                        0 <= c < channels,
                ;
                assert(upmixed(head, channels)[i * channels + c] == head[i]);
            }
        }
    } else {
        assert(0 * channels == 0) by (nonlinear_arith);
    }
}

/// Upmixing one run of samples behind another is upmixing them joined.
pub proof fn upmixed_joins(a: Seq<u32>, b: Seq<u32>, channels: nat)
    ensures
        upmixed(a + b, channels) == upmixed(a, channels) + upmixed(b, channels),
    decreases b.len(),
{
    if b.len() == 0 {
        assert(a + b =~= a);
        assert(upmixed(a, channels) + upmixed(b, channels) =~= upmixed(a, channels));
    } else {
        upmixed_joins(a, b.drop_last(), channels);
        assert((a + b).drop_last() =~= a + b.drop_last());
        assert((a + b).last() == b.last());
        assert(upmixed(a + b, channels) =~= upmixed(a, channels) + upmixed(b, channels));
    }
}

/// Pushing `a` and then `b` is a way to push the two joined.
pub proof fn pushes_join(
    size: nat,
    before: Feed,
    a: Seq<u32>,
    mid: Feed,
    b: Seq<u32>,
    after: Feed,
    channels: nat,
)
    requires
        all_offered(size, before, upmixed(a, channels), mid),
        all_offered(size, mid, upmixed(b, channels), after),
    ensures
        all_offered(size, before, upmixed(a + b, channels), after),
{
    upmixed_joins(a, b, channels);
    offers_follow(size, before, upmixed(a, channels), mid, upmixed(b, channels), after);
}

/// It makes no difference whether samples are pushed at once or in two parts: of two
/// buffers for as many samples that hold the same, one that gets `a` and `b` joined and
/// one that gets `a` and then `b` hold the same afterwards and have let in the same, as
/// long as nothing is known to come out of either.
pub proof fn push_in_parts(
    size: nat,
    before: Feed,
    after: Feed,
    before_parts: Feed,
    mid: Feed,
    after_parts: Feed,
    a: Seq<u32>,
    b: Seq<u32>,
    channels: nat,
)
    requires
        all_offered(size, before, upmixed(a + b, channels), after),
        all_offered(size, before_parts, upmixed(a, channels), mid),
        all_offered(size, mid, upmixed(b, channels), after_parts),
        before.unread == before_parts.unread,
        after.passed == before.passed,
        after_parts.passed == before_parts.passed,
    ensures
        after.unread == after_parts.unread,
        before.sent == before_parts.sent ==> after.sent == after_parts.sent,
        before.tried == before_parts.tried ==> after.tried == after_parts.tried,
{
    let samples = upmixed(a + b, channels);
    pushes_join(size, before_parts, a, mid, b, after_parts, channels);
    untouched_buffer_drops_newest(size, before, samples, after);
    untouched_buffer_drops_newest(size, before_parts, samples, after_parts);
    all_samples_tried(size, before, samples, after);
    all_samples_tried(size, before_parts, samples, after_parts);
}

proof fn lemma_offering_tries(size: nat, states: Seq<Feed>, samples: Seq<u32>, k: int)
    requires
        offering(size, states, samples),
        0 <= k <= samples.len(),
    ensures
        states[k].tried == states[0].tried + samples.take(k),
        states[k].passed >= states[0].passed,
    decreases k,
{
    if k == 0 {
        assert(states[0].tried + samples.take(0) =~= states[0].tried);
    } else {
        lemma_offering_tries(size, states, samples, k - 1);
        assert(offered(size, states[k - 1], samples[k - 1], states[k]));
        assert(states[k].tried =~= states[0].tried + samples.take(k));
    }
}

/// None is left out: all of the samples are offered, in their order.
pub proof fn all_samples_tried(size: nat, before: Feed, samples: Seq<u32>, after: Feed)
    requires
        all_offered(size, before, samples, after),
    ensures
        after.tried == before.tried + samples,
{
    let states = choose|states: Seq<Feed>| #[trigger]
        offering(size, states, samples) && states.first() == before && states.last() == after;
    lemma_offering_tries(size, states, samples, samples.len() as int);
    assert(samples.take(samples.len() as int) =~= samples);
}

proof fn lemma_passed_grows(size: nat, states: Seq<Feed>, samples: Seq<u32>, k: int)
    requires
        offering(size, states, samples),
        0 <= k <= samples.len(),
    ensures
        states[k].passed <= states.last().passed,
    decreases samples.len() - k,
{
    if k < samples.len() {
        lemma_passed_grows(size, states, samples, k + 1);
        assert(offered(size, states[k], samples[k], states[k + 1]));
    }
}

proof fn lemma_offering_untouched(size: nat, states: Seq<Feed>, samples: Seq<u32>, k: int)
    requires
        offering(size, states, samples),
        states.last().passed == states[0].passed,
        0 <= k <= samples.len(),
    ensures
        ({
            let kept = with_room(samples.take(k), size, states[0].unread.len());
            &&& states[k].passed == states[0].passed
            &&& states[k].unread == states[0].unread + kept
            &&& states[k].sent == states[0].sent + kept
        }),
    decreases k,
{
    let held = states[0].unread.len();
    let kept = with_room(samples.take(k), size, held);
    if k == 0 {
        assert(states[0].unread + kept =~= states[0].unread);
        assert(states[0].sent + kept =~= states[0].sent);
    } else {
        lemma_offering_untouched(size, states, samples, k - 1);
        lemma_offering_tries(size, states, samples, k);
        lemma_passed_grows(size, states, samples, k);
        assert(offered(size, states[k - 1], samples[k - 1], states[k]));
        let earlier = with_room(samples.take(k - 1), size, held);
        if held + k <= size {
            assert(kept =~= earlier.push(samples[k - 1]));
        } else {
            assert(kept =~= earlier);
        }
        assert(states[k].unread =~= states[0].unread + kept);
        assert(states[k].sent =~= states[0].sent + kept);
    }
}

/// A buffer that nothing is known to come out of drops the newest: the first samples, as
/// many as there is room for, go in, and no others.
pub proof fn untouched_buffer_drops_newest(
    size: nat,
    before: Feed,
    samples: Seq<u32>,
    after: Feed,
)
    requires
        all_offered(size, before, samples, after),
        after.passed == before.passed,
    ensures
        after.unread == before.unread + with_room(samples, size, before.unread.len()),
        after.sent == before.sent + with_room(samples, size, before.unread.len()),
{
    let states = choose|states: Seq<Feed>| #[trigger]
        offering(size, states, samples) && states.first() == before && states.last() == after;
    lemma_offering_untouched(size, states, samples, samples.len() as int);
    assert(samples.take(samples.len() as int) =~= samples);
}

proof fn lemma_offering_fits(size: nat, states: Seq<Feed>, samples: Seq<u32>, k: int)
    requires
        offering(size, states, samples),
        states[0].unread.len() + samples.len() <= size,
        0 <= k <= samples.len(),
    ensures
        states[k].unread == states[0].unread + samples.take(k),
        states[k].sent == states[0].sent + samples.take(k),
        states[k].passed == states[0].passed,
    decreases k,
{
    if k == 0 {
        assert(states[0].unread + samples.take(0) =~= states[0].unread);
        assert(states[0].sent + samples.take(0) =~= states[0].sent);
    } else {
        lemma_offering_fits(size, states, samples, k - 1);
        assert(offered(size, states[k - 1], samples[k - 1], states[k]));
        assert(states[k].unread =~= states[0].unread + samples.take(k));
        assert(states[k].sent =~= states[0].sent + samples.take(k));
    }
}

/// While there is room for all of them nothing is dropped: the samples go in, in their
/// order, behind those that were unread before.
pub proof fn offered_samples_fit(size: nat, before: Feed, samples: Seq<u32>, after: Feed)
    requires
        all_offered(size, before, samples, after),
        before.unread.len() + samples.len() <= size,
    ensures
        after.unread == before.unread + samples,
        after.sent == before.sent + samples,
        after.passed == before.passed,
{
    let states = choose|states: Seq<Feed>| #[trigger]
        offering(size, states, samples) && states.first() == before && states.last() == after;
    lemma_offering_fits(size, states, samples, samples.len() as int);
    assert(samples.take(samples.len() as int) =~= samples);
}

proof fn lemma_offering_bounded(size: nat, states: Seq<Feed>, samples: Seq<u32>, k: int)
    requires
        offering(size, states, samples),
        states[0].unread.len() <= size,
        0 <= k <= samples.len(),
    ensures
        states[k].unread.len() <= size,
    decreases k,
{
    if k > 0 {
        lemma_offering_bounded(size, states, samples, k - 1);
        assert(offered(size, states[k - 1], samples[k - 1], states[k]));
    }
}

/// The unread samples never outgrow the buffer.
pub proof fn offered_samples_bounded(size: nat, before: Feed, samples: Seq<u32>, after: Feed)
    requires
        all_offered(size, before, samples, after),
        before.unread.len() <= size,
    ensures
        after.unread.len() <= size,
{
    let states = choose|states: Seq<Feed>| #[trigger]
        offering(size, states, samples) && states.first() == before && states.last() == after;
    lemma_offering_bounded(size, states, samples, samples.len() as int);
}

/// What is unread is the end of what went in, behind what is known to have come out.
pub open spec fn is_in_step(state: Feed) -> bool {
    &&& state.passed <= state.sent.len()
    &&& state.unread == state.sent.skip(state.passed as int)
}

proof fn lemma_offering_in_step(size: nat, states: Seq<Feed>, samples: Seq<u32>, k: int)
    requires
        offering(size, states, samples),
        is_in_step(states[0]),
        0 <= k <= samples.len(),
    ensures
        is_in_step(states[k]),
    decreases k,
{
    if k > 0 {
        lemma_offering_in_step(size, states, samples, k - 1);
        let mid = states[k - 1];
        assert(offered(size, mid, samples[k - 1], states[k]));
        assert(states[k].unread =~= states[k].sent.skip(states[k].passed as int));
    }
}

/// From the first sample on, what is unread is the end of what went in: no sample that
/// went in is overwritten or passed over.
pub proof fn unread_samples_are_last_sent(
    size: nat,
    before: Feed,
    samples: Seq<u32>,
    after: Feed,
)
    requires
        all_offered(size, before, samples, after),
        before == no_feed() || is_in_step(before),
    ensures
        is_in_step(after),
{
    let states = choose|states: Seq<Feed>| #[trigger]
        offering(size, states, samples) && states.first() == before && states.last() == after;
    assert(no_feed().unread =~= no_feed().sent.skip(0));
    lemma_offering_in_step(size, states, samples, samples.len() as int);
}

/// `part` is `whole` with some elements left out.
pub open spec fn is_thinned(part: Seq<u32>, whole: Seq<u32>) -> bool
    decreases whole.len(),
{
    if part.len() == 0 {
        true
    } else if whole.len() == 0 {
        false
    } else {
        ||| is_thinned(part, whole.drop_last())
        ||| part.last() == whole.last() && is_thinned(part.drop_last(), whole.drop_last())
    }
}

proof fn lemma_thinned_push(part: Seq<u32>, whole: Seq<u32>, x: u32)
    requires
        is_thinned(part, whole),
    ensures
        is_thinned(part.push(x), whole.push(x)),
        is_thinned(part, whole.push(x)),
{
    assert(part.push(x).drop_last() =~= part);
    assert(whole.push(x).drop_last() =~= whole);
}

proof fn lemma_offering_keeps_order(size: nat, states: Seq<Feed>, samples: Seq<u32>, k: int)
    requires
        offering(size, states, samples),
        0 <= k <= samples.len(),
    ensures
        states[0].sent.is_prefix_of(states[k].sent),
        is_thinned(states[k].sent.skip(states[0].sent.len() as int), samples.take(k)),
    decreases k,
{
    let n = states[0].sent.len() as int;
    if k > 0 {
        let x = samples[k - 1];
        let mid = states[k - 1];
        lemma_offering_keeps_order(size, states, samples, k - 1);
        assert(offered(size, mid, x, states[k]));
        assert(samples.take(k) =~= samples.take(k - 1).push(x));
        lemma_thinned_push(mid.sent.skip(n), samples.take(k - 1), x);
        if states[k].sent != mid.sent {
            assert(states[k].sent.skip(n) =~= mid.sent.skip(n).push(x));
        }
    }
}

/// Samples are dropped, never moved: what goes in goes behind what went in before, and
/// is, in its order, a part of what was offered.
pub proof fn offered_samples_keep_order(
    size: nat,
    before: Feed,
    samples: Seq<u32>,
    after: Feed,
)
    requires
        all_offered(size, before, samples, after),
    ensures
        before.sent.is_prefix_of(after.sent),
        is_thinned(after.sent.skip(before.sent.len() as int), samples),
{
    let states = choose|states: Seq<Feed>| #[trigger]
        offering(size, states, samples) && states.first() == before && states.last() == after;
    lemma_offering_keeps_order(size, states, samples, samples.len() as int);
    assert(samples.take(samples.len() as int) =~= samples);
}

/// What the sound card plays for what came out of the buffer: silence for nothing.
pub fn sample_or_silence(popped: Option<u32>) -> (r: u32)
    ensures
        r == (match popped {
            Some(sample) => sample,
            None => 0,
        }),
{
    match popped {
        Some(sample) => sample,
        None => 0,
    }
}

/// The sound card plays `sample` and has, by then, taken `after` where it had taken
/// `before`: what came out of the buffer, or silence where nothing did.
pub open spec fn plays(before: Seq<u32>, sample: u32, after: Seq<u32>) -> bool {
    ||| after == before.push(sample)
    ||| after == before && sample == 0
}

/// The next sample for the sound card, or silence. The buffer is asked once. A sample
/// that is ready is taken; otherwise it rests on what has gone in at the other end
/// meanwhile.
pub fn next_sample(consumer: &mut PlaybackConsumer) -> (r: u32)
    ensures
        forall|p: PlaybackProducer|
            #![trigger one_ring(p, *final(consumer))]
            #![trigger one_ring(p, *old(consumer))]
            one_ring(p, *final(consumer)) == one_ring(p, *old(consumer)),
        asked(*final(consumer)) == asked(*old(consumer)) + 1,
        plays(taken(*old(consumer)), r, taken(*final(consumer))),
        taken(*final(consumer)) == taken(*old(consumer)) ==> r == 0,
        taken(*final(consumer)) != taken(*old(consumer)) ==> taken(*final(consumer)) == taken(
            *old(consumer),
        ).push(r),
        ready(*old(consumer)).len() > 0 ==> {
            &&& r == ready(*old(consumer))[0]
            &&& taken(*final(consumer)) == taken(*old(consumer)).push(r)
            &&& ready(*final(consumer)) == ready(*old(consumer)).drop_first()
        },
        taken(*final(consumer)) == taken(*old(consumer)) ==> ready(*final(consumer)).len() == 0,
        forall|p: PlaybackProducer| #[trigger]
            one_ring(p, *final(consumer)) ==> one_continues(
                sent(p),
                taken(*final(consumer)) + ready(*final(consumer)),
            ),
{
    let popped: Option<u32> = try_pop(consumer);
    assert(popped matches Some(sample) ==> taken(*consumer).len() == taken(*old(consumer)).len()
        + 1);
    sample_or_silence(popped)
}

/// `heard` is `part` with silence put in.
pub open spec fn has_silence_between(part: Seq<u32>, heard: Seq<u32>) -> bool
    decreases heard.len(),
{
    if heard.len() == 0 {
        part.len() == 0
    } else {
        ||| heard.last() == 0 && has_silence_between(part, heard.drop_last())
        ||| part.len() > 0 && part.last() == heard.last() && has_silence_between(
            part.drop_last(),
            heard.drop_last(),
        )
    }
}

proof fn lemma_plays_so_far(takes: Seq<Seq<u32>>, heard: Seq<u32>, k: int)
    requires
        takes.len() == heard.len() + 1,
        takes[0].len() == 0,
        forall|i: int|
            #![trigger heard[i]]
            0 <= i < heard.len() ==> plays(takes[i], heard[i], takes[i + 1]),
        0 <= k <= heard.len(),
    ensures
        has_silence_between(takes[k], heard.take(k)),
    decreases k,
{
    if k > 0 {
        lemma_plays_so_far(takes, heard, k - 1);
        assert(plays(takes[k - 1], heard[k - 1], takes[k]));
        assert(heard.take(k).drop_last() =~= heard.take(k - 1));
        if takes[k] != takes[k - 1] {
            assert(takes[k].drop_last() =~= takes[k - 1]);
        }
    }
}

/// What goes in at one end comes out at the other, in its order: where the sound card
/// has taken from the buffer since it was made, with `takes` for what it had taken
/// before, between and after the samples that it played, and `went_in` is what has gone
/// in at any moment, then what it played is what went in, from the first sample on, with
/// nothing but silence between.
pub proof fn card_plays_what_went_in(
    takes: Seq<Seq<u32>>,
    heard: Seq<u32>,
    is_ready: Seq<u32>,
    went_in: Seq<u32>,
)
    requires
        takes.len() == heard.len() + 1,
        takes[0].len() == 0,
        forall|i: int|
            #![trigger heard[i]]
            0 <= i < heard.len() ==> plays(takes[i], heard[i], takes[i + 1]),
        one_continues(went_in, takes.last() + is_ready),
    ensures
        has_silence_between(takes.last(), heard),
        one_continues(went_in, takes.last()),
        forall|i: int|
            0 <= i < takes.last().len() && i < went_in.len() ==> #[trigger] takes.last()[i]
                == went_in[i],
{
    lemma_plays_so_far(takes, heard, heard.len() as int);
    assert(heard.take(heard.len() as int) =~= heard);
    let out = takes.last();
    let known = out + is_ready;
    assert forall|i: int| 0 <= i < out.len() && i < went_in.len() implies #[trigger] out[i]
        == went_in[i] by {
        assert(known[i] == out[i]);
    }
    if out.len() <= went_in.len() {
        assert(went_in.take(out.len() as int) =~= out);
    } else {
        assert(out.take(went_in.len() as int) =~= went_in);
    }
}

/// The card is silent for nothing but nothing: where a sample came out it is the one played
/// and is now the last that came out; where none did, what is played is silence.
pub proof fn silence_is_for_nothing(before: Seq<u32>, sample: u32, after: Seq<u32>)
    requires
        plays(before, sample, after),
    ensures
        after.len() == before.len() ==> after == before && sample == 0,
        after.len() != before.len() ==> after.len() == before.len() + 1 && after.last() == sample
            && after.drop_last() == before,
{
    if after == before.push(sample) {
        assert(after.drop_last() =~= before);
    }
}

/// Room is used up and no more: of the samples offered the first go in, as many as places
/// are free, or all of them.
pub proof fn room_is_used_up(samples: Seq<u32>, size: nat, held: nat)
    ensures
        with_room(samples, size, held).is_prefix_of(samples),
        held <= size ==> with_room(samples, size, held).len() == (if samples.len() <= size - held {
            samples.len() as int
        } else {
            size - held
        }),
        held > size ==> with_room(samples, size, held).len() == 0,
{
}

/// The buffer holds one second of sound and no more: of mono samples for a device of `rate`
/// frames a second, pushed to a buffer that nothing went in at before and that nothing is
/// known to come out of, the first `rate` are held, each once for every channel.
pub proof fn buffer_holds_one_second(rate: nat, channels: nat, mono: Seq<u32>, after: Feed)
    requires
        all_offered(buffer_size(rate, channels), no_feed(), upmixed(mono, channels), after),
        after.passed == 0,
    ensures
        after.unread == upmixed(
            if mono.len() <= rate {
                mono
            } else {
                mono.take(rate as int)
            },
            channels,
        ),
{
    let size = buffer_size(rate, channels);
    let all = upmixed(mono, channels);
    untouched_buffer_drops_newest(size, no_feed(), all, after);
    upmixed_repeats(mono, channels);
    assert(Seq::<u32>::empty() + with_room(all, size, 0) =~= with_room(all, size, 0));
    if mono.len() <= rate {
        assert(mono.len() * channels <= rate * channels) by (nonlinear_arith)
            requires
                mono.len() <= rate,
        ;
    } else {
        let first = mono.take(rate as int);
        let rest = mono.skip(rate as int);
        upmixed_joins(first, rest, channels);
        upmixed_repeats(first, channels);
        assert(first + rest =~= mono);
        assert(rate * channels <= mono.len() * channels) by (nonlinear_arith)
            requires
                rate <= mono.len(),
        ;
        assert(all.take(size as int) =~= upmixed(first, channels));
        assert(with_room(all, size, 0) =~= all.take(size as int));
    }
}

/// The two ends of a new buffer belong together, and nothing has gone in or come out.
pub proof fn new_buffer_is_one_and_empty(
    rate: nat,
    channels: nat,
    ends: (PlaybackProducer, PlaybackConsumer),
)
    requires
        starts_buffer(rate, channels, ends),
    ensures
        one_ring(ends.0, ends.1),
        capacity(ends.0) == rate * channels,
        sent(ends.0).len() == 0,
        unread(ends.0).len() == 0,
        passed(ends.0) == 0,
        taken(ends.1).len() == 0,
        ready(ends.1).len() == 0,
{
}

} // verus!
