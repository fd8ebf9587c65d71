//! Cutting a run of samples into blocks of one size, and into frames.
use vstd::prelude::*;

verus! {

/// `s` cut into blocks of `n` from the front, as many as are full.
pub open spec fn chunks_of<A>(s: Seq<A>, n: nat) -> Seq<Seq<A>>
    decreases s.len(),
{
    if n == 0 || s.len() < n {
        Seq::empty()
    } else {
        seq![s.take(n as int)] + chunks_of(s.skip(n as int), n)
    }
}

/// What is left of `s` behind its full blocks of `n`.
pub open spec fn rest_of<A>(s: Seq<A>, n: nat) -> Seq<A>
    decreases s.len(),
{
    if n == 0 || s.len() < n {
        s
    } else {
        rest_of(s.skip(n as int), n)
    }
}

/// Every block holds exactly `n` samples, and fewer than `n` are left over.
pub proof fn chunks_are_full<A>(s: Seq<A>, n: nat)
    requires
        n > 0,
    ensures
        forall|i: int| 0 <= i < chunks_of(s, n).len() ==> (#[trigger] chunks_of(s, n)[i]).len() == n,
        rest_of(s, n).len() < n,
    decreases s.len(),
{
    if s.len() >= n {
        chunks_are_full(s.skip(n as int), n);
        assert forall|i: int| 0 <= i < chunks_of(s, n).len() implies (#[trigger] chunks_of(
            s,
            n,
        )[i]).len() == n by {
            if i > 0 {
                assert(chunks_of(s, n)[i] == chunks_of(s.skip(n as int), n)[i - 1]);
            }
        }
    }
}

proof fn lemma_flatten_first<A>(first: Seq<A>, rest: Seq<Seq<A>>)
    ensures
        (seq![first] + rest).flatten() == first + rest.flatten(),
{
    let all = seq![first] + rest;
    assert(all.drop_first() =~= rest);
    assert(all.flatten() == all.first() + all.drop_first().flatten());
}

pub(crate) proof fn lemma_flatten_more<A>(blocks: Seq<Seq<A>>, last: Seq<A>)
    ensures
        blocks.push(last).flatten() == blocks.flatten() + last,
    decreases blocks.len(),
{
    let all = blocks.push(last);
    assert(all.flatten() == all.first() + all.drop_first().flatten());
    if blocks.len() == 0 {
        assert(all.drop_first() =~= Seq::<Seq<A>>::empty());
        assert(Seq::<Seq<A>>::empty().flatten() =~= Seq::<A>::empty());
        assert(blocks =~= Seq::<Seq<A>>::empty());
        assert(all.flatten() =~= blocks.flatten() + last);
    } else {
        lemma_flatten_more(blocks.drop_first(), last);
        assert(all.drop_first() =~= blocks.drop_first().push(last));
        assert(blocks.flatten() == blocks.first() + blocks.drop_first().flatten());
        assert(all.flatten() =~= blocks.flatten() + last);
    }
}

/// There is one way only to cut samples into full blocks with less than a block left
/// over.
pub proof fn full_blocks_are_chunks<A>(blocks: Seq<Seq<A>>, rest: Seq<A>, n: nat)
    requires
        n > 0,
        rest.len() < n,
        forall|i: int| 0 <= i < blocks.len() ==> (#[trigger] blocks[i]).len() == n,
    ensures
        chunks_of(blocks.flatten() + rest, n) == blocks,
        rest_of(blocks.flatten() + rest, n) == rest,
    decreases blocks.len(),
{
    if blocks.len() == 0 {
        assert(blocks =~= Seq::<Seq<A>>::empty());
        assert(blocks.flatten() + rest =~= rest);
    } else {
        let tail = blocks.drop_first();
        assert forall|i: int| 0 <= i < tail.len() implies (#[trigger] tail[i]).len() == n by {
            assert(tail[i] == blocks[i + 1]);
        }
        full_blocks_are_chunks(tail, rest, n);
        assert(blocks.flatten() == blocks.first() + tail.flatten());
        let s = blocks.flatten() + rest;
        assert(blocks.first() == blocks[0]);
        assert(s.take(n as int) =~= blocks[0]);
        assert(s.skip(n as int) =~= tail.flatten() + rest);
        assert(seq![blocks[0]] + tail =~= blocks);
    }
}

/// No sample is lost, doubled or moved: the blocks in their order, and then what is
/// left over, are the samples that went in.
pub proof fn chunks_join_back<A>(s: Seq<A>, n: nat)
    ensures
        chunks_of(s, n).flatten() + rest_of(s, n) == s,
    decreases s.len(),
{
    if n == 0 || s.len() < n {
        assert(Seq::<Seq<A>>::empty().flatten() =~= Seq::<A>::empty());
        assert(chunks_of(s, n).flatten() + rest_of(s, n) =~= s);
    } else {
        let tail = s.skip(n as int);
        chunks_join_back(tail, n);
        lemma_flatten_first(s.take(n as int), chunks_of(tail, n));
        assert(s.take(n as int) + (chunks_of(tail, n).flatten() + rest_of(tail, n)) =~= s);
        assert(chunks_of(s, n).flatten() + rest_of(s, n) =~= s);
    }
}

/// Interleaved samples cut into frames of `channels`. Where samples are missing at the
/// end, the last frame is shorter.
pub open spec fn frames_of<A>(s: Seq<A>, channels: nat) -> Seq<Seq<A>>
    decreases s.len(),
{
    if channels == 0 || s.len() == 0 {
        Seq::empty()
    } else if s.len() <= channels {
        seq![s]
    } else {
        seq![s.take(channels as int)] + frames_of(s.skip(channels as int), channels)
    }
}

/// Every frame but the last holds exactly `channels` samples, and the last at least one
/// and no more than that.
pub proof fn frames_are_even<A>(s: Seq<A>, channels: nat)
    ensures
        forall|i: int|
            0 <= i < frames_of(s, channels).len() ==> 0 < (#[trigger] frames_of(
                s,
                channels,
            )[i]).len() <= channels,
        forall|i: int|
            0 <= i < frames_of(s, channels).len() - 1 ==> (#[trigger] frames_of(
                s,
                channels,
            )[i]).len() == channels,
    decreases s.len(),
{
    if channels > 0 && s.len() > channels {
        let frames = frames_of(s, channels);
        let later = frames_of(s.skip(channels as int), channels);
        frames_are_even(s.skip(channels as int), channels);
        assert forall|i: int| 0 < i < frames.len() implies #[trigger] frames[i] == later[i - 1] by {
        }
    }
}

/// No sample is lost, doubled or moved between frames.
pub proof fn frames_join_back<A>(s: Seq<A>, channels: nat)
    requires
        channels > 0,
    ensures
        frames_of(s, channels).flatten() == s,
    decreases s.len(),
{
    let none = Seq::<Seq<A>>::empty();
    assert(none.flatten() =~= Seq::<A>::empty());
    if s.len() == 0 {
        assert(frames_of(s, channels).flatten() =~= s);
    } else if s.len() <= channels {
        lemma_flatten_first(s, none);
        assert(seq![s] + none =~= seq![s]);
        assert(s + none.flatten() =~= s);
    } else {
        let tail = s.skip(channels as int);
        frames_join_back(tail, channels);
        lemma_flatten_first(s.take(channels as int), frames_of(tail, channels));
        assert(s.take(channels as int) + tail =~= s);
    }
}

/// Cuts interleaved samples into frames.
pub fn split_frames(samples: &[u32], channels: usize) -> (r: Vec<Vec<u32>>)
    requires
        channels > 0,
    ensures
        r@.len() == frames_of(samples@, channels as nat).len(),
        forall|i: int|
            0 <= i < r@.len() ==> (#[trigger] r@[i])@ == frames_of(samples@, channels as nat)[i],
{
    let len: usize = samples.len();
    let mut frames: Vec<Vec<u32>> = Vec::new();
    let mut start: usize = 0;
    let ghost all = frames_of(samples@, channels as nat);
    assert(samples@.skip(0) =~= samples@);
    while start < len
        invariant
            channels > 0,
            start <= len,
            len == samples@.len(),
            all == frames_of(samples@, channels as nat),
            frames@.len() <= all.len(),
            forall|i: int| 0 <= i < frames@.len() ==> (#[trigger] frames@[i])@ == all[i],
            frames_of(samples@.skip(start as int), channels as nat) == all.skip(
                frames@.len() as int,
            ),
        decreases len - start,
    {
        let end: usize = if len - start <= channels {
            len
        } else {
            start + channels
        };
        let mut frame: Vec<u32> = Vec::new();
        let mut i: usize = start;
        while i < end
            invariant
                start <= i <= end <= len,
                len == samples@.len(),
                frame@ == samples@.subrange(start as int, i as int),
            decreases end - i,
        {
            frame.push(samples[i]);
            i = i + 1;
            assert(frame@ =~= samples@.subrange(start as int, i as int));
        }
        proof {
            let k = frames@.len() as int;
            let here = samples@.skip(start as int);
            let later = frames_of(samples@.skip(end as int), channels as nat);
            assert(here.skip(end - start) =~= samples@.skip(end as int));
            assert(here.take(end - start) =~= frame@);
            assert(frames_of(here, channels as nat) =~= seq![frame@] + later);
            assert(all.skip(k)[0] == frame@);
            assert(all[k] == frame@);
            assert(later =~= (seq![frame@] + later).skip(1));
            assert(all.skip(k).skip(1) =~= all.skip(k + 1));
        }
        frames.push(frame);
        start = end;
    }
    assert(all.skip(frames@.len() as int).len() == 0);
    frames
}

/// Samples waiting to be taken in blocks, the oldest first.
#[derive(Debug)]
pub struct SampleQueue {
    samples: Vec<u32>,
}

impl View for SampleQueue {
    type V = Seq<u32>;

    closed spec fn view(&self) -> Seq<u32> {
        self.samples@
    }
}

impl SampleQueue {
    /// Nothing waits.
    pub fn new() -> (r: Self)
        ensures
            r@ == Seq::<u32>::empty(),
    {
        SampleQueue { samples: Vec::new() }
    }

    /// Puts samples behind those that wait.
    pub fn extend(&mut self, samples: &Vec<u32>)
        ensures
            final(self)@ == old(self)@ + samples@,
    {
        self.samples.extend_from_slice(samples.as_slice());
        assert(self.samples@ =~= old(self).samples@ + samples@);
    }

    /// Takes the oldest `n` samples. Where fewer wait, all of them stay.
    pub fn take_chunk(&mut self, n: usize) -> (r: Option<Vec<u32>>)
        ensures
            match r {
                Some(chunk) => {
                    &&& old(self)@.len() >= n
                    &&& chunk@ == old(self)@.take(n as int)
                    &&& final(self)@ == old(self)@.skip(n as int)
                },
                None => old(self)@.len() < n && final(self)@ == old(self)@,
            },
    {
        if self.samples.len() < n {
            return None;
        }
        let mut chunk: Vec<u32> = self.samples.split_off(n);
        core::mem::swap(&mut chunk, &mut self.samples);
        assert(chunk@ =~= old(self)@.take(n as int));
        assert(self@ =~= old(self)@.skip(n as int));
        Some(chunk)
    }
}

/// What all of a run hands out, joined, is what all but the last hand out and then what the
/// last does.
pub(crate) proof fn lemma_joined_last<A, B>(s: Seq<A>, f: spec_fn(A) -> Seq<B>)
    requires
        s.len() > 0,
    ensures
        s.map_values(f).flatten() == s.drop_last().map_values(f).flatten() + f(s.last()),
{
    lemma_flatten_more(s.drop_last().map_values(f), f(s.last()));
    assert(s.map_values(f) =~= s.drop_last().map_values(f).push(f(s.last())));
}

/// Nothing joined is nothing.
pub(crate) proof fn lemma_joined_none<A, B>(s: Seq<A>, f: spec_fn(A) -> Seq<B>)
    requires
        s.len() == 0,
    ensures
        s.map_values(f).flatten() == Seq::<B>::empty(),
{
    assert(s.map_values(f) =~= Seq::<Seq<B>>::empty());
    assert(Seq::<Seq<B>>::empty().flatten() =~= Seq::<B>::empty());
}

/// Frames are those of the places they stand at: sample `k` is in frame `k / channels`, at
/// place `k % channels`, and there are no more frames than samples need.
pub proof fn frames_go_by_place<A>(s: Seq<A>, channels: nat, k: int)
    requires
        channels > 0,
        0 <= k < s.len(),
    ensures
        k / (channels as int) < frames_of(s, channels).len(),
        k % (channels as int) < frames_of(s, channels)[k / (channels as int)].len(),
        frames_of(s, channels)[k / (channels as int)][k % (channels as int)] == s[k],
        (frames_of(s, channels).len() - 1) * channels < s.len(),
    decreases s.len(),
{
    let n = channels as int;
    if s.len() <= channels {
        assert(frames_of(s, channels) =~= seq![s]);
        if k < n {
            vstd::arithmetic::div_mod::lemma_basic_div(k, n);
            vstd::arithmetic::div_mod::lemma_small_mod(k as nat, channels);
        }
        assert((frames_of(s, channels).len() - 1) * channels == 0) by (nonlinear_arith)
            requires
                frames_of(s, channels).len() == 1,
        ;
    } else {
        let tail = s.skip(n);
        let later = frames_of(tail, channels);
        let all = frames_of(s, channels);
        assert(all =~= seq![s.take(n)] + later);
        if k < n {
            vstd::arithmetic::div_mod::lemma_basic_div(k, n);
            vstd::arithmetic::div_mod::lemma_small_mod(k as nat, channels);
            frames_go_by_place(tail, channels, 0);
        } else {
            frames_go_by_place(tail, channels, k - n);
            vstd::arithmetic::div_mod::lemma_div_plus_one(k - n, n);
            vstd::arithmetic::div_mod::lemma_mod_add_multiples_vanish(k - n, n);
            assert((k - n + n) / n == (k - n) / n + 1);
            assert((n + (k - n)) % n == (k - n) % n);
            vstd::arithmetic::div_mod::lemma_div_pos_is_pos(k - n, n);
            assert(all[k / n] == later[(k - n) / n]);
            assert(tail[k - n] == s[k]);
        }
        assert((all.len() - 1) * channels == (later.len() - 1) * channels + channels)
            by (nonlinear_arith)
            requires
                all.len() == later.len() + 1,
        ;
    }
}

} // verus!
