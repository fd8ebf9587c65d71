//! What the codec and the resamplers are set up with.
use vstd::prelude::*;

verus! {

/// The rate at which the codec works, in samples each second.
pub const OPUS_RATE: u32 = 48000;

/// The samples of one packet: 20 ms at the codec's rate.
pub const OPUS_FRAME_SAMPLES: usize = 960;

/// The room that the encoder gets for one packet, in bytes.
pub const MAX_PACKET_BYTES: usize = 4000;

/// The samples that the capture side resamples at a time.
pub const CAPTURE_CHUNK: usize = 1024;

/// What a resampler is made with.
#[derive(Debug, Clone, Copy, PartialEq, Eq, Structural)]
pub struct Resampling {
    /// Rate of what goes in.
    pub from_rate: usize,
    /// Rate of what comes out.
    pub to_rate: usize,
    /// Samples that go in at a time.
    pub chunk: usize,
    /// Parts in which each of these blocks is transformed.
    pub sub_chunks: usize,
    /// Channels: the voice is mono.
    pub channels: usize,
}

/// What the resampler of a capture device is made with, where it needs one.
pub open spec fn capture_settings(device_rate: u32) -> Option<Resampling> {
    if device_rate == OPUS_RATE {
        None
    } else {
        Some(
            Resampling {
                from_rate: device_rate as usize,
                to_rate: OPUS_RATE as usize,
                chunk: CAPTURE_CHUNK,
                sub_chunks: 2,
                channels: 1,
            },
        )
    }
}

/// What the resampler of a playback device is made with, where it needs one.
pub open spec fn playback_settings(output_rate: u32) -> Option<Resampling> {
    if output_rate == OPUS_RATE {
        None
    } else {
        Some(
            Resampling {
                from_rate: OPUS_RATE as usize,
                to_rate: output_rate as usize,
                chunk: OPUS_FRAME_SAMPLES,
                sub_chunks: 2,
                channels: 1,
            },
        )
    }
}

/// The resampler between a capture device and the encoder. A device at the codec's
/// rate needs none.
pub fn capture_resampling(device_rate: u32) -> (r: Option<Resampling>)
    ensures
        match r {
            Some(s) => {
                &&& device_rate != OPUS_RATE
                &&& s == (Resampling {
                    from_rate: device_rate as usize,
                    to_rate: OPUS_RATE as usize,
                    chunk: CAPTURE_CHUNK,
                    sub_chunks: 2,
                    channels: 1,
                })
            },
            None => device_rate == OPUS_RATE,
        },
        r == capture_settings(device_rate),
{
    if device_rate != OPUS_RATE {
        Some(
            Resampling {
                from_rate: device_rate as usize,
                to_rate: OPUS_RATE as usize,
                chunk: CAPTURE_CHUNK,
                sub_chunks: 2,
                channels: 1,
            },
        )
    } else {
        None
    }
}

/// The resampler between the decoder and a playback device. A device at the codec's
/// rate needs none.
pub fn playback_resampling(output_rate: u32) -> (r: Option<Resampling>)
    ensures
        match r {
            Some(s) => {
                &&& output_rate != OPUS_RATE
                &&& s == (Resampling {
                    from_rate: OPUS_RATE as usize,
                    to_rate: output_rate as usize,
                    chunk: OPUS_FRAME_SAMPLES,
                    sub_chunks: 2,
                    channels: 1,
                })
            },
            None => output_rate == OPUS_RATE,
        },
        r == playback_settings(output_rate),
{
    if output_rate != OPUS_RATE {
        Some(
            Resampling {
                from_rate: OPUS_RATE as usize,
                to_rate: output_rate as usize,
                chunk: OPUS_FRAME_SAMPLES,
                sub_chunks: 2,
                channels: 1,
            },
        )
    } else {
        None
    }
}

/// The two resamplers meet at the codec's rate: for a device of any rate either both are
/// needed or neither, what one turns into the codec's rate the other turns back, and both
/// work on the one channel of the voice.
pub proof fn resamplers_meet_at_codec_rate(rate: u32)
    ensures
        capture_settings(rate) is Some <==> rate != 48000,
        playback_settings(rate) is Some <==> rate != 48000,
        capture_settings(rate) matches Some(capture) ==> (playback_settings(rate) matches Some(
            playback,
        ) && {
            &&& capture.from_rate == rate
            &&& capture.to_rate == 48000
            &&& playback.from_rate == capture.to_rate
            &&& playback.to_rate == capture.from_rate
            &&& capture.channels == 1
            &&& playback.channels == 1
            &&& capture.sub_chunks == playback.sub_chunks == 2
            &&& capture.chunk == 1024
            &&& playback.chunk == 960
        }),
{
}

/// A frame lasts 20 ms, and the playback side resamples one frame at a time.
pub proof fn frame_lasts_twenty_ms(rate: u32)
    ensures
        OPUS_FRAME_SAMPLES * 1000 == OPUS_RATE * 20,
        playback_settings(rate) matches Some(playback) ==> playback.chunk * 1000
            == playback.from_rate * 20,
{
}

} // verus!
