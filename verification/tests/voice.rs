use voice_chat::audio::{
    capture_resampling, playback_resampling, Resampling, CAPTURE_CHUNK, MAX_PACKET_BYTES,
    OPUS_FRAME_SAMPLES, OPUS_RATE,
};
use voice_chat::capture::{Capture, CaptureAction, CaptureEvent};
use voice_chat::chunks::{split_frames, SampleQueue};
use voice_chat::playback::{
    next_sample, playback_buffer, push_upmixed, sample_or_silence, PlaybackConsumer,
    PlaybackProducer,
};
use voice_chat::receive::{ReceiveAction, ReceiveEvent, Receiver};
use voice_chat::send::{PacketSender, SendAction, SendEvent};
use voice_chat::wire::{packet_header, packet_length};

fn ramp(from: u32, count: u32) -> Vec<u32> {
    (from..from + count).collect()
}

fn played(consumer: &mut PlaybackConsumer, count: usize) -> Vec<u32> {
    (0..count).map(|_| next_sample(consumer)).collect()
}

/// Runs a sender over `packets` and gives the bytes it writes.
fn written(packets: Vec<Vec<u8>>) -> Vec<u8> {
    let (mut sender, mut action) = PacketSender::start();
    let mut waiting = packets.into_iter();
    let mut bytes = Vec::new();
    loop {
        let event = match action {
            SendAction::Receive => match waiting.next() {
                Some(packet) => SendEvent::Packet(packet),
                None => SendEvent::Closed,
            },
            SendAction::Write(part) => {
                bytes.extend_from_slice(&part);
                SendEvent::Done
            }
            SendAction::Flush => SendEvent::Done,
            SendAction::Finish => return bytes,
            SendAction::Abort => panic!("aborted"),
        };
        action = sender.step(event);
    }
}

/// Runs a receiver over `bytes`, with a decoder that makes one sample of each byte and a
/// resampler, where one is used, that repeats each sample. Gives the decoded packets.
fn received(
    bytes: &[u8],
    resampler: Option<usize>,
    channels: usize,
    producer: &mut PlaybackProducer,
) -> Vec<Vec<u8>> {
    let (mut receiver, mut action) = Receiver::start(resampler.is_some(), channels);
    let mut rest = bytes;
    let mut packets = Vec::new();
    loop {
        let event = match action {
            ReceiveAction::ReadHeader => {
                if rest.len() < 2 {
                    ReceiveEvent::ReadFailed
                } else {
                    let header = [rest[0], rest[1]];
                    rest = &rest[2..];
                    ReceiveEvent::HeaderRead(header)
                }
            }
            ReceiveAction::ReadBody(n) => {
                if rest.len() < n {
                    ReceiveEvent::ReadFailed
                } else {
                    let body = rest[..n].to_vec();
                    rest = &rest[n..];
                    ReceiveEvent::BodyRead(body)
                }
            }
            ReceiveAction::Decode(packet) => {
                let mut pcm: Vec<i16> = packet.iter().map(|&b| b as i16).collect();
                let len = pcm.len();
                pcm.resize(len + 5, -1);
                packets.push(packet);
                ReceiveEvent::Decoded { pcm, len }
            }
            ReceiveAction::Convert(pcm) => ReceiveEvent::Converted {
                samples: pcm.iter().map(|&s| s as u32).collect(),
                chunk_size: resampler.unwrap_or(0),
            },
            ReceiveAction::Resample(block) => {
                assert_eq!(Some(block.len()), resampler);
                ReceiveEvent::Resampled(block.iter().flat_map(|&s| [s, s]).collect())
            }
            ReceiveAction::Stop => return packets,
        };
        action = receiver.step(producer, event);
    }
}

#[test]
fn codec_settings() {
    assert_eq!(OPUS_RATE, 48000);
    assert_eq!(OPUS_FRAME_SAMPLES, 960);
    assert_eq!(OPUS_FRAME_SAMPLES as u32 * 50, OPUS_RATE);
    assert_eq!(MAX_PACKET_BYTES, 4000);
    assert_eq!(CAPTURE_CHUNK, 1024);
}

#[test]
fn resamplers_only_at_other_rates() {
    assert_eq!(capture_resampling(48000), None);
    assert_eq!(playback_resampling(48000), None);
    assert_eq!(
        capture_resampling(44100),
        Some(Resampling {
            from_rate: 44100,
            to_rate: 48000,
            chunk: 1024,
            sub_chunks: 2,
            channels: 1
        })
    );
    assert_eq!(
        playback_resampling(16000),
        Some(Resampling {
            from_rate: 48000,
            to_rate: 16000,
            chunk: 960,
            sub_chunks: 2,
            channels: 1
        })
    );
}

#[test]
fn frames_of_interleaved_samples() {
    assert_eq!(split_frames(&[1, 2, 3, 4, 5, 6], 2), vec![vec![1, 2], vec![3, 4], vec![5, 6]]);
    assert_eq!(split_frames(&[1, 2, 3, 4, 5], 2), vec![vec![1, 2], vec![3, 4], vec![5]]);
    assert_eq!(split_frames(&[1, 2, 3], 1), vec![vec![1], vec![2], vec![3]]);
    assert_eq!(split_frames(&[1, 2], 6), vec![vec![1, 2]]);
    assert_eq!(split_frames(&[], 2), Vec::<Vec<u32>>::new());
}

#[test]
fn frames_are_those_of_std() {
    let samples = ramp(0, 23);
    for channels in 1..30 {
        let expected: Vec<Vec<u32>> = samples.chunks(channels).map(|c| c.to_vec()).collect();
        assert_eq!(split_frames(&samples, channels), expected);
    }
}

#[test]
fn queue_gives_full_blocks() {
    let mut queue = SampleQueue::new();
    assert_eq!(queue.take_chunk(2), None);
    queue.extend(&vec![1, 2, 3]);
    queue.extend(&vec![4, 5]);
    assert_eq!(queue.take_chunk(2), Some(vec![1, 2]));
    assert_eq!(queue.take_chunk(3), Some(vec![3, 4, 5]));
    assert_eq!(queue.take_chunk(1), None);
    assert_eq!(queue.take_chunk(0), Some(vec![]));
}

#[test]
fn headers_hold_the_length() {
    assert_eq!(packet_header(0), [0, 0]);
    assert_eq!(packet_header(1), [0, 1]);
    assert_eq!(packet_header(255), [0, 255]);
    assert_eq!(packet_header(256), [1, 0]);
    assert_eq!(packet_header(300), [1, 44]);
    assert_eq!(packet_header(4000), [15, 160]);
    assert_eq!(packet_header(65535), [255, 255]);
}

#[test]
fn headers_hold_sixteen_bits_only() {
    assert_eq!(packet_header(65536), [0, 0]);
    assert_eq!(packet_header(65536 + 300), [1, 44]);
    assert_eq!(packet_header(usize::MAX), [255, 255]);
}

#[test]
fn headers_read_back() {
    for len in 0..=u16::MAX {
        let header = packet_header(len as usize);
        assert_eq!(header, len.to_be_bytes());
        assert_eq!(packet_length(header), len as usize);
    }
}

#[test]
fn sender_writes_headers_and_packets() {
    assert_eq!(written(vec![]), Vec::<u8>::new());
    assert_eq!(
        written(vec![vec![7, 8, 9], vec![], vec![1]]),
        vec![0, 3, 7, 8, 9, 0, 0, 0, 1, 1]
    );
    let long = vec![5u8; 300];
    let bytes = written(vec![long.clone()]);
    assert_eq!(bytes[..2], [1, 44]);
    assert_eq!(bytes[2..], long[..]);
}

#[test]
fn sender_flushes_behind_each_packet() {
    let (mut sender, first) = PacketSender::start();
    assert!(matches!(first, SendAction::Receive));
    match sender.step(SendEvent::Packet(vec![9])) {
        SendAction::Write(bytes) => assert_eq!(bytes, vec![0, 1]),
        _ => panic!("no header"),
    }
    match sender.step(SendEvent::Done) {
        SendAction::Write(bytes) => assert_eq!(bytes, vec![9]),
        _ => panic!("no packet"),
    }
    assert!(matches!(sender.step(SendEvent::Done), SendAction::Flush));
    assert!(matches!(sender.step(SendEvent::Done), SendAction::Receive));
    assert!(matches!(sender.step(SendEvent::Closed), SendAction::Finish));
}

#[test]
fn sender_stops_at_an_error() {
    for done in 0..3 {
        let (mut sender, _) = PacketSender::start();
        sender.step(SendEvent::Packet(vec![9]));
        for _ in 0..done {
            sender.step(SendEvent::Done);
        }
        assert!(matches!(sender.step(SendEvent::Failed), SendAction::Abort));
    }
}

#[test]
fn sent_packets_arrive_in_order() {
    let packets = vec![vec![1, 2, 3], vec![], vec![4; 300], vec![5]];
    let (mut producer, mut consumer) = playback_buffer(48000, 1);
    let bytes = written(packets.clone());
    assert_eq!(received(&bytes, None, 1, &mut producer), packets);
    let mut expected = vec![1, 2, 3];
    expected.extend_from_slice(&[4; 300]);
    expected.push(5);
    assert_eq!(played(&mut consumer, 304), expected);
    assert_eq!(next_sample(&mut consumer), 0);
}

#[test]
fn cut_stream_loses_the_last_packet_only() {
    let packets = vec![vec![1, 2, 3], vec![4, 5]];
    let bytes = written(packets.clone());
    for k in 0..=bytes.len() {
        let (mut producer, _consumer) = playback_buffer(100, 1);
        let whole = if k < 5 { 0 } else if k < 9 { 1 } else { 2 };
        assert_eq!(received(&bytes[..k], None, 1, &mut producer), packets[..whole]);
    }
}

#[test]
fn received_samples_pass_through_the_resampler() {
    let (mut producer, mut consumer) = playback_buffer(100, 2);
    let bytes = written(vec![vec![1, 2], vec![3, 4, 5, 6, 7], vec![8]]);
    received(&bytes, Some(3), 2, &mut producer);
    let mut expected = Vec::new();
    for s in 1..=6 {
        expected.extend_from_slice(&[s; 4]);
    }
    assert_eq!(played(&mut consumer, 24), expected);
    assert_eq!(next_sample(&mut consumer), 0);
}

#[test]
fn receiver_goes_on_behind_failures() {
    let (mut producer, mut consumer) = playback_buffer(100, 1);
    let (mut receiver, _) = Receiver::start(true, 1);
    assert!(matches!(
        receiver.step(&mut producer, ReceiveEvent::DecodeFailed),
        ReceiveAction::ReadHeader
    ));
    let converted = ReceiveEvent::Converted { samples: vec![1, 2, 3, 4, 5], chunk_size: 2 };
    match receiver.step(&mut producer, converted) {
        ReceiveAction::Resample(block) => assert_eq!(block, vec![1, 2]),
        _ => panic!("no block"),
    }
    match receiver.step(&mut producer, ReceiveEvent::ResampleFailed) {
        ReceiveAction::Resample(block) => assert_eq!(block, vec![3, 4]),
        _ => panic!("no block"),
    }
    assert!(matches!(
        receiver.step(&mut producer, ReceiveEvent::Resampled(vec![9])),
        ReceiveAction::ReadHeader
    ));
    assert!(matches!(
        receiver.step(&mut producer, ReceiveEvent::ReadFailed),
        ReceiveAction::Stop
    ));
    assert_eq!(played(&mut consumer, 2), vec![9, 0]);
}

#[test]
fn receiver_asks_for_the_announced_length() {
    let (mut producer, _consumer) = playback_buffer(10, 1);
    let (mut receiver, first) = Receiver::start(false, 1);
    assert!(matches!(first, ReceiveAction::ReadHeader));
    let action = receiver.step(&mut producer, ReceiveEvent::HeaderRead([1, 44]));
    assert!(matches!(action, ReceiveAction::ReadBody(300)));
    match receiver.step(&mut producer, ReceiveEvent::BodyRead(vec![6, 7])) {
        ReceiveAction::Decode(packet) => assert_eq!(packet, vec![6, 7]),
        _ => panic!("nothing to decode"),
    }
    let decoded = ReceiveEvent::Decoded { pcm: vec![10, 20, 30, 0, 0], len: 3 };
    match receiver.step(&mut producer, decoded) {
        ReceiveAction::Convert(pcm) => assert_eq!(pcm, vec![10, 20, 30]),
        _ => panic!("nothing to convert"),
    }
}

#[test]
fn every_channel_gets_every_sample() {
    let (mut producer, mut consumer) = playback_buffer(8, 2);
    let half = 0.5f32.to_bits();
    push_upmixed(&mut producer, &[half, 7], 2);
    assert_eq!(played(&mut consumer, 4), vec![half, half, 7, 7]);
    assert_eq!(f32::from_bits(next_sample(&mut consumer)), 0.0);
    push_upmixed(&mut producer, &[1, 2, 3], 0);
    assert_eq!(next_sample(&mut consumer), 0);
}

#[test]
fn full_buffer_drops_the_newest() {
    let (mut producer, mut consumer) = playback_buffer(3, 1);
    push_upmixed(&mut producer, &[1, 2, 3, 4, 5], 1);
    assert_eq!(played(&mut consumer, 2), vec![1, 2]);
    push_upmixed(&mut producer, &[6, 7, 8], 1);
    assert_eq!(played(&mut consumer, 4), vec![3, 6, 7, 0]);
}

#[test]
fn samples_come_out_as_they_went_in() {
    let (mut producer, mut consumer) = playback_buffer(4, 1);
    let mut heard = Vec::new();
    for round in 0..5 {
        heard.push(next_sample(&mut consumer));
        push_upmixed(&mut producer, &[10 * round + 1, 10 * round + 2], 1);
        heard.extend(played(&mut consumer, 3));
    }
    let expected: Vec<u32> =
        (0..5).flat_map(|round| [0, 10 * round + 1, 10 * round + 2, 0]).collect();
    assert_eq!(heard, expected);
}

#[test]
fn two_buffers_are_apart() {
    let (mut producer, mut consumer) = playback_buffer(4, 1);
    let (_other_producer, mut other_consumer) = playback_buffer(4, 1);
    push_upmixed(&mut producer, &[1, 2], 1);
    assert_eq!(played(&mut other_consumer, 2), vec![0, 0]);
    assert_eq!(played(&mut consumer, 2), vec![1, 2]);
}

#[test]
fn untouched_buffer_keeps_the_oldest() {
    let (mut producer, mut consumer) = playback_buffer(5, 1);
    push_upmixed(&mut producer, &[1, 2], 2);
    push_upmixed(&mut producer, &[3, 4], 2);
    push_upmixed(&mut producer, &[5], 2);
    assert_eq!(played(&mut consumer, 6), vec![1, 1, 2, 2, 3, 0]);
}

#[test]
fn parts_are_pushed_like_the_whole() {
    let samples = ramp(1, 6);
    for cut in 0..=samples.len() {
        for rate in [4, 9, 20] {
            let (mut whole, mut whole_out) = playback_buffer(rate, 1);
            let (mut parts, mut parts_out) = playback_buffer(rate, 1);
            push_upmixed(&mut whole, &samples, 2);
            push_upmixed(&mut parts, &samples[..cut], 2);
            push_upmixed(&mut parts, &samples[cut..], 2);
            assert_eq!(played(&mut whole_out, 21), played(&mut parts_out, 21));
        }
    }
}

#[test]
fn buffer_holds_a_second() {
    let (mut producer, mut consumer) = playback_buffer(100, 2);
    push_upmixed(&mut producer, &ramp(1, 150), 2);
    let mut expected: Vec<u32> = ramp(1, 100).iter().flat_map(|&s| [s, s]).collect();
    expected.push(0);
    assert_eq!(played(&mut consumer, 201), expected);
}

#[test]
fn empty_buffer_plays_silence() {
    let (_producer, mut consumer) = playback_buffer(10, 1);
    assert_eq!(played(&mut consumer, 3), vec![0, 0, 0]);
    assert_eq!(sample_or_silence(None), 0);
    assert_eq!(sample_or_silence(Some(9)), 9);
    assert_eq!(0.0f32.to_bits(), 0);
}

/// Runs a capture side over what the microphone delivers, with a resampler, where one is
/// used, that drops every other sample. Gives the frames that were encoded.
fn encoded(input: Vec<Vec<u32>>, resampler: Option<usize>) -> Vec<Vec<u32>> {
    let (mut capture, mut action) = Capture::start(resampler.is_some());
    let mut waiting = input.into_iter();
    let mut frames = Vec::new();
    let mut sent = 0;
    loop {
        let event = match action {
            CaptureAction::Receive => match waiting.next() {
                Some(samples) => {
                    CaptureEvent::Samples { samples, chunk_size: resampler.unwrap_or(0) }
                }
                None => CaptureEvent::Closed,
            },
            CaptureAction::Resample(block) => {
                assert_eq!(Some(block.len()), resampler);
                CaptureEvent::Resampled(block.iter().copied().step_by(2).collect())
            }
            CaptureAction::Encode(frame) => {
                frames.push(frame);
                let mut buffer = vec![0u8; MAX_PACKET_BYTES];
                buffer[0] = frames.len() as u8;
                CaptureEvent::Encoded { buffer, len: 1 }
            }
            CaptureAction::Send(packet) => {
                sent += 1;
                assert_eq!(packet, vec![sent as u8]);
                CaptureEvent::Sent
            }
            CaptureAction::Finish => {
                assert_eq!(sent, frames.len());
                return frames;
            }
        };
        action = capture.step(event);
    }
}

#[test]
fn captured_samples_are_cut_into_frames() {
    let samples = ramp(0, 2000);
    let expected = vec![samples[..960].to_vec(), samples[960..1920].to_vec()];
    assert_eq!(encoded(vec![samples.clone()], None), expected);
    let spread: Vec<Vec<u32>> = samples.chunks(100).map(|c| c.to_vec()).collect();
    assert_eq!(encoded(spread, None), expected);
    assert_eq!(encoded(vec![ramp(0, 959)], None), Vec::<Vec<u32>>::new());
    assert_eq!(encoded(vec![ramp(0, 959), ramp(959, 1)], None), vec![ramp(0, 960)]);
}

#[test]
fn captured_samples_pass_through_the_resampler() {
    let samples = ramp(0, 5000);
    let spread: Vec<Vec<u32>> = samples.chunks(700).map(|c| c.to_vec()).collect();
    let halved: Vec<u32> = samples[..4096].iter().copied().step_by(2).collect();
    let frames = encoded(spread, Some(1024));
    assert_eq!(frames, vec![halved[..960].to_vec(), halved[960..1920].to_vec()]);
}

#[test]
fn capture_goes_on_behind_failures() {
    let (mut capture, first) = Capture::start(true);
    assert!(matches!(first, CaptureAction::Receive));
    let samples = CaptureEvent::Samples { samples: ramp(0, 5), chunk_size: 2 };
    match capture.step(samples) {
        CaptureAction::Resample(block) => assert_eq!(block, vec![0, 1]),
        _ => panic!("no block"),
    }
    match capture.step(CaptureEvent::ResampleFailed) {
        CaptureAction::Resample(block) => assert_eq!(block, vec![2, 3]),
        _ => panic!("no block"),
    }
    match capture.step(CaptureEvent::Resampled(ramp(0, 1930))) {
        CaptureAction::Encode(frame) => assert_eq!(frame, ramp(0, 960)),
        _ => panic!("no frame"),
    }
    match capture.step(CaptureEvent::EncodeFailed) {
        CaptureAction::Encode(frame) => assert_eq!(frame, ramp(960, 960)),
        _ => panic!("no frame"),
    }
    assert!(matches!(capture.step(CaptureEvent::EncodeFailed), CaptureAction::Receive));
    assert!(matches!(capture.step(CaptureEvent::Closed), CaptureAction::Finish));
}

#[test]
fn packets_are_what_the_encoder_filled() {
    let (mut capture, _) = Capture::start(false);
    match capture.step(CaptureEvent::Encoded { buffer: vec![1, 2, 3, 4], len: 2 }) {
        CaptureAction::Send(packet) => assert_eq!(packet, vec![1, 2]),
        _ => panic!("no packet"),
    }
    match capture.step(CaptureEvent::Encoded { buffer: vec![1, 2], len: 9 }) {
        CaptureAction::Send(packet) => assert_eq!(packet, vec![1, 2]),
        _ => panic!("no packet"),
    }
}
