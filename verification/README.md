# Voice chat

A peer-to-peer voice chat. Each side captures a microphone, cuts the sound into frames
of 20 ms, encodes them with Opus and sends the packets over a libp2p stream, each behind
a two-byte length. The other side reads the packets, decodes them and plays them through
a ring buffer. A relay helps peers behind a NAT find each other.

- `src/` is the verified library: framing, the cutting of samples into blocks, the
  playback buffer, the state machines of the capturing, sending and receiving sides, the
  addresses, and the answers at the prompts.
- `tests/` runs the library on concrete values.
- `app/` is the program around it: sound devices, sockets, the codec and the resampler.

Samples are single-precision values. The library moves them as their 32 bits; only
`app/` computes with them.

The program also needs the crate `cpal`, version 0.17, which links the sound library of
the system (ALSA on Linux). The library and its tests do without it, so the manifest
leaves it out; add it there to build `app/`.
