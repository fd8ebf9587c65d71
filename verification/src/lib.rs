//! The decisions of a peer-to-peer voice chat, verified.
//!
//! The program around this library talks to sound cards, sockets, a codec and a
//! resampler. What it does with the answers is decided here: how packets are
//! framed on a voice stream, how samples are cut into blocks and handed to the
//! playback buffer, which addresses are dialled and listened on, and what the
//! answers typed at the prompts mean.
//!
//! A sample is held as the 32 bits of its single-precision value; silence is 0.
pub mod address;
pub mod audio;
pub mod capture;
pub mod chunks;
pub mod connection;
pub mod devices;
pub mod playback;
pub mod receive;
pub mod select;
pub mod send;
pub mod session;
pub mod text;
pub mod wire;

