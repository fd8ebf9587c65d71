[package]
name = "voice_chat"
version = "0.1.0"
edition = "2021"
publish = false

[dependencies]
anyhow = "1"
audioadapter-buffers = "2"
futures = { version = "0.3", default-features = false, features = ["std"] }
libp2p = { version = "0.56", default-features = false, features = ["autonat", "dns", "identify", "macros", "noise", "quic", "relay", "tcp", "tokio", "yamux"] }
libp2p-stream = "0.4.0-alpha"
opus = "0.4"
rand = "0.8"
ringbuf = "0.4"
rubato = { version = "1", default-features = false, features = ["fft_resampler"] }
tokio = { version = "1", default-features = false, features = ["macros", "rt-multi-thread", "sync"] }
tracing = { version = "0.1", default-features = false, features = ["std"] }
tracing-subscriber = { version = "0.3", default-features = false, features = ["fmt"] }
