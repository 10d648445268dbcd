[package]
name = "gap_monitor"
version = "0.1.0"
edition = "2021"
publish = false

[dependencies]
chrono = { version = "=0.4.45", default-features = false, features = ["clock"] }
reqwest = { version = "=0.13.5", default-features = false, features = ["json"] }
serde = { version = "=1.0.229", features = ["derive"] }
# takecell is a transitive dependency of teloxide, pinned here because its
# latest patch requires a newer rustc than this toolchain provides.
takecell = "=0.1.1"
teloxide = { version = "=0.17.0", default-features = false }
tokio = { version = "=1.53.2", features = ["rt-multi-thread", "macros", "time"] }
toml = "=1.1.7"
