[package]
name = "p2p_chat"
version = "0.1.0"
edition = "2021"
publish = false

[dependencies]
libp2p = { version = "0.54", features = ["async-std", "tcp", "dns", "noise", "yamux", "mdns", "floodsub", "macros"] }
libp2p-core = "0.42"
libp2p-swarm = "0.45"
libp2p-identity = { version = "0.2", features = ["peerid", "ed25519"] }
cuckoofilter = "0.5"
fnv = "1"
smallvec = "1"
rand = "0.8"
futures = "0.3"
async-std = { version = "1", features = ["attributes"] }
clap = { version = "4", features = ["derive"] }
dotenv = "0.15"
env_logger = "0.10"
log = "0.4"
anyhow = "1"
once_cell = "1"
void = "1"
thiserror = "1"

[dev-dependencies]
prost = "0.11"
