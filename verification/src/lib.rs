//! A peer-to-peer chat: topic subscriptions, a flooding publish protocol and its wire format.
pub mod varint;
pub mod wire;
pub mod chat_pb;
pub mod roundtrip;
pub mod topic;
pub mod peer;
pub mod protocol;
pub mod trusted;
pub mod client;
pub mod layer;
pub mod laws;
