# p2p_chat

A peer-to-peer chat over libp2p: peers subscribe to topics, and published messages are
flooded to the connected peers that are subscribed to one of their topics.

- `src/` is the library, verified with Verus:
  - `varint.rs`, `wire.rs`, `chat_pb.rs`, `roundtrip.rs`: the protobuf encoding of the chat
    RPCs, with the proof that decoding an encoded RPC gives it back;
  - `protocol.rs`: the chat RPCs, the checks on inbound packets and the length-prefixed frames;
  - `topic.rs`, `peer.rs`: topics and peer ids;
  - `layer.rs`: the chat behaviour as a state machine (subscriptions, targets, connected peers,
    publishing, handling of received RPCs) with a model; each operation's contract fixes the
    new model, and what the filter of received messages answers, which rests on its random
    evictions, is stated as far as the filter's source shows it;
  - `laws.rs`: properties that span operations (subscribing then unsubscribing, idempotence,
    never echoing a message to its source, dropping a message the filter of received messages
    reports or that came earlier in the same RPC while the filter dropped nothing, the
    connected peers being those with an open connection, ...);
  - `client.rs`: the command-line client's decisions (reading a typed line, showing a message,
    the addresses to dial and listen on);
  - `trusted.rs`: the outside collections and randomness the behaviour relies on.
- `app/` runs it: the libp2p swarm, the stream upgrades, mDNS discovery and the stdin loop.
- `tests/` exercises the library on concrete values.

The set of target peers and the map of connected peers are vectors without duplicates: vstd
states the operations of `HashSet` and `HashMap` only for keys it knows to hash and compare
faithfully (`obeys_key_model`), which it grants to primitive types alone, and a peer id is a
struct of this library.
