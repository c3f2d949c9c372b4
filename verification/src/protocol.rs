//! The chat protocol: what one exchange carries, how it is framed on a stream, and how it is
//! turned into bytes and back.
use vstd::prelude::*;
use vstd::slice::slice_to_vec;
use crate::chat_pb::{
    bytes_view, spec_decode_rpc, spec_encode_rpc, text_view, texts_view, Message, MessageModel,
    Rpc, RpcModel, SubOpts, SubOptsModel,
};
use crate::peer::{peer_id_canonical, peer_id_of, peer_id_valid, PeerId};
use crate::roundtrip::law_rpc_roundtrip;
use crate::topic::Topic;
use crate::varint::{
    decode_varint, encode_varint, lemma_varint_roundtrip, spec_decode_varint, spec_encode_varint,
    varint_end,
};
use crate::wire::{append_bytes, lemma_varint_len, DecodeErrorKind};

verus! {

#[verifier::external_type_specification]
#[verifier::external_body]
pub struct ExIoError(std::io::Error);

/// The largest packet that is read from a stream.
pub const MAX_PACKET_SIZE: usize = 2048;

/// The chat protocol, as negotiated on a new stream.
#[derive(Debug, Clone, Default)]
pub struct ChatProtocol {}

impl ChatProtocol {
    /// The names under which this protocol is negotiated.
    pub fn protocol_info(&self) -> (r: &'static str)
        ensures
            r@ == "/chat/1.0.0"@,
    {
        "/chat/1.0.0"
    }
}

/// Action that a subscription wants to perform.
#[derive(Debug, Clone, Copy, PartialEq, Eq, Structural, Hash)]
pub enum ChatSubscriptionAction {
    /// The remote wants to subscribe to the given topic.
    Subscribe,
    /// The remote wants to unsubscribe from the given topic.
    Unsubscribe,
}

/// A subscription received by the chat system.
#[derive(Debug, Clone, PartialEq, Eq, Hash)]
pub struct ChatSubscription {
    /// Action to perform.
    pub action: ChatSubscriptionAction,
    /// The topic from which to subscribe or unsubscribe.
    pub topic: Topic,
}

/// A message received by the chat system.
#[derive(Debug, Clone, PartialEq, Eq, Hash)]
pub struct ChatMessage {
    /// Id of the peer that published this message.
    pub source: PeerId,
    /// Name of the source that published this message.
    pub source_name: String,
    /// Name of the destination that will receive this message.
    pub to_name: Option<String>,
    /// Content of the message. Its meaning is out of scope of this library.
    pub data: Vec<u8>,
    /// The sequence number of the message: twenty random bytes for the messages published
    /// here, so that nobody can predict them and absorb our messages by flooding the network
    /// with their sequence numbers first.
    pub sequence_number: Vec<u8>,
    /// List of topics this message belongs to.
    ///
    /// Each message can belong to multiple topics at once.
    pub topics: Vec<Topic>,
}

/// An RPC received by the chat system.
#[derive(Debug, Clone, PartialEq, Eq, Hash)]
pub struct ChatRpc {
    /// List of messages that were part of this RPC query.
    pub messages: Vec<ChatMessage>,
    /// List of subscriptions.
    pub subscriptions: Vec<ChatSubscription>,
}

/// Why a buffer does not decode as a protobuf `Rpc`.
#[derive(Debug, Clone, Copy, PartialEq, Eq)]
pub struct DecodeError(pub DecodeErrorKind);

/// Why an inbound packet was refused.
#[derive(Debug)]
pub enum ChatDecodeError {
    /// Error when reading the packet from the socket.
    ReadError(std::io::Error),
    /// Error when decoding the raw buffer into a protobuf.
    ProtobufError(DecodeError),
    /// Error when parsing the `PeerId` in the message.
    InvalidPeerId,
}

/// What a `ChatSubscription` holds.
#[verifier::ext_equal]
pub struct ChatSubscriptionModel {
    pub action: ChatSubscriptionAction,
    pub topic: Seq<char>,
}

/// What a `ChatMessage` holds.
#[verifier::ext_equal]
pub struct ChatMessageModel {
    pub source: Seq<u8>,
    pub source_name: Seq<char>,
    pub to_name: Option<Seq<char>>,
    pub data: Seq<u8>,
    pub sequence_number: Seq<u8>,
    pub topics: Seq<Seq<char>>,
}

/// What a `ChatRpc` holds.
#[verifier::ext_equal]
pub struct ChatRpcModel {
    pub messages: Seq<ChatMessageModel>,
    pub subscriptions: Seq<ChatSubscriptionModel>,
}

pub open spec fn topics_view(v: Seq<Topic>) -> Seq<Seq<char>> {
    v.map_values(|t: Topic| t@)
}

impl View for ChatSubscription {
    type V = ChatSubscriptionModel;

    open spec fn view(&self) -> ChatSubscriptionModel {
        ChatSubscriptionModel { action: self.action, topic: self.topic@ }
    }
}

impl View for ChatMessage {
    type V = ChatMessageModel;

    open spec fn view(&self) -> ChatMessageModel {
        ChatMessageModel {
            source: self.source@,
            source_name: self.source_name@,
            to_name: text_view(self.to_name),
            data: self.data@,
            sequence_number: self.sequence_number@,
            topics: topics_view(self.topics@),
        }
    }
}

impl View for ChatRpc {
    type V = ChatRpcModel;

    open spec fn view(&self) -> ChatRpcModel {
        ChatRpcModel {
            messages: self.messages@.map_values(|m: ChatMessage| m@),
            subscriptions: self.subscriptions@.map_values(|s: ChatSubscription| s@),
        }
    }
}

// ---------------------------------------------------------------------------------------------
// From and to the protobuf messages.
pub open spec fn bytes_or_empty(o: Option<Seq<u8>>) -> Seq<u8> {
    match o {
        Some(b) => b,
        None => Seq::empty(),
    }
}

pub open spec fn text_or_empty(o: Option<Seq<char>>) -> Seq<char> {
    match o {
        Some(t) => t,
        None => Seq::empty(),
    }
}

/// The chat message that a protobuf `Message` stands for; absent fields become empty.
pub open spec fn message_from_pb(p: MessageModel) -> ChatMessageModel {
    ChatMessageModel {
        source: peer_id_of(bytes_or_empty(p.from_peer_id)),
        source_name: text_or_empty(p.from_name),
        to_name: p.to_name,
        data: bytes_or_empty(p.data),
        sequence_number: bytes_or_empty(p.seqno),
        topics: p.topic_ids,
    }
}

/// The subscription that a protobuf `SubOpts` stands for: a subscription exactly when its
/// `subscribe` flag is present and true.
pub open spec fn subscription_from_pb(p: SubOptsModel) -> ChatSubscriptionModel {
    ChatSubscriptionModel {
        action: if p.subscribe == Some(true) {
            ChatSubscriptionAction::Subscribe
        } else {
            ChatSubscriptionAction::Unsubscribe
        },
        topic: text_or_empty(p.topic_id),
    }
}

pub open spec fn rpc_from_pb(p: RpcModel) -> ChatRpcModel {
    ChatRpcModel {
        messages: p.publish.map_values(|m: MessageModel| message_from_pb(m)),
        subscriptions: p.subscriptions.map_values(|s: SubOptsModel| subscription_from_pb(s)),
    }
}

/// Whether every published message carries a peer id that libp2p accepts.
pub open spec fn peers_valid(p: RpcModel) -> bool {
    forall|i: int|
        0 <= i < p.publish.len() ==> #[trigger] peer_id_valid(
            bytes_or_empty(p.publish[i].from_peer_id),
        )
}

pub open spec fn message_to_pb(m: ChatMessageModel) -> MessageModel {
    MessageModel {
        from_peer_id: Some(m.source),
        from_name: Some(m.source_name),
        to_name: m.to_name,
        data: Some(m.data),
        seqno: Some(m.sequence_number),
        topic_ids: m.topics,
    }
}

pub open spec fn subscription_to_pb(s: ChatSubscriptionModel) -> SubOptsModel {
    SubOptsModel {
        subscribe: Some(s.action == ChatSubscriptionAction::Subscribe),
        topic_id: Some(s.topic),
    }
}

pub open spec fn rpc_to_pb(r: ChatRpcModel) -> RpcModel {
    RpcModel {
        subscriptions: r.subscriptions.map_values(|s: ChatSubscriptionModel| subscription_to_pb(s)),
        publish: r.messages.map_values(|m: ChatMessageModel| message_to_pb(m)),
    }
}

/// The bytes of a `ChatRpc` on the wire.
pub open spec fn spec_rpc_bytes(r: ChatRpcModel) -> Seq<u8> {
    spec_encode_rpc(rpc_to_pb(r))
}

/// What decoding an inbound packet comes to.
pub enum Inbound {
    Decoded(ChatRpcModel),
    BadProtobuf(DecodeErrorKind),
    BadPeerId,
}

/// Decodes an inbound packet: the protobuf `Rpc` first, then the peer id of every message.
pub open spec fn spec_decode_inbound(packet: Seq<u8>) -> Inbound {
    match spec_decode_rpc(packet) {
        Err(k) => Inbound::BadProtobuf(k),
        Ok(p) => if peers_valid(p) {
            Inbound::Decoded(rpc_from_pb(p))
        } else {
            Inbound::BadPeerId
        },
    }
}

/// Whether every message of `r` comes from a peer id that libp2p accepts, written as libp2p
/// writes it.
pub open spec fn sources_valid(r: ChatRpcModel) -> bool {
    forall|i: int| 0 <= i < r.messages.len() ==> #[trigger] peer_id_canonical(r.messages[i].source)
}

/// Decoding the bytes of a `ChatRpc` whose peer ids are valid gives it back, whenever the length
/// of the bytes fits in 64 bits.
pub proof fn law_chat_rpc_roundtrip(r: ChatRpcModel)
    requires
        sources_valid(r),
        spec_rpc_bytes(r).len() <= u64::MAX,
    ensures
        spec_decode_inbound(spec_rpc_bytes(r)) == Inbound::Decoded(r),
{
    let p = rpc_to_pb(r);
    law_rpc_roundtrip(p);
    assert forall|i: int| 0 <= i < p.publish.len() implies #[trigger] peer_id_valid(
        bytes_or_empty(p.publish[i].from_peer_id),
    ) by {
        assert(p.publish[i] == message_to_pb(r.messages[i]));
        assert(peer_id_canonical(r.messages[i].source));
    }
    assert forall|i: int| 0 <= i < r.messages.len() implies rpc_from_pb(p).messages[i]
        == r.messages[i] by {
        assert(p.publish[i] == message_to_pb(r.messages[i]));
        assert(peer_id_canonical(r.messages[i].source));
        assert(message_from_pb(p.publish[i]) =~= r.messages[i]);
    }
    assert(rpc_from_pb(p).messages =~= r.messages);
    assert(rpc_from_pb(p).subscriptions =~= r.subscriptions);
    assert(rpc_from_pb(p) =~= r);
}

fn topic_from_text(o: Option<String>) -> (r: Topic)
    ensures
        r@ == text_or_empty(text_view(o)),
{
    match o {
        Some(t) => Topic::new(t),
        None => Topic::new(String::new()),
    }
}

fn bytes_from_opt(o: Option<Vec<u8>>) -> (r: Vec<u8>)
    ensures
        r@ == bytes_or_empty(bytes_view(o)),
{
    match o {
        Some(b) => b,
        None => Vec::new(),
    }
}

fn topics_from_texts(v: Vec<String>) -> (r: Vec<Topic>)
    ensures
        topics_view(r@) == texts_view(v@),
{
    let mut r: Vec<Topic> = Vec::new();
    let mut i: usize = 0;
    while i < v.len()
        invariant
            i <= v@.len(),
            topics_view(r@) == texts_view(v@).take(i as int),
        decreases v@.len() - i,
    {
        let ghost before = r@;
        r.push(Topic::new(v[i].clone()));
        proof {
            assert(topics_view(r@) =~= topics_view(before).push(v@[i as int]@));
            assert(texts_view(v@).take(i + 1) =~= texts_view(v@).take(i as int).push(
                v@[i as int]@,
            ));
        }
        i += 1;
    }
    assert(texts_view(v@).take(v@.len() as int) =~= texts_view(v@));
    r
}

fn subscription_from_subopts(s: SubOpts) -> (r: ChatSubscription)
    ensures
        r@ == subscription_from_pb(s@),
{
    let action = match s.subscribe {
        Some(true) => ChatSubscriptionAction::Subscribe,
        _ => ChatSubscriptionAction::Unsubscribe,
    };
    ChatSubscription { action, topic: topic_from_text(s.topic_id) }
}

/// Decodes an inbound packet into a `ChatRpc`.
///
/// Fails with `ProtobufError` when the packet is not a protobuf `Rpc`, and with
/// `InvalidPeerId` when one of its messages does not carry a peer id that libp2p accepts, in
/// particular when one carries no peer id at all.
pub fn decode_inbound(packet: &[u8]) -> (r: Result<ChatRpc, ChatDecodeError>)
    ensures
        spec_decode_rpc(packet@) matches Ok(p) && (exists|i: int|
            0 <= i < p.publish.len() && (#[trigger] p.publish[i]).from_peer_id is None)
            ==> r matches Err(ChatDecodeError::InvalidPeerId),
        match spec_decode_inbound(packet@) {
            Inbound::Decoded(m) => r matches Ok(rpc) && rpc@ == m,
            Inbound::BadProtobuf(k) => r matches Err(ChatDecodeError::ProtobufError(e)) && e.0
                == k,
            Inbound::BadPeerId => r matches Err(ChatDecodeError::InvalidPeerId),
        },
{
    let rpc = match Rpc::decode(packet) {
        Err(k) => return Err(ChatDecodeError::ProtobufError(DecodeError(k))),
        Ok(rpc) => rpc,
    };
    let ghost p = rpc@;
    let Rpc { subscriptions, publish } = rpc;
    let mut messages: Vec<ChatMessage> = Vec::new();
    let mut i: usize = 0;
    while i < publish.len()
        invariant
            i <= publish@.len(),
            spec_decode_rpc(packet@) == Ok::<RpcModel, DecodeErrorKind>(p),
            p.publish == publish@.map_values(|m: Message| m@),
            forall|j: int| 0 <= j < i ==> #[trigger] peer_id_valid(
                bytes_or_empty(p.publish[j].from_peer_id),
            ),
            forall|j: int| 0 <= j < i ==> (#[trigger] p.publish[j]).from_peer_id is Some,
            messages@.map_values(|m: ChatMessage| m@) == p.publish.take(i as int).map_values(
                |m: MessageModel| message_from_pb(m),
            ),
        decreases publish@.len() - i,
    {
        let m = &publish[i];
        let peer_bytes = bytes_from_opt(m.from_peer_id.clone());
        assert(peer_bytes@ == bytes_or_empty(p.publish[i as int].from_peer_id)) by {
            assert(p.publish[i as int] == m@);
        }
        let source = match PeerId::from_bytes(peer_bytes.as_slice()) {
            None => {
                assert(!peer_id_valid(bytes_or_empty(p.publish[i as int].from_peer_id)));
                return Err(ChatDecodeError::InvalidPeerId);
            },
            Some(s) => s,
        };
        let source_name = match &m.from_name {
            Some(n) => n.clone(),
            None => String::new(),
        };
        let to_name = match &m.to_name {
            Some(n) => Some(n.clone()),
            None => None,
        };
        let data = match &m.data {
            Some(d) => slice_to_vec(d.as_slice()),
            None => Vec::new(),
        };
        let sequence_number = match &m.seqno {
            Some(d) => slice_to_vec(d.as_slice()),
            None => Vec::new(),
        };
        let mut topic_ids: Vec<String> = Vec::new();
        let mut k: usize = 0;
        while k < m.topic_ids.len()
            invariant
                k <= m.topic_ids@.len(),
                texts_view(topic_ids@) == texts_view(m.topic_ids@).take(k as int),
            decreases m.topic_ids@.len() - k,
        {
            let ghost before = topic_ids@;
            topic_ids.push(m.topic_ids[k].clone());
            proof {
                assert(texts_view(topic_ids@) =~= texts_view(before).push(m.topic_ids@[k as int]@));
                assert(texts_view(m.topic_ids@).take(k + 1) =~= texts_view(m.topic_ids@).take(
                    k as int,
                ).push(m.topic_ids@[k as int]@));
            }
            k += 1;
        }
        assert(texts_view(m.topic_ids@).take(m.topic_ids@.len() as int) =~= texts_view(
            m.topic_ids@,
        ));
        let topics = topics_from_texts(topic_ids);
        let msg = ChatMessage { source, source_name, to_name, data, sequence_number, topics };
        proof {
            assert(msg@ =~= message_from_pb(m@));
            assert(p.publish[i as int] == m@);
        }
        let ghost before = messages@;
        messages.push(msg);
        proof {
            assert(p.publish.take(i + 1) =~= p.publish.take(i as int).push(m@));
            assert(messages@.map_values(|x: ChatMessage| x@) =~= before.map_values(
                |x: ChatMessage| x@,
            ).push(msg@));
            assert(p.publish.take(i + 1).map_values(|x: MessageModel| message_from_pb(x))
                =~= p.publish.take(i as int).map_values(|x: MessageModel| message_from_pb(x)).push(
                message_from_pb(m@),
            ));
        }
        i += 1;
    }
    assert(p.publish.take(p.publish.len() as int) =~= p.publish);
    let mut subs: Vec<ChatSubscription> = Vec::new();
    let mut j: usize = 0;
    let ghost subs_pb = subscriptions@.map_values(|s: SubOpts| s@);
    while j < subscriptions.len()
        invariant
            j <= subscriptions@.len(),
            subs_pb == subscriptions@.map_values(|s: SubOpts| s@),
            subs@.map_values(|s: ChatSubscription| s@) == subs_pb.take(j as int).map_values(
                |s: SubOptsModel| subscription_from_pb(s),
            ),
        decreases subscriptions@.len() - j,
    {
        let s = &subscriptions[j];
        let sub = subscription_from_subopts(SubOpts {
            subscribe: s.subscribe,
            topic_id: match &s.topic_id {
                Some(t) => Some(t.clone()),
                None => None,
            },
        });
        let ghost before = subs@;
        subs.push(sub);
        proof {
            assert(subs_pb[j as int] == s@);
            assert(subs_pb.take(j + 1) =~= subs_pb.take(j as int).push(s@));
            assert(subs@.map_values(|x: ChatSubscription| x@) =~= before.map_values(
                |x: ChatSubscription| x@,
            ).push(sub@));
            assert(subs_pb.take(j + 1).map_values(|x: SubOptsModel| subscription_from_pb(x))
                =~= subs_pb.take(j as int).map_values(|x: SubOptsModel| subscription_from_pb(x)).push(
                subscription_from_pb(s@),
            ));
        }
        j += 1;
    }
    assert(subs_pb.take(subs_pb.len() as int) =~= subs_pb);
    let out = ChatRpc { messages, subscriptions: subs };
    assert(out@ =~= rpc_from_pb(p));
    Ok(out)
}

/// A copy of the topics of `v`.
pub fn duplicate_topics(v: &Vec<Topic>) -> (r: Vec<Topic>)
    ensures
        topics_view(r@) == topics_view(v@),
{
    let mut r: Vec<Topic> = Vec::new();
    let mut i: usize = 0;
    while i < v.len()
        invariant
            i <= v@.len(),
            topics_view(r@) == topics_view(v@).take(i as int),
        decreases v@.len() - i,
    {
        let ghost before = r@;
        r.push(v[i].duplicate());
        proof {
            assert(topics_view(r@) =~= topics_view(before).push(v@[i as int]@));
            assert(topics_view(v@).take(i + 1) =~= topics_view(v@).take(i as int).push(
                v@[i as int]@,
            ));
        }
        i += 1;
    }
    assert(topics_view(v@).take(v@.len() as int) =~= topics_view(v@));
    r
}

impl ChatMessage {
    /// A copy of this message.
    pub fn duplicate(&self) -> (r: ChatMessage)
        ensures
            r@ == self@,
    {
        let r = ChatMessage {
            source: self.source.duplicate(),
            source_name: self.source_name.clone(),
            to_name: match &self.to_name {
                Some(n) => Some(n.clone()),
                None => None,
            },
            data: slice_to_vec(self.data.as_slice()),
            sequence_number: slice_to_vec(self.sequence_number.as_slice()),
            topics: duplicate_topics(&self.topics),
        };
        assert(r@ =~= self@);
        r
    }
}

impl ChatRpc {
    /// The names under which the protocol that carries this RPC is negotiated.
    pub fn protocol_info(&self) -> (r: &'static str)
        ensures
            r@ == "/chat/1.0.0"@,
    {
        "/chat/1.0.0"
    }

    /// The frame that carries this `ChatRpc` on an outbound stream: its length, then its bytes.
    pub fn into_frame(self) -> (r: Vec<u8>)
        ensures
            r@ == spec_frame(spec_rpc_bytes(self@)),
    {
        let bytes = self.into_bytes();
        encode_frame(bytes.as_slice())
    }

    /// Turns this `ChatRpc` into the bytes of a protobuf `Rpc`, which decode back to it.
    pub fn into_bytes(self) -> (r: Vec<u8>)
        ensures
            r@ == spec_rpc_bytes(self@),
            r@.len() <= u64::MAX ==> spec_decode_inbound(r@) == Inbound::Decoded(self@),
    {
        let ghost me = self@;
        let mut publish: Vec<Message> = Vec::new();
        let mut i: usize = 0;
        while i < self.messages.len()
            invariant
                i <= self.messages@.len(),
                me == self@,
                publish@.map_values(|m: Message| m@) == me.messages.take(i as int).map_values(
                    |m: ChatMessageModel| message_to_pb(m),
                ),
                forall|j: int| 0 <= j < i ==> #[trigger] peer_id_canonical(me.messages[j].source),
            decreases self.messages@.len() - i,
        {
            let m = &self.messages[i];
            let from = m.source.to_bytes();
            let mut topic_ids: Vec<String> = Vec::new();
            let mut k: usize = 0;
            while k < m.topics.len()
                invariant
                    k <= m.topics@.len(),
                    texts_view(topic_ids@) == topics_view(m.topics@).take(k as int),
                decreases m.topics@.len() - k,
            {
                let ghost before = topic_ids@;
                topic_ids.push(m.topics[k].duplicate().into_string());
                proof {
                    assert(texts_view(topic_ids@) =~= texts_view(before).push(
                        m.topics@[k as int]@,
                    ));
                    assert(topics_view(m.topics@).take(k + 1) =~= topics_view(m.topics@).take(
                        k as int,
                    ).push(m.topics@[k as int]@));
                }
                k += 1;
            }
            assert(topics_view(m.topics@).take(m.topics@.len() as int) =~= topics_view(
                m.topics@,
            ));
            let pb = Message {
                from_peer_id: Some(from),
                from_name: Some(m.source_name.clone()),
                to_name: match &m.to_name {
                    Some(n) => Some(n.clone()),
                    None => None,
                },
                data: Some(slice_to_vec(m.data.as_slice())),
                seqno: Some(slice_to_vec(m.sequence_number.as_slice())),
                topic_ids,
            };
            proof {
                assert(me.messages[i as int] == m@);
                assert(pb@ =~= message_to_pb(m@));
            }
            let ghost before = publish@;
            publish.push(pb);
            proof {
                assert(me.messages.take(i + 1) =~= me.messages.take(i as int).push(m@));
                assert(publish@.map_values(|x: Message| x@) =~= before.map_values(|x: Message| x@).push(
                    pb@,
                ));
                assert(me.messages.take(i + 1).map_values(|x: ChatMessageModel| message_to_pb(x))
                    =~= me.messages.take(i as int).map_values(
                    |x: ChatMessageModel| message_to_pb(x),
                ).push(message_to_pb(m@)));
            }
            i += 1;
        }
        assert(me.messages.take(me.messages.len() as int) =~= me.messages);
        let mut subscriptions: Vec<SubOpts> = Vec::new();
        let mut j: usize = 0;
        while j < self.subscriptions.len()
            invariant
                j <= self.subscriptions@.len(),
                me == self@,
                subscriptions@.map_values(|s: SubOpts| s@) == me.subscriptions.take(
                    j as int,
                ).map_values(|s: ChatSubscriptionModel| subscription_to_pb(s)),
            decreases self.subscriptions@.len() - j,
        {
            let s = &self.subscriptions[j];
            let pb = SubOpts {
                subscribe: Some(s.action == ChatSubscriptionAction::Subscribe),
                topic_id: Some(s.topic.duplicate().into_string()),
            };
            proof {
                assert(me.subscriptions[j as int] == s@);
                assert(pb@ =~= subscription_to_pb(s@));
            }
            let ghost before = subscriptions@;
            subscriptions.push(pb);
            proof {
                assert(me.subscriptions.take(j + 1) =~= me.subscriptions.take(j as int).push(s@));
                assert(subscriptions@.map_values(|x: SubOpts| x@) =~= before.map_values(
                    |x: SubOpts| x@,
                ).push(pb@));
                assert(me.subscriptions.take(j + 1).map_values(
                    |x: ChatSubscriptionModel| subscription_to_pb(x),
                ) =~= me.subscriptions.take(j as int).map_values(
                    |x: ChatSubscriptionModel| subscription_to_pb(x),
                ).push(subscription_to_pb(s@)));
            }
            j += 1;
        }
        assert(me.subscriptions.take(me.subscriptions.len() as int) =~= me.subscriptions);
        let rpc = Rpc { subscriptions, publish };
        assert(rpc@ =~= rpc_to_pb(me));
        let r = rpc.encode_to_vec();
        proof {
            if r@.len() <= u64::MAX {
                law_chat_rpc_roundtrip(me);
            }
        }
        r
    }
}

// ---------------------------------------------------------------------------------------------
// Framing on a stream: the length of the packet as a varint, then the packet.
/// A frame: the length of `payload` as a varint, then `payload`.
pub open spec fn spec_frame(payload: Seq<u8>) -> Seq<u8> {
    spec_encode_varint(payload.len()) + payload
}

/// Frames `payload` for writing to a stream.
pub fn encode_frame(payload: &[u8]) -> (r: Vec<u8>)
    ensures
        r@ == spec_frame(payload@),
{
    let mut out: Vec<u8> = Vec::new();
    encode_varint(payload.len() as u64, &mut out);
    append_bytes(&mut out, payload);
    assert(out@ =~= spec_frame(payload@));
    out
}

/// What the first bytes read from a stream say of the frame they start.
#[derive(Debug, Clone, Copy, PartialEq, Eq, Structural)]
pub enum FrameHeader {
    /// The length prefix is not complete yet: read one more byte.
    Incomplete,
    /// The bytes cannot start a length prefix.
    Invalid,
    /// The length prefix takes `header_len` bytes and announces `len` bytes of packet.
    Complete { len: u64, header_len: usize },
}

/// Whether every byte of `s` has its high bit set and there are fewer than ten of them: more
/// bytes may still complete a length prefix.
pub open spec fn header_open(s: Seq<u8>) -> bool {
    s.len() < 10 && forall|i: int| 0 <= i < s.len() ==> s[i] >= 128
}

/// Reads the length prefix at the start of `header`.
pub fn parse_frame_header(header: &[u8]) -> (r: FrameHeader)
    ensures
        match spec_decode_varint(header@) {
            Some((len, n)) => r == FrameHeader::Complete { len, header_len: n as usize },
            None => if header_open(header@) {
                r == FrameHeader::Incomplete
            } else {
                r == FrameHeader::Invalid
            },
        },
{
    proof {
        lemma_varint_len(header@);
        assert(header@.subrange(0, header@.len() as int) =~= header@);
    }
    match decode_varint(header, 0, header.len()) {
        Some((len, n)) => FrameHeader::Complete { len, header_len: n },
        None => {
            if header.len() >= 10 {
                return FrameHeader::Invalid;
            }
            let mut i: usize = 0;
            while i < header.len()
                invariant
                    i <= header@.len() < 10,
                    spec_decode_varint(header@) is None,
                    forall|j: int| 0 <= j < i ==> header@[j] >= 128,
                decreases header@.len() - i,
            {
                if header[i] < 128 {
                    proof {
                        lemma_first_low_byte(header@, 0, i as nat);
                    }
                    return FrameHeader::Invalid;
                }
                i += 1;
            }
            FrameHeader::Incomplete
        },
    }
}

proof fn lemma_first_low_byte(s: Seq<u8>, k: nat, i: nat)
    requires
        k <= i < s.len(),
        i < 10,
        s[i as int] < 128,
        forall|j: int| 0 <= j < i ==> s[j] >= 128,
    ensures
        varint_end(s, k) == Some(i + 1),
    decreases i - k,
{
    if k < i {
        lemma_first_low_byte(s, k + 1, i);
    }
}

/// The length of the packet that a frame header announces, when it is within the limit.
pub fn packet_len(len: u64) -> (r: Option<usize>)
    ensures
        r is Some <==> len <= MAX_PACKET_SIZE,
        r matches Some(n) ==> n == len,
{
    if len <= MAX_PACKET_SIZE as u64 {
        Some(len as usize)
    } else {
        None
    }
}

/// The header of a frame reads back as complete, with the length of its packet.
pub proof fn law_frame_header(payload: Seq<u8>, rest: Seq<u8>)
    requires
        payload.len() <= u64::MAX,
    ensures
        spec_decode_varint(spec_frame(payload) + rest) == Some(
            (payload.len() as u64, spec_encode_varint(payload.len()).len()),
        ),
{
    assert(spec_frame(payload) + rest =~= spec_encode_varint(payload.len()) + (payload + rest));
    lemma_varint_roundtrip(payload.len() as u64, payload + rest);
}

} // verus!
