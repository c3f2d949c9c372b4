//! The network behaviour of the chat: which peers it talks to, which topics it and they are
//! subscribed to, and what it asks the swarm to do.
use vstd::prelude::*;
use std::collections::hash_map::DefaultHasher;
use std::collections::VecDeque;
use cuckoofilter::{CuckooError, CuckooFilter};
use crate::client::ChatConfig;
use crate::peer::PeerId;
use crate::protocol::{
    topics_view, ChatMessage, ChatMessageModel, ChatRpc, ChatRpcModel, ChatSubscription,
    ChatSubscriptionAction, ChatSubscriptionModel,
};
use crate::topic::Topic;
use crate::trusted::{
    random_sequence_number, received_filter_add, received_filter_new, received_reports,
    received_filter_test_and_add, topic_list, topic_list_get, topic_list_len, topic_list_new,
    topic_list_push, topic_list_remove, TopicList,
};

verus! {

/// Event that can happen on the chat behaviour.
#[derive(Debug, PartialEq, Eq)]
pub enum ChatEvent {
    /// A message has been received.
    Message(ChatMessage),
    /// A remote subscribed to a topic.
    Subscribed {
        /// Remote that has subscribed.
        peer_id: PeerId,
        /// The topic it has subscribed to.
        topic: Topic,
    },
    /// A remote unsubscribed from a topic.
    Unsubscribed {
        /// Remote that has unsubscribed.
        peer_id: PeerId,
        /// The topic it has subscribed from.
        topic: Topic,
    },
}

/// Transmission between the connection handler and the chat behaviour.
#[derive(Debug)]
pub enum InnerMessage {
    /// We received an RPC from a remote.
    Rx(ChatRpc),
    /// We successfully sent an RPC request.
    Sent,
}

impl From<ChatRpc> for InnerMessage {
    fn from(rpc: ChatRpc) -> (r: InnerMessage) {
        InnerMessage::Rx(rpc)
    }
}

impl vstd::std_specs::convert::FromSpecImpl<ChatRpc> for InnerMessage {
    open spec fn obeys_from_spec() -> bool {
        true
    }

    open spec fn from_spec(v: ChatRpc) -> InnerMessage {
        InnerMessage::Rx(v)
    }
}

impl From<()> for InnerMessage {
    fn from(_sent: ()) -> (r: InnerMessage) {
        InnerMessage::Sent
    }
}

impl vstd::std_specs::convert::FromSpecImpl<()> for InnerMessage {
    open spec fn obeys_from_spec() -> bool {
        true
    }

    open spec fn from_spec(v: ()) -> InnerMessage {
        InnerMessage::Sent
    }
}

/// What the chat behaviour asks of the swarm.
#[derive(Debug, PartialEq, Eq)]
pub enum ChatAction {
    /// Dial the peer.
    Dial { peer_id: PeerId },
    /// Send the RPC to the peer, on any of its connections.
    NotifyHandler { peer_id: PeerId, event: ChatRpc },
    /// Report the event to the user of the behaviour.
    GenerateEvent(ChatEvent),
}

/// What the swarm tells the chat behaviour about connections.
#[derive(Debug)]
pub enum SwarmNotification {
    /// A connection to `peer_id` was established; `other_established` others were open already.
    ConnectionEstablished { peer_id: PeerId, other_established: usize },
    /// A connection to `peer_id` was closed; `remaining_established` others remain open.
    ConnectionClosed { peer_id: PeerId, remaining_established: usize },
    /// Anything else: new addresses, listeners, failed dials.
    Other,
}

/// What a `ChatEvent` holds.
pub enum EventModel {
    Message(ChatMessageModel),
    Subscribed { peer_id: Seq<u8>, topic: Seq<char> },
    Unsubscribed { peer_id: Seq<u8>, topic: Seq<char> },
}

/// What a `ChatAction` holds.
pub enum ActionModel {
    Dial(Seq<u8>),
    Notify(Seq<u8>, ChatRpcModel),
    Generate(EventModel),
}

impl View for ChatEvent {
    type V = EventModel;

    open spec fn view(&self) -> EventModel {
        match self {
            ChatEvent::Message(m) => EventModel::Message(m@),
            ChatEvent::Subscribed { peer_id, topic } => EventModel::Subscribed {
                peer_id: peer_id@,
                topic: topic@,
            },
            ChatEvent::Unsubscribed { peer_id, topic } => EventModel::Unsubscribed {
                peer_id: peer_id@,
                topic: topic@,
            },
        }
    }
}

impl View for ChatAction {
    type V = ActionModel;

    open spec fn view(&self) -> ActionModel {
        match self {
            ChatAction::Dial { peer_id } => ActionModel::Dial(peer_id@),
            ChatAction::NotifyHandler { peer_id, event } => ActionModel::Notify(peer_id@, event@),
            ChatAction::GenerateEvent(e) => ActionModel::Generate(e@),
        }
    }
}

/// A remote peer we are connected to, with the topics it told us it is subscribed to.
pub type PeerTopics = (Seq<u8>, Seq<Seq<char>>);

/// What the chat behaviour holds.
#[verifier::ext_equal]
pub struct ChatModel {
    /// Peer id of the local node.
    pub local_peer_id: Seq<u8>,
    /// Whether our own messages are reported to us.
    pub subscribe_local_messages: bool,
    /// What is still to be handed to the swarm, first first.
    pub events: Seq<ActionModel>,
    /// The peers to send messages to.
    pub target_peers: Seq<Seq<u8>>,
    /// The peers we are connected to, in the order they connected, with their topics.
    pub connected_peers: Seq<PeerTopics>,
    /// The topics we are subscribed to, in the order we subscribed.
    pub subscribed_topics: Seq<Seq<char>>,
}

/// Network behaviour that handles the chat protocol.
pub struct Chat {
    /// Events that need to be yielded to the outside when polling.
    events: VecDeque<ChatAction>,
    config: ChatConfig,
    /// The peers to send messages to, each once. A hash set keyed by `PeerId` would have
    /// contracts only under `obeys_key_model::<PeerId>()`, which vstd grants to primitive keys
    /// alone; a vector with no duplicates keeps the same contents with proved operations.
    target_peers: Vec<PeerId>,
    /// The peers we are connected to, each once, with the topics they are subscribed to; a
    /// vector of pairs for the same reason.
    connected_peers: Vec<(PeerId, TopicList)>,
    subscribed_topics: TopicList,
    received: CuckooFilter<DefaultHasher>,
}

pub open spec fn peer_keys(c: Seq<PeerTopics>) -> Seq<Seq<u8>> {
    c.map_values(|e: PeerTopics| e.0)
}

/// The first position of `x` in `s`.
pub open spec fn first_index<A>(s: Seq<A>, x: A) -> int {
    choose|i: int| 0 <= i < s.len() && s[i] == x && forall|j: int| 0 <= j < i ==> s[j] != x
}

/// `s` without the first occurrence of `x`, if any.
pub open spec fn remove_first<A>(s: Seq<A>, x: A) -> Seq<A> {
    if s.contains(x) {
        s.remove(first_index(s, x))
    } else {
        s
    }
}

pub proof fn lemma_first_index<A>(s: Seq<A>, x: A, i: int)
    requires
        0 <= i < s.len(),
        s[i] == x,
        forall|j: int| 0 <= j < i ==> s[j] != x,
    ensures
        first_index(s, x) == i,
{
    let k = first_index(s, x);
    assert(0 <= k < s.len() && s[k] == x && forall|j: int| 0 <= j < k ==> s[j] != x);
    if k < i {
        assert(s[k] != x);
    }
    if i < k {
        assert(s[i] != x);
    }
}

/// An element that occurs has a first position.
pub proof fn lemma_first_index_exists<A>(s: Seq<A>, x: A)
    requires
        s.contains(x),
    ensures
        0 <= first_index(s, x) < s.len(),
        s[first_index(s, x)] == x,
        forall|j: int| 0 <= j < first_index(s, x) ==> s[j] != x,
{
    let k = choose|k: int| 0 <= k < s.len() && s[k] == x;
    lemma_earliest(s, x, k);
}

proof fn lemma_earliest<A>(s: Seq<A>, x: A, k: int)
    requires
        0 <= k < s.len(),
        s[k] == x,
    ensures
        exists|i: int| 0 <= i < s.len() && s[i] == x && forall|j: int| 0 <= j < i ==> s[j] != x,
    decreases k,
{
    if exists|j: int| 0 <= j < k && s[j] == x {
        let j = choose|j: int| 0 <= j < k && s[j] == x;
        lemma_earliest(s, x, j);
    } else {
        assert(forall|j: int| 0 <= j < k ==> s[j] != x);
    }
}

/// Whether the two lists of topics share a topic.
pub open spec fn intersects(a: Seq<Seq<char>>, b: Seq<Seq<char>>) -> bool {
    exists|i: int, j: int| 0 <= i < a.len() && 0 <= j < b.len() && a[i] == b[j]
}

/// An RPC that carries one subscription change and no message.
pub open spec fn subscription_rpc(topic: Seq<char>, action: ChatSubscriptionAction) -> ChatRpcModel {
    ChatRpcModel {
        messages: Seq::empty(),
        subscriptions: seq![ChatSubscriptionModel { action, topic }],
    }
}

/// Telling `peer` of each of our topics, one RPC per topic.
pub open spec fn announce_topics(peer: Seq<u8>, topics: Seq<Seq<char>>) -> Seq<ActionModel> {
    topics.map_values(
        |t: Seq<char>|
            ActionModel::Notify(peer, subscription_rpc(t, ChatSubscriptionAction::Subscribe)),
    )
}

/// Telling each of `peers` of a change to our subscription to `topic`.
pub open spec fn announce_to_peers(
    peers: Seq<Seq<u8>>,
    topic: Seq<char>,
    action: ChatSubscriptionAction,
) -> Seq<ActionModel> {
    peers.map_values(|p: Seq<u8>| ActionModel::Notify(p, subscription_rpc(topic, action)))
}

/// What every state of the behaviour keeps: no peer is a target twice, no peer is connected
/// twice, we are subscribed to no topic twice, and no connected peer lists a topic twice.
pub open spec fn model_wf(m: ChatModel) -> bool {
    &&& m.target_peers.no_duplicates()
    &&& peer_keys(m.connected_peers).no_duplicates()
    &&& m.subscribed_topics.no_duplicates()
    &&& forall|i: int|
        0 <= i < m.connected_peers.len() ==> (#[trigger] m.connected_peers[i]).1.no_duplicates()
}

pub open spec fn peers_view(v: Seq<PeerId>) -> Seq<Seq<u8>> {
    v.map_values(|p: PeerId| p@)
}

pub open spec fn connected_view(v: Seq<(PeerId, TopicList)>) -> Seq<PeerTopics> {
    v.map_values(|e: (PeerId, TopicList)| (e.0@, topic_list(e.1)))
}

pub open spec fn events_view(v: Seq<ChatAction>) -> Seq<ActionModel> {
    v.map_values(|a: ChatAction| a@)
}

impl View for Chat {
    type V = ChatModel;

    closed spec fn view(&self) -> ChatModel {
        ChatModel {
            local_peer_id: self.config.local_peer_id@,
            subscribe_local_messages: self.config.subscribe_local_messages,
            events: events_view(self.events@),
            target_peers: peers_view(self.target_peers@),
            connected_peers: connected_view(self.connected_peers@),
            subscribed_topics: topic_list(self.subscribed_topics),
        }
    }
}

// ---------------------------------------------------------------------------------------------
// What each operation does to the state.
/// Adding `p` to the peers to send messages to: if we are connected to it, we tell it of our
/// topics; if it was not a target yet, it becomes one and we dial it.
pub open spec fn spec_add_node(m: ChatModel, p: Seq<u8>) -> ChatModel {
    ChatModel {
        events: m.events + (if peer_keys(m.connected_peers).contains(p) {
            announce_topics(p, m.subscribed_topics)
        } else {
            Seq::empty()
        }) + (if m.target_peers.contains(p) {
            Seq::empty()
        } else {
            seq![ActionModel::Dial(p)]
        }),
        target_peers: if m.target_peers.contains(p) {
            m.target_peers
        } else {
            m.target_peers.push(p)
        },
        ..m
    }
}

/// Removing `p` from the peers to send messages to.
pub open spec fn spec_remove_node(m: ChatModel, p: Seq<u8>) -> ChatModel {
    ChatModel { target_peers: remove_first(m.target_peers, p), ..m }
}

/// Subscribing to `t`: unless we already are, we tell every connected peer and add the topic.
pub open spec fn spec_subscribe(m: ChatModel, t: Seq<char>) -> ChatModel {
    if m.subscribed_topics.contains(t) {
        m
    } else {
        ChatModel {
            events: m.events + announce_to_peers(
                peer_keys(m.connected_peers),
                t,
                ChatSubscriptionAction::Subscribe,
            ),
            subscribed_topics: m.subscribed_topics.push(t),
            ..m
        }
    }
}

/// Unsubscribing from `t`: if we are subscribed, we drop the topic and tell every connected peer.
pub open spec fn spec_unsubscribe(m: ChatModel, t: Seq<char>) -> ChatModel {
    if m.subscribed_topics.contains(t) {
        ChatModel {
            events: m.events + announce_to_peers(
                peer_keys(m.connected_peers),
                t,
                ChatSubscriptionAction::Unsubscribe,
            ),
            subscribed_topics: remove_first(m.subscribed_topics, t),
            ..m
        }
    } else {
        m
    }
}

/// Polling: the first pending action, if any, leaves the queue.
pub open spec fn spec_poll(m: ChatModel) -> ChatModel {
    if m.events.len() == 0 {
        m
    } else {
        ChatModel { events: m.events.drop_first(), ..m }
    }
}

/// `c` with the topics of `p` set to `ts`: in place if `p` is connected, appended otherwise.
pub open spec fn set_peer_topics(c: Seq<PeerTopics>, p: Seq<u8>, ts: Seq<Seq<char>>) -> Seq<
    PeerTopics,
> {
    if peer_keys(c).contains(p) {
        c.update(first_index(peer_keys(c), p), (p, ts))
    } else {
        c.push((p, ts))
    }
}

/// `c` without the entry of `p`, if any.
pub open spec fn remove_peer(c: Seq<PeerTopics>, p: Seq<u8>) -> Seq<PeerTopics> {
    if peer_keys(c).contains(p) {
        c.remove(first_index(peer_keys(c), p))
    } else {
        c
    }
}

/// A first connection to `p`: if it is a target, we tell it of our topics; it is recorded as
/// connected with no topics. Further connections to it change nothing.
pub open spec fn spec_connection_established(m: ChatModel, p: Seq<u8>, other_established: nat) -> ChatModel {
    if other_established > 0 {
        m
    } else {
        ChatModel {
            events: m.events + (if m.target_peers.contains(p) {
                announce_topics(p, m.subscribed_topics)
            } else {
                Seq::empty()
            }),
            connected_peers: set_peer_topics(m.connected_peers, p, Seq::empty()),
            ..m
        }
    }
}

/// The last connection to `p` closed: it is no longer connected, and if it is a target we dial
/// it again. Other closed connections change nothing.
pub open spec fn spec_connection_closed(m: ChatModel, p: Seq<u8>, remaining_established: nat) -> ChatModel {
    if remaining_established > 0 {
        m
    } else {
        ChatModel {
            events: m.events + (if m.target_peers.contains(p) {
                seq![ActionModel::Dial(p)]
            } else {
                Seq::empty()
            }),
            connected_peers: remove_peer(m.connected_peers, p),
            ..m
        }
    }
}

// ---------------------------------------------------------------------------------------------
// The behaviour.
impl Chat {
    /// The behaviour's invariant, which its constructors establish and its operations keep.
    pub open spec fn wf(&self) -> bool {
        model_wf(self@)
    }

    /// The messages that the filter of received messages reports as seen.
    pub closed spec fn received(&self) -> Set<ChatMessageModel> {
        received_reports(self.received)
    }

    /// Creates a `Chat` with default configuration.
    pub fn new(local_peer_id: PeerId) -> (r: Chat)
        ensures
            r.received() == Set::<ChatMessageModel>::empty(),
            r.wf(),
            r@ == (ChatModel {
                local_peer_id: local_peer_id@,
                subscribe_local_messages: false,
                events: Seq::empty(),
                target_peers: Seq::empty(),
                connected_peers: Seq::empty(),
                subscribed_topics: Seq::empty(),
            }),
    {
        Self::from_config(ChatConfig::new(local_peer_id))
    }

    /// Creates a `Chat` with the given configuration.
    pub fn from_config(config: ChatConfig) -> (r: Chat)
        ensures
            r.received() == Set::<ChatMessageModel>::empty(),
            r.wf(),
            r@ == (ChatModel {
                local_peer_id: config.local_peer_id@,
                subscribe_local_messages: config.subscribe_local_messages,
                events: Seq::empty(),
                target_peers: Seq::empty(),
                connected_peers: Seq::empty(),
                subscribed_topics: Seq::empty(),
            }),
    {
        let r = Chat {
            events: VecDeque::new(),
            config,
            target_peers: Vec::new(),
            connected_peers: Vec::new(),
            subscribed_topics: topic_list_new(),
            received: received_filter_new(),
        };
        assert(r@ =~= ChatModel {
            local_peer_id: config.local_peer_id@,
            subscribe_local_messages: config.subscribe_local_messages,
            events: Seq::empty(),
            target_peers: Seq::empty(),
            connected_peers: Seq::empty(),
            subscribed_topics: Seq::empty(),
        });
        r
    }

    /// Position of `peer` among the connected peers.
    fn connected_index(&self, peer: &PeerId) -> (r: Option<usize>)
        ensures
            match r {
                Some(i) => i < self@.connected_peers.len() && self@.connected_peers[i as int].0
                    == peer@ && first_index(peer_keys(self@.connected_peers), peer@) == i,
                None => !peer_keys(self@.connected_peers).contains(peer@),
            },
    {
        let ghost keys = peer_keys(self@.connected_peers);
        let mut i: usize = 0;
        while i < self.connected_peers.len()
            invariant
                i <= self.connected_peers@.len(),
                keys == peer_keys(self@.connected_peers),
                keys.len() == self.connected_peers@.len(),
                forall|j: int| 0 <= j < i ==> keys[j] != peer@,
            decreases self.connected_peers@.len() - i,
        {
            assert(keys[i as int] == self.connected_peers@[i as int].0@);
            if self.connected_peers[i].0.same(peer) {
                proof {
                    lemma_first_index(keys, peer@, i as int);
                }
                return Some(i);
            }
            i += 1;
        }
        None
    }

    /// Whether we are connected to `peer`.
    pub fn is_connected(&self, peer: &PeerId) -> (r: bool)
        ensures
            r == peer_keys(self@.connected_peers).contains(peer@),
    {
        match self.connected_index(peer) {
            Some(i) => {
                assert(peer_keys(self@.connected_peers)[i as int] == peer@);
                true
            },
            None => false,
        }
    }

    /// Position of `peer` among the target peers.
    fn target_index(&self, peer: &PeerId) -> (r: Option<usize>)
        ensures
            match r {
                Some(i) => i < self@.target_peers.len() && self@.target_peers[i as int] == peer@
                    && first_index(self@.target_peers, peer@) == i,
                None => !self@.target_peers.contains(peer@),
            },
    {
        let ghost ps = self@.target_peers;
        let mut i: usize = 0;
        while i < self.target_peers.len()
            invariant
                i <= self.target_peers@.len(),
                ps == peers_view(self.target_peers@),
                ps.len() == self.target_peers@.len(),
                forall|j: int| 0 <= j < i ==> ps[j] != peer@,
            decreases self.target_peers@.len() - i,
        {
            if self.target_peers[i].same(peer) {
                proof {
                    lemma_first_index(ps, peer@, i as int);
                }
                return Some(i);
            }
            i += 1;
        }
        None
    }

    /// Whether `peer` is among the peers to send messages to.
    pub fn is_target(&self, peer: &PeerId) -> (r: bool)
        ensures
            r == self@.target_peers.contains(peer@),
    {
        self.target_index(peer).is_some()
    }

    /// Position of `topic` among the topics we are subscribed to.
    fn subscribed_index(&self, topic: &Topic) -> (r: Option<usize>)
        ensures
            match r {
                Some(i) => i < self@.subscribed_topics.len() && self@.subscribed_topics[i as int]
                    == topic@ && first_index(self@.subscribed_topics, topic@) == i,
                None => !self@.subscribed_topics.contains(topic@),
            },
    {
        let ghost ts = self@.subscribed_topics;
        let n = topic_list_len(&self.subscribed_topics);
        let mut i: usize = 0;
        while i < n
            invariant
                i <= n == ts.len(),
                ts == topic_list(self.subscribed_topics),
                forall|j: int| 0 <= j < i ==> ts[j] != topic@,
            decreases n - i,
        {
            if topic_list_get(&self.subscribed_topics, i).same(topic) {
                proof {
                    lemma_first_index(ts, topic@, i as int);
                }
                return Some(i);
            }
            i += 1;
        }
        None
    }

    /// Whether we are subscribed to `topic`.
    pub fn is_subscribed(&self, topic: &Topic) -> (r: bool)
        ensures
            r == self@.subscribed_topics.contains(topic@),
    {
        self.subscribed_index(topic).is_some()
    }

    /// Appends `Notify(peer, subscription to topic)` for each of our topics.
    fn announce_our_topics(&mut self, peer: &PeerId)
        ensures
            final(self).received() == old(self).received(),
            final(self)@ == (ChatModel {
                events: old(self)@.events + announce_topics(peer@, old(self)@.subscribed_topics),
                ..old(self)@
            }),
    {
        let ghost start = self@;
        let n = topic_list_len(&self.subscribed_topics);
        let mut i: usize = 0;
        while i < n
            invariant
                self.received() == old(self).received(),
                i <= n == start.subscribed_topics.len(),
                self@ == (ChatModel {
                    events: start.events + announce_topics(
                        peer@,
                        start.subscribed_topics.take(i as int),
                    ),
                    ..start
                }),
            decreases n - i,
        {
            let topic = topic_list_get(&self.subscribed_topics, i).duplicate();
            let rpc = ChatRpc {
                messages: Vec::new(),
                subscriptions: vec![
                    ChatSubscription { topic, action: ChatSubscriptionAction::Subscribe },
                ],
            };
            let action = ChatAction::NotifyHandler { peer_id: peer.duplicate(), event: rpc };
            proof {
                assert(rpc@ =~= subscription_rpc(
                    start.subscribed_topics[i as int],
                    ChatSubscriptionAction::Subscribe,
                ));
            }
            let ghost before = self.events@;
            self.events.push_back(action);
            proof {
                assert(events_view(self.events@) =~= events_view(before).push(action@));
                assert(announce_topics(peer@, start.subscribed_topics.take(i + 1))
                    =~= announce_topics(peer@, start.subscribed_topics.take(i as int)).push(
                    action@,
                ));
                assert(start.subscribed_topics.take(i + 1) =~= start.subscribed_topics.take(
                    i as int,
                ).push(start.subscribed_topics[i as int]));
                assert(self@ =~= ChatModel {
                    events: start.events + announce_topics(
                        peer@,
                        start.subscribed_topics.take(i + 1),
                    ),
                    ..start
                });
            }
            i += 1;
        }
        assert(start.subscribed_topics.take(n as int) =~= start.subscribed_topics);
    }

    /// Appends `Notify(p, change of our subscription to topic)` for each connected peer `p`.
    fn announce_to_connected(&mut self, topic: &Topic, action_kind: ChatSubscriptionAction)
        ensures
            final(self).received() == old(self).received(),
            final(self)@ == (ChatModel {
                events: old(self)@.events + announce_to_peers(
                    peer_keys(old(self)@.connected_peers),
                    topic@,
                    action_kind,
                ),
                ..old(self)@
            }),
    {
        let ghost start = self@;
        let ghost keys = peer_keys(start.connected_peers);
        let n = self.connected_peers.len();
        let mut i: usize = 0;
        while i < n
            invariant
                self.received() == old(self).received(),
                i <= n == keys.len(),
                keys == peer_keys(start.connected_peers),
                start.connected_peers == connected_view(self.connected_peers@),
                self@ == (ChatModel {
                    events: start.events + announce_to_peers(keys.take(i as int), topic@, action_kind),
                    ..start
                }),
            decreases n - i,
        {
            let rpc = ChatRpc {
                messages: Vec::new(),
                subscriptions: vec![ChatSubscription { topic: topic.duplicate(), action: action_kind }],
            };
            let peer = self.connected_peers[i].0.duplicate();
            proof {
                assert(rpc@ =~= subscription_rpc(topic@, action_kind));
                assert(peer@ == keys[i as int]);
            }
            let action = ChatAction::NotifyHandler { peer_id: peer, event: rpc };
            let ghost before = self.events@;
            self.events.push_back(action);
            proof {
                assert(events_view(self.events@) =~= events_view(before).push(action@));
                assert(announce_to_peers(keys.take(i + 1), topic@, action_kind)
                    =~= announce_to_peers(keys.take(i as int), topic@, action_kind).push(action@));
                assert(keys.take(i + 1) =~= keys.take(i as int).push(keys[i as int]));
                assert(self@ =~= ChatModel {
                    events: start.events + announce_to_peers(keys.take(i + 1), topic@, action_kind),
                    ..start
                });
            }
            i += 1;
        }
        assert(keys.take(n as int) =~= keys);
    }

    /// Add a node to the list of nodes to propagate messages to.
    pub fn add_node_to_partial_view(&mut self, peer_id: PeerId)
        requires
            old(self).wf(),
        ensures
            final(self).received() == old(self).received(),
            final(self).wf(),
            final(self)@ == spec_add_node(old(self)@, peer_id@),
    {
        if self.is_connected(&peer_id) {
            self.announce_our_topics(&peer_id);
        } else {
            assert(self@.events =~= self@.events + Seq::<ActionModel>::empty());
        }
        let ghost mid = self@;
        let ghost pid = peer_id@;
        if self.target_index(&peer_id).is_none() {
            let ghost before = self.target_peers@;
            self.target_peers.push(peer_id.duplicate());
            self.events.push_back(ChatAction::Dial { peer_id });
            proof {
                assert(peers_view(self.target_peers@) =~= peers_view(before).push(pid));
                assert(self@ =~= spec_add_node(old(self)@, pid));
            }
        } else {
            assert(self@ =~= spec_add_node(old(self)@, pid));
        }
    }

    /// Remove a node from the list of nodes to propagate messages to.
    pub fn remove_node_from_partial_view(&mut self, peer_id: &PeerId)
        requires
            old(self).wf(),
        ensures
            final(self).received() == old(self).received(),
            final(self).wf(),
            final(self)@ == spec_remove_node(old(self)@, peer_id@),
    {
        match self.target_index(peer_id) {
            Some(i) => {
                let ghost before = self.target_peers@;
                self.target_peers.remove(i);
                proof {
                    assert(peers_view(self.target_peers@) =~= peers_view(before).remove(i as int));
                    lemma_remove_no_duplicates(peers_view(before), i as int);
                }
            },
            None => {},
        }
        assert(self@ =~= spec_remove_node(old(self)@, peer_id@));
    }

    /// Subscribes to a topic.
    ///
    /// Returns true if the subscription worked. Returns false if we were already subscribed.
    pub fn subscribe(&mut self, topic: Topic) -> (r: bool)
        requires
            old(self).wf(),
        ensures
            final(self).received() == old(self).received(),
            final(self).wf(),
            r == !old(self)@.subscribed_topics.contains(topic@),
            final(self)@ == spec_subscribe(old(self)@, topic@),
    {
        if self.subscribed_index(&topic).is_some() {
            return false;
        }
        self.announce_to_connected(&topic, ChatSubscriptionAction::Subscribe);
        let ghost t = topic@;
        topic_list_push(&mut self.subscribed_topics, topic);
        assert(self@ =~= spec_subscribe(old(self)@, t));
        true
    }

    /// Unsubscribes from a topic.
    ///
    /// Note that this only requires the topic name.
    ///
    /// Returns true if we were subscribed to this topic.
    pub fn unsubscribe(&mut self, topic: Topic) -> (r: bool)
        requires
            old(self).wf(),
        ensures
            final(self).received() == old(self).received(),
            final(self).wf(),
            r == old(self)@.subscribed_topics.contains(topic@),
            final(self)@ == spec_unsubscribe(old(self)@, topic@),
    {
        let pos = match self.subscribed_index(&topic) {
            Some(pos) => pos,
            None => return false,
        };
        let ghost before = self@.subscribed_topics;
        topic_list_remove(&mut self.subscribed_topics, pos);
        proof {
            lemma_remove_no_duplicates(before, pos as int);
        }
        self.announce_to_connected(&topic, ChatSubscriptionAction::Unsubscribe);
        assert(self@ =~= spec_unsubscribe(old(self)@, topic@));
        true
    }

    /// The next action for the swarm, first come first served.
    pub fn poll(&mut self) -> (r: Option<ChatAction>)
        requires
            old(self).wf(),
        ensures
            final(self).received() == old(self).received(),
            final(self).wf(),
            final(self)@ == spec_poll(old(self)@),
            match r {
                None => old(self)@.events.len() == 0,
                Some(a) => old(self)@.events.len() > 0 && a@ == old(self)@.events[0],
            },
    {
        let ghost before = self.events@;
        let r = self.events.pop_front();
        proof {
            if before.len() > 0 {
                assert(events_view(self.events@) =~= events_view(before).drop_first());
            }
        }
        assert(self@ =~= spec_poll(old(self)@));
        r
    }

    /// A connection to `peer_id` was established, `other_established` others being open.
    pub fn on_connection_established(&mut self, peer_id: PeerId, other_established: usize)
        requires
            old(self).wf(),
        ensures
            final(self).received() == old(self).received(),
            final(self).wf(),
            final(self)@ == spec_connection_established(
                old(self)@,
                peer_id@,
                other_established as nat,
            ),
    {
        if other_established > 0 {
            // We only care about the first time a peer connects.
            return;
        }
        if self.is_target(&peer_id) {
            self.announce_our_topics(&peer_id);
        } else {
            assert(self@.events =~= self@.events + Seq::<ActionModel>::empty());
        }
        let ghost mid = self@;
        let ghost p = peer_id@;
        let ghost before = self.connected_peers@;
        match self.connected_index(&peer_id) {
            Some(i) => {
                self.connected_peers.remove(i);
                self.connected_peers.insert(i, (peer_id, topic_list_new()));
                proof {
                    assert(peer_keys(mid.connected_peers)[i as int] == p);
                    assert(connected_view(self.connected_peers@) =~= connected_view(before).update(
                        i as int,
                        (p, Seq::empty()),
                    ));
                    assert(peer_keys(connected_view(self.connected_peers@)) =~= peer_keys(
                        connected_view(before),
                    ));
                }
            },
            None => {
                self.connected_peers.push((peer_id, topic_list_new()));
                proof {
                    assert(connected_view(self.connected_peers@) =~= connected_view(before).push(
                        (p, Seq::empty()),
                    ));
                    assert(peer_keys(connected_view(self.connected_peers@)) =~= peer_keys(
                        connected_view(before),
                    ).push(p));
                }
            },
        }
        assert(self@ =~= spec_connection_established(old(self)@, p, other_established as nat));
    }

    /// A connection to `peer_id` was closed, `remaining_established` others remaining open.
    pub fn on_connection_closed(&mut self, peer_id: PeerId, remaining_established: usize)
        requires
            old(self).wf(),
        ensures
            final(self).received() == old(self).received(),
            final(self).wf(),
            final(self)@ == spec_connection_closed(
                old(self)@,
                peer_id@,
                remaining_established as nat,
            ),
    {
        if remaining_established > 0 {
            // We only care about peer disconnections.
            return;
        }
        let ghost before = self.connected_peers@;
        match self.connected_index(&peer_id) {
            Some(i) => {
                self.connected_peers.remove(i);
                proof {
                    assert(peer_keys(connected_view(before))[i as int] == peer_id@);
                    assert(connected_view(self.connected_peers@) =~= connected_view(before).remove(
                        i as int,
                    ));
                    assert(peer_keys(connected_view(self.connected_peers@)) =~= peer_keys(
                        connected_view(before),
                    ).remove(i as int));
                    lemma_remove_no_duplicates(peer_keys(connected_view(before)), i as int);
                }
            },
            None => {},
        }
        // We can be disconnected by the remote in case of inactivity for example, so we always
        // try to reconnect.
        let ghost mid = self@;
        if self.is_target(&peer_id) {
            let action = ChatAction::Dial { peer_id };
            let ghost evs = self.events@;
            self.events.push_back(action);
            proof {
                assert(events_view(self.events@) =~= events_view(evs).push(action@));
            }
        } else {
            assert(self@.events =~= self@.events + Seq::<ActionModel>::empty());
        }
        assert(self@ =~= spec_connection_closed(
            old(self)@,
            peer_id@,
            remaining_established as nat,
        ));
    }

    /// Reacts to what the swarm tells of connections.
    pub fn on_swarm_event(&mut self, event: SwarmNotification)
        requires
            old(self).wf(),
        ensures
            final(self).received() == old(self).received(),
            final(self).wf(),
            match event {
                SwarmNotification::ConnectionEstablished { peer_id, other_established } =>
                    final(self)@ == spec_connection_established(old(self)@, peer_id@, other_established as nat),
                SwarmNotification::ConnectionClosed { peer_id, remaining_established } =>
                    final(self)@ == spec_connection_closed(old(self)@, peer_id@, remaining_established as nat),
                SwarmNotification::Other => final(self)@ == old(self)@,
            },
    {
        match event {
            SwarmNotification::ConnectionEstablished { peer_id, other_established } => {
                self.on_connection_established(peer_id, other_established)
            },
            SwarmNotification::ConnectionClosed { peer_id, remaining_established } => {
                self.on_connection_closed(peer_id, remaining_established)
            },
            SwarmNotification::Other => {},
        }
    }
}

/// Removing an element keeps a sequence free of duplicates.
pub proof fn lemma_remove_no_duplicates<A>(s: Seq<A>, i: int)
    requires
        s.no_duplicates(),
        0 <= i < s.len(),
    ensures
        s.remove(i).no_duplicates(),
{
    let r = s.remove(i);
    assert forall|a: int, b: int| 0 <= a < r.len() && 0 <= b < r.len() && a != b implies r[a]
        != r[b] by {
        let sa = if a < i {
            a
        } else {
            a + 1
        };
        let sb = if b < i {
            b
        } else {
            b + 1
        };
        assert(r[a] == s[sa]);
        assert(r[b] == s[sb]);
    }
}


// ---------------------------------------------------------------------------------------------
// Publishing.
/// An RPC that carries one message and no subscription change.
pub open spec fn message_rpc(msg: ChatMessageModel) -> ChatRpcModel {
    ChatRpcModel { messages: seq![msg], subscriptions: Seq::empty() }
}

/// The connected peers, in order, that a message on `topics` is sent to: those that are
/// targets and are subscribed to one of the topics.
pub open spec fn publish_targets(
    c: Seq<PeerTopics>,
    targets: Seq<Seq<u8>>,
    topics: Seq<Seq<char>>,
) -> Seq<Seq<u8>>
    decreases c.len(),
{
    if c.len() == 0 {
        Seq::empty()
    } else {
        let prev = publish_targets(c.drop_last(), targets, topics);
        let e = c.last();
        if targets.contains(e.0) && intersects(e.1, topics) {
            prev.push(e.0)
        } else {
            prev
        }
    }
}

/// Publishing `msg`: if we are subscribed to one of its topics and local messages are
/// reported, it is reported to us; then, unless `check` asks for one of our own topics and
/// there is none, it is sent to every connected target subscribed to one of its topics.
pub open spec fn spec_publish(m: ChatModel, msg: ChatMessageModel, check: bool) -> ChatModel {
    let subscribed = intersects(m.subscribed_topics, msg.topics);
    let local = if subscribed && m.subscribe_local_messages {
        seq![ActionModel::Generate(EventModel::Message(msg))]
    } else {
        Seq::empty()
    };
    let sends = if check && !subscribed {
        Seq::empty()
    } else {
        publish_targets(m.connected_peers, m.target_peers, msg.topics).map_values(
            |p: Seq<u8>| ActionModel::Notify(p, message_rpc(msg)),
        )
    };
    ChatModel { events: m.events + local + sends, ..m }
}

/// The message that the local node publishes.
pub open spec fn local_message(
    m: ChatModel,
    from_name: Seq<char>,
    to_name: Option<Seq<char>>,
    topics: Seq<Seq<char>>,
    data: Seq<u8>,
    sequence_number: Seq<u8>,
) -> ChatMessageModel {
    ChatMessageModel {
        source: m.local_peer_id,
        source_name: from_name,
        to_name,
        data,
        sequence_number,
        topics,
    }
}

pub open spec fn opt_str_view(o: Option<&str>) -> Option<Seq<char>> {
    match o {
        Some(s) => Some(s@),
        None => None,
    }
}

/// Whether the topics in `a` and those in `b` share one.
fn lists_intersect(a: &TopicList, b: &Vec<Topic>) -> (r: bool)
    ensures
        r == intersects(topic_list(*a), topics_view(b@)),
{
    let ghost ta = topic_list(*a);
    let ghost tb = topics_view(b@);
    let n = topic_list_len(a);
    let mut i: usize = 0;
    while i < n
        invariant
            i <= n == ta.len(),
            ta == topic_list(*a),
            tb == topics_view(b@),
            tb.len() == b@.len(),
            forall|x: int, y: int| 0 <= x < i && 0 <= y < tb.len() ==> ta[x] != tb[y],
        decreases n - i,
    {
        let t = topic_list_get(a, i);
        let mut j: usize = 0;
        while j < b.len()
            invariant
                i < n == ta.len(),
                j <= b@.len() == tb.len(),
                ta == topic_list(*a),
                tb == topics_view(b@),
                t@ == ta[i as int],
                forall|x: int, y: int| 0 <= x < i && 0 <= y < tb.len() ==> ta[x] != tb[y],
                forall|y: int| 0 <= y < j ==> ta[i as int] != tb[y],
            decreases b@.len() - j,
        {
            if t.same(&b[j]) {
                assert(ta[i as int] == tb[j as int]);
                return true;
            }
            j += 1;
        }
        i += 1;
    }
    false
}

impl Chat {
    /// Appends `Notify(p, msg)` for each connected target `p` subscribed to one of the
    /// message's topics.
    fn send_to_subscribers(&mut self, message: &ChatMessage)
        ensures
            final(self).received() == old(self).received(),
            final(self)@ == (ChatModel {
                events: old(self)@.events + publish_targets(
                    old(self)@.connected_peers,
                    old(self)@.target_peers,
                    message@.topics,
                ).map_values(|p: Seq<u8>| ActionModel::Notify(p, message_rpc(message@))),
                ..old(self)@
            }),
    {
        let ghost start = self@;
        let ghost c = start.connected_peers;
        let ghost f = |p: Seq<u8>| ActionModel::Notify(p, message_rpc(message@));
        let n = self.connected_peers.len();
        let mut i: usize = 0;
        while i < n
            invariant
                self.received() == old(self).received(),
                i <= n == c.len(),
                c == connected_view(self.connected_peers@),
                f == (|p: Seq<u8>| ActionModel::Notify(p, message_rpc(message@))),
                self@ == (ChatModel {
                    events: start.events + publish_targets(
                        c.take(i as int),
                        start.target_peers,
                        message@.topics,
                    ).map_values(f),
                    ..start
                }),
            decreases n - i,
        {
            let ghost prev = publish_targets(c.take(i as int), start.target_peers, message@.topics);
            proof {
                assert(c.take(i + 1).drop_last() =~= c.take(i as int));
                assert(c.take(i + 1).last() == c[i as int]);
            }
            let is_target = self.is_target(&self.connected_peers[i].0);
            if is_target && lists_intersect(&self.connected_peers[i].1, &message.topics) {
                let rpc = ChatRpc { subscriptions: Vec::new(), messages: vec![message.duplicate()] };
                let action = ChatAction::NotifyHandler {
                    peer_id: self.connected_peers[i].0.duplicate(),
                    event: rpc,
                };
                proof {
                    assert(rpc@ =~= message_rpc(message@));
                }
                let ghost before = self.events@;
                self.events.push_back(action);
                proof {
                    assert(events_view(self.events@) =~= events_view(before).push(action@));
                    assert(prev.push(c[i as int].0).map_values(f) =~= prev.map_values(f).push(
                        action@,
                    ));
                }
            }
            i += 1;
        }
        assert(c.take(n as int) =~= c);
    }

    /// Publishes `message`, whose sequence number was drawn at random, as `spec_publish`
    /// describes; a message on one of our topics goes to the filter of received messages.
    /// Returns what the filter answered, or `None` when the message is on none of our topics.
    fn publish_message(&mut self, message: ChatMessage, check: bool) -> (recorded: Option<
        Result<(), CuckooError>,
    >)
        requires
            old(self).wf(),
        ensures
            final(self).wf(),
            final(self)@ == spec_publish(old(self)@, message@, check),
            recorded is None <==> !intersects(old(self)@.subscribed_topics, message@.topics),
            recorded is None ==> final(self).received() == old(self).received(),
            recorded matches Some(Ok(())) ==> old(self).received().subset_of(
                final(self).received(),
            ) && final(self).received().contains(message@),
    {
        let ghost start = self@;
        let self_subscribed = lists_intersect(&self.subscribed_topics, &message.topics);
        let mut recorded = None;
        if self_subscribed {
            recorded = Some(received_filter_add(&mut self.received, &message));
            if self.config.subscribe_local_messages {
                let action = ChatAction::GenerateEvent(ChatEvent::Message(message.duplicate()));
                let ghost before = self.events@;
                self.events.push_back(action);
                proof {
                    assert(events_view(self.events@) =~= events_view(before).push(action@));
                }
            }
        }
        let ghost mid = self@;
        assert(mid.events =~= start.events + (if self_subscribed && start.subscribe_local_messages {
            seq![ActionModel::Generate(EventModel::Message(message@))]
        } else {
            Seq::empty()
        }));
        // Don't publish the message if we have to check subscriptions
        // and we're not subscribed ourselves to any of the topics.
        if check && !self_subscribed {
            assert(self@ =~= spec_publish(start, message@, check));
            return recorded;
        }
        self.send_to_subscribers(&message);
        assert(self@ =~= spec_publish(start, message@, check));
        recorded
    }

    /// Publishes a message from `from_name` to `to_name` (everyone when `None`) on `topics`,
    /// with `sequence_number` as its sequence number; `check` asks that we be subscribed to
    /// one of the topics for it to be sent. A message on one of our topics goes to the filter
    /// of received messages: returns what the filter answered, `Ok` when the message was
    /// recorded with no other dropped, or `None` when the message is on none of our topics.
    pub fn publish_with_sequence_number(
        &mut self,
        from_name: &str,
        to_name: Option<&str>,
        topics: Vec<Topic>,
        data: Vec<u8>,
        sequence_number: Vec<u8>,
        check: bool,
    ) -> (recorded: Option<Result<(), CuckooError>>)
        requires
            old(self).wf(),
        ensures
            final(self).wf(),
            final(self)@ == spec_publish(
                old(self)@,
                local_message(
                    old(self)@,
                    from_name@,
                    opt_str_view(to_name),
                    topics_view(topics@),
                    data@,
                    sequence_number@,
                ),
                check,
            ),
            recorded is None <==> !intersects(old(self)@.subscribed_topics, topics_view(topics@)),
            recorded is None ==> final(self).received() == old(self).received(),
            recorded matches Some(Ok(())) ==> old(self).received().subset_of(final(self).received())
                && final(self).received().contains(
                local_message(
                    old(self)@,
                    from_name@,
                    opt_str_view(to_name),
                    topics_view(topics@),
                    data@,
                    sequence_number@,
                ),
            ),
    {
        let message = ChatMessage {
            source: self.config.local_peer_id.duplicate(),
            source_name: from_name.to_owned(),
            to_name: match to_name {
                Some(s) => Some(s.to_owned()),
                None => None,
            },
            data,
            sequence_number,
            topics,
        };
        proof {
            assert(message@ =~= local_message(
                old(self)@,
                from_name@,
                opt_str_view(to_name),
                topics_view(message.topics@),
                message.data@,
                message.sequence_number@,
            ));
        }
        self.publish_message(message, check)
    }

    /// Publishes with a fresh random sequence number of 20 bytes.
    fn publish_many_inner(
        &mut self,
        from_name: &str,
        to_name: Option<&str>,
        topics: Vec<Topic>,
        data: Vec<u8>,
        check_self_subscriptions: bool,
    )
        requires
            old(self).wf(),
        ensures
            !intersects(old(self)@.subscribed_topics, topics_view(topics@)) ==> final(self).received()
                == old(self).received(),
            final(self).wf(),
            exists|sequence_number: Seq<u8>|
                sequence_number.len() == 20 && final(self)@ == spec_publish(
                    old(self)@,
                    local_message(
                        old(self)@,
                        from_name@,
                        opt_str_view(to_name),
                        topics_view(topics@),
                        data@,
                        sequence_number,
                    ),
                    check_self_subscriptions,
                ),
    {
        // If the sequence numbers are predictable, then an attacker could flood the network
        // with packets with the predetermined sequence numbers and absorb our legitimate
        // messages. We therefore use a random number.
        let sequence_number = random_sequence_number();
        let ghost sn = sequence_number@;
        let _ = self.publish_with_sequence_number(
            from_name,
            to_name,
            topics,
            data,
            sequence_number,
            check_self_subscriptions,
        );
        assert(sn.len() == 20);
    }

    /// Publishes a message to the network, if we're subscribed to the topic only.
    pub fn publish(&mut self, from_name: &str, to_name: Option<&str>, topic: Topic, data: Vec<u8>)
        requires
            old(self).wf(),
        ensures
            !intersects(old(self)@.subscribed_topics, seq![topic@]) ==> final(self).received()
                == old(self).received(),
            final(self).wf(),
            exists|sequence_number: Seq<u8>|
                sequence_number.len() == 20 && final(self)@ == spec_publish(
                    old(self)@,
                    local_message(
                        old(self)@,
                        from_name@,
                        opt_str_view(to_name),
                        seq![topic@],
                        data@,
                        sequence_number,
                    ),
                    true,
                ),
    {
        let ghost t = topic@;
        let topics = vec![topic];
        assert(topics_view(topics@) =~= seq![t]);
        self.publish_many_inner(from_name, to_name, topics, data, true)
    }

    /// Publishes a message to the network, even if we're not subscribed to the topic.
    pub fn publish_any(&mut self, from_name: &str, to_name: Option<&str>, topic: Topic, data: Vec<u8>)
        requires
            old(self).wf(),
        ensures
            !intersects(old(self)@.subscribed_topics, seq![topic@]) ==> final(self).received()
                == old(self).received(),
            final(self).wf(),
            exists|sequence_number: Seq<u8>|
                sequence_number.len() == 20 && final(self)@ == spec_publish(
                    old(self)@,
                    local_message(
                        old(self)@,
                        from_name@,
                        opt_str_view(to_name),
                        seq![topic@],
                        data@,
                        sequence_number,
                    ),
                    false,
                ),
    {
        let ghost t = topic@;
        let topics = vec![topic];
        assert(topics_view(topics@) =~= seq![t]);
        self.publish_many_inner(from_name, to_name, topics, data, false)
    }

    /// Publishes a message with multiple topics to the network.
    ///
    /// > **Note**: Doesn't do anything if we're not subscribed to any of the topics.
    pub fn publish_many(&mut self, from_name: &str, to_name: Option<&str>, topics: Vec<Topic>, data: Vec<u8>)
        requires
            old(self).wf(),
        ensures
            !intersects(old(self)@.subscribed_topics, topics_view(topics@)) ==> final(self).received()
                == old(self).received(),
            final(self).wf(),
            exists|sequence_number: Seq<u8>|
                sequence_number.len() == 20 && final(self)@ == spec_publish(
                    old(self)@,
                    local_message(
                        old(self)@,
                        from_name@,
                        opt_str_view(to_name),
                        topics_view(topics@),
                        data@,
                        sequence_number,
                    ),
                    true,
                ),
    {
        self.publish_many_inner(from_name, to_name, topics, data, true)
    }

    /// Publishes a message with multiple topics to the network, even if we're not subscribed to
    /// any of the topics.
    pub fn publish_many_any(&mut self, from_name: &str, to_name: Option<&str>, topics: Vec<Topic>, data: Vec<u8>)
        requires
            old(self).wf(),
        ensures
            !intersects(old(self)@.subscribed_topics, topics_view(topics@)) ==> final(self).received()
                == old(self).received(),
            final(self).wf(),
            exists|sequence_number: Seq<u8>|
                sequence_number.len() == 20 && final(self)@ == spec_publish(
                    old(self)@,
                    local_message(
                        old(self)@,
                        from_name@,
                        opt_str_view(to_name),
                        topics_view(topics@),
                        data@,
                        sequence_number,
                    ),
                    false,
                ),
    {
        self.publish_many_inner(from_name, to_name, topics, data, false)
    }
}


// ---------------------------------------------------------------------------------------------
// Handling an RPC received from a peer.
/// A peer's topics after it told us of subscription change `s`.
pub open spec fn apply_subscription(ts: Seq<Seq<char>>, s: ChatSubscriptionModel) -> Seq<Seq<char>> {
    match s.action {
        ChatSubscriptionAction::Subscribe => if ts.contains(s.topic) {
            ts
        } else {
            ts.push(s.topic)
        },
        ChatSubscriptionAction::Unsubscribe => remove_first(ts, s.topic),
    }
}

/// A peer's topics after it told us of the changes `subs`, in order.
pub open spec fn apply_subscriptions(ts: Seq<Seq<char>>, subs: Seq<ChatSubscriptionModel>) -> Seq<
    Seq<char>,
>
    decreases subs.len(),
{
    if subs.len() == 0 {
        ts
    } else {
        apply_subscription(apply_subscriptions(ts, subs.drop_last()), subs.last())
    }
}

/// What we report of a subscription change of `source`.
pub open spec fn subscription_event(source: Seq<u8>, s: ChatSubscriptionModel) -> ActionModel {
    match s.action {
        ChatSubscriptionAction::Subscribe => ActionModel::Generate(
            EventModel::Subscribed { peer_id: source, topic: s.topic },
        ),
        ChatSubscriptionAction::Unsubscribe => ActionModel::Generate(
            EventModel::Unsubscribed { peer_id: source, topic: s.topic },
        ),
    }
}

/// `c` with the topics of `p`, if it is connected, changed by `subs`.
pub open spec fn update_peer_topics(
    c: Seq<PeerTopics>,
    p: Seq<u8>,
    subs: Seq<ChatSubscriptionModel>,
) -> Seq<PeerTopics> {
    if peer_keys(c).contains(p) {
        let i = first_index(peer_keys(c), p);
        c.update(i, (p, apply_subscriptions(c[i].1, subs)))
    } else {
        c
    }
}

/// The RPCs to send, one per peer in the order the peers first came up, with their messages.
pub type Batch = Seq<(Seq<u8>, Seq<ChatMessageModel>)>;

pub open spec fn batch_keys(b: Batch) -> Seq<Seq<u8>> {
    b.map_values(|e: (Seq<u8>, Seq<ChatMessageModel>)| e.0)
}

/// `b` with `msg` added to the RPC for `p`, which is started if there is none yet.
pub open spec fn add_to_batch(b: Batch, p: Seq<u8>, msg: ChatMessageModel) -> Batch {
    if batch_keys(b).contains(p) {
        let i = first_index(batch_keys(b), p);
        b.update(i, (p, b[i].1.push(msg)))
    } else {
        b.push((p, seq![msg]))
    }
}

/// Whether a message from `source` is passed on to the connected peer `e`: it is not the
/// source, it is a target, and it is subscribed to one of the message's topics.
pub open spec fn forwards_to(
    e: PeerTopics,
    targets: Seq<Seq<u8>>,
    source: Seq<u8>,
    msg: ChatMessageModel,
) -> bool {
    e.0 != source && targets.contains(e.0) && intersects(e.1, msg.topics)
}

/// `b` with `msg` added for each connected peer in `c` it is passed on to.
pub open spec fn route_message(
    b: Batch,
    c: Seq<PeerTopics>,
    targets: Seq<Seq<u8>>,
    source: Seq<u8>,
    msg: ChatMessageModel,
) -> Batch
    decreases c.len(),
{
    if c.len() == 0 {
        b
    } else {
        let prev = route_message(b, c.drop_last(), targets, source, msg);
        if forwards_to(c.last(), targets, source, msg) {
            add_to_batch(prev, c.last().0, msg)
        } else {
            prev
        }
    }
}

/// The events reported and the RPCs batched for the first `n` messages of `msgs` received
/// from `source`; `fresh[k]` tells whether message `k` was new to us, the others being
/// dropped.
pub open spec fn received_effects(
    m: ChatModel,
    source: Seq<u8>,
    msgs: Seq<ChatMessageModel>,
    fresh: Seq<bool>,
    n: nat,
) -> (Seq<ActionModel>, Batch)
    decreases n,
{
    if n == 0 {
        (Seq::empty(), Seq::empty())
    } else {
        let prev = received_effects(m, source, msgs, fresh, (n - 1) as nat);
        let msg = msgs[n - 1];
        if !fresh[n - 1] {
            prev
        } else {
            (
                if intersects(m.subscribed_topics, msg.topics) {
                    prev.0.push(ActionModel::Generate(EventModel::Message(msg)))
                } else {
                    prev.0
                },
                route_message(prev.1, m.connected_peers, m.target_peers, source, msg),
            )
        }
    }
}

/// One RPC per batched peer, carrying its messages.
pub open spec fn batch_actions(b: Batch) -> Seq<ActionModel> {
    b.map_values(
        |e: (Seq<u8>, Seq<ChatMessageModel>)|
            ActionModel::Notify(e.0, ChatRpcModel { messages: e.1, subscriptions: Seq::empty() }),
    )
}

/// The state after the subscription changes of an RPC from `source`.
pub open spec fn after_subscriptions(
    m: ChatModel,
    source: Seq<u8>,
    subs: Seq<ChatSubscriptionModel>,
) -> ChatModel {
    ChatModel {
        events: m.events + subs.map_values(|s: ChatSubscriptionModel| subscription_event(source, s)),
        connected_peers: update_peer_topics(m.connected_peers, source, subs),
        ..m
    }
}

/// Handling an RPC from `source`: first its subscription changes are recorded and reported,
/// then each new message on one of our topics is reported, and the new messages are passed
/// on, one RPC per peer, to the connected targets other than `source` subscribed to one of
/// their topics.
pub open spec fn spec_handle_rpc(
    m: ChatModel,
    source: Seq<u8>,
    rpc: ChatRpcModel,
    fresh: Seq<bool>,
) -> ChatModel {
    let m1 = after_subscriptions(m, source, rpc.subscriptions);
    let eff = received_effects(m1, source, rpc.messages, fresh, rpc.messages.len());
    ChatModel { events: m1.events + eff.0 + batch_actions(eff.1), ..m1 }
}

/// What the answers of the filter of received messages on a run of messages say: `reports[i]`
/// is what the filter reports before message `i` goes to it, and `reports[n]` what it reports
/// at the end; `fresh[i]` is whether message `i` is new, which is so exactly when the filter did
/// not report it; a message found there leaves the filter as it was; and `ok[i]` is whether
/// message `i` was recorded with no other message dropped, in which case the filter still
/// reports all it did and now reports message `i` too.
pub open spec fn filter_run(
    reports: Seq<Set<ChatMessageModel>>,
    msgs: Seq<ChatMessageModel>,
    fresh: Seq<bool>,
    ok: Seq<bool>,
) -> bool {
    &&& reports.len() == msgs.len() + 1
    &&& fresh.len() == msgs.len()
    &&& ok.len() == msgs.len()
    &&& forall|i: int| 0 <= i < msgs.len() ==> (#[trigger] fresh[i] <==> !reports[i].contains(msgs[i]))
    &&& forall|i: int| 0 <= i < msgs.len() && !(#[trigger] fresh[i]) ==> reports[i + 1] == reports[i] && ok[i]
    &&& forall|i: int| 0 <= i < msgs.len() && #[trigger] ok[i] ==> reports[i].subset_of(reports[i + 1])
        && reports[i + 1].contains(msgs[i])
}

pub open spec fn messages_view(v: Seq<ChatMessage>) -> Seq<ChatMessageModel> {
    v.map_values(|m: ChatMessage| m@)
}

pub open spec fn batch_view(v: Seq<(PeerId, Vec<ChatMessage>)>) -> Batch {
    v.map_values(|e: (PeerId, Vec<ChatMessage>)| (e.0@, messages_view(e.1@)))
}

/// Position of `topic` in `list`.
fn position_in(list: &TopicList, topic: &Topic) -> (r: Option<usize>)
    ensures
        match r {
            Some(i) => i < topic_list(*list).len() && topic_list(*list)[i as int] == topic@
                && first_index(topic_list(*list), topic@) == i,
            None => !topic_list(*list).contains(topic@),
        },
{
    let ghost ts = topic_list(*list);
    let n = topic_list_len(list);
    let mut i: usize = 0;
    while i < n
        invariant
            i <= n == ts.len(),
            ts == topic_list(*list),
            forall|j: int| 0 <= j < i ==> ts[j] != topic@,
        decreases n - i,
    {
        if topic_list_get(list, i).same(topic) {
            proof {
                lemma_first_index(ts, topic@, i as int);
            }
            return Some(i);
        }
        i += 1;
    }
    None
}

/// Pushing an element that is not there keeps a sequence free of duplicates.
pub proof fn lemma_push_no_duplicates<A>(s: Seq<A>, x: A)
    requires
        s.no_duplicates(),
        !s.contains(x),
    ensures
        s.push(x).no_duplicates(),
{
    let r = s.push(x);
    assert forall|a: int, b: int| 0 <= a < r.len() && 0 <= b < r.len() && a != b implies r[a]
        != r[b] by {
        if a == s.len() {
            assert(r[b] == s[b]);
        } else if b == s.len() {
            assert(r[a] == s[a]);
        }
    }
}

/// Records the subscription changes `subs` of `source` in its `topics`, and reports each.
fn apply_subscription_changes(
    topics: &mut TopicList,
    events: &mut VecDeque<ChatAction>,
    source: &PeerId,
    subs: &Vec<ChatSubscription>,
)
    requires
        topic_list(*old(topics)).no_duplicates(),
    ensures
        topic_list(*final(topics)).no_duplicates(),
        topic_list(*final(topics)) == apply_subscriptions(
            topic_list(*old(topics)),
            subs@.map_values(|s: ChatSubscription| s@),
        ),
        events_view(final(events)@) == events_view(old(events)@) + subs@.map_values(
            |s: ChatSubscription| s@,
        ).map_values(|s: ChatSubscriptionModel| subscription_event(source@, s)),
{
    let ghost sv = subs@.map_values(|s: ChatSubscription| s@);
    let ghost t0 = topic_list(*topics);
    let ghost e0 = events_view(events@);
    let ghost f = |s: ChatSubscriptionModel| subscription_event(source@, s);
    let mut i: usize = 0;
    while i < subs.len()
        invariant
            i <= subs@.len() == sv.len(),
            sv == subs@.map_values(|s: ChatSubscription| s@),
            f == (|s: ChatSubscriptionModel| subscription_event(source@, s)),
            topic_list(*topics).no_duplicates(),
            topic_list(*topics) == apply_subscriptions(t0, sv.take(i as int)),
            events_view(events@) == e0 + sv.take(i as int).map_values(f),
        decreases subs@.len() - i,
    {
        let sub = &subs[i];
        let ghost before_t = topic_list(*topics);
        let ghost before_e = events@;
        proof {
            assert(sv.take(i + 1).drop_last() =~= sv.take(i as int));
            assert(sv.take(i + 1).last() == sv[i as int]);
            assert(sv[i as int] == sub@);
            assert(sv.take(i + 1).map_values(f) =~= sv.take(i as int).map_values(f).push(
                f(sub@),
            ));
        }
        match sub.action {
            ChatSubscriptionAction::Subscribe => {
                if position_in(topics, &sub.topic).is_none() {
                    topic_list_push(topics, sub.topic.duplicate());
                    proof {
                        lemma_push_no_duplicates(before_t, sub.topic@);
                    }
                }
                let action = ChatAction::GenerateEvent(
                    ChatEvent::Subscribed { peer_id: source.duplicate(), topic: sub.topic.duplicate() },
                );
                events.push_back(action);
                proof {
                    assert(events_view(events@) =~= events_view(before_e).push(action@));
                }
            },
            ChatSubscriptionAction::Unsubscribe => {
                match position_in(topics, &sub.topic) {
                    Some(pos) => {
                        topic_list_remove(topics, pos);
                        proof {
                            lemma_remove_no_duplicates(before_t, pos as int);
                        }
                    },
                    None => {},
                }
                let action = ChatAction::GenerateEvent(
                    ChatEvent::Unsubscribed { peer_id: source.duplicate(), topic: sub.topic.duplicate() },
                );
                events.push_back(action);
                proof {
                    assert(events_view(events@) =~= events_view(before_e).push(action@));
                }
            },
        }
        i += 1;
    }
    assert(sv.take(subs@.len() as int) =~= sv);
}


/// Adds `msg` to the RPC for `peer` in `batch`, starting one if there is none yet.
fn add_to_batch_exec(batch: &mut Vec<(PeerId, Vec<ChatMessage>)>, peer: &PeerId, msg: &ChatMessage)
    ensures
        batch_view(final(batch)@) == add_to_batch(batch_view(old(batch)@), peer@, msg@),
{
    let ghost b0 = batch_view(batch@);
    let ghost keys = batch_keys(b0);
    let mut i: usize = 0;
    while i < batch.len()
        invariant
            i <= batch@.len(),
            b0 == batch_view(batch@),
            b0 == batch_view(old(batch)@),
            keys == batch_keys(b0),
            keys.len() == batch@.len(),
            forall|j: int| 0 <= j < i ==> keys[j] != peer@,
        decreases batch@.len() - i,
    {
        if batch[i].0.same(peer) {
            proof {
                assert(keys[i as int] == peer@);
                assert(keys.contains(peer@));
                lemma_first_index(keys, peer@, i as int);
            }
            let ghost before = batch@;
            let (p, mut msgs) = batch.remove(i);
            let ghost mv = msgs@;
            msgs.push(msg.duplicate());
            batch.insert(i, (p, msgs));
            proof {
                assert(messages_view(msgs@) =~= messages_view(mv).push(msg@));
                assert(batch_view(batch@) =~= b0.update(i as int, (peer@, b0[i as int].1.push(msg@))));
            }
            return;
        }
        i += 1;
    }
    let entry = (peer.duplicate(), vec![msg.duplicate()]);
    let ghost before = batch@;
    batch.push(entry);
    proof {
        assert(messages_view(entry.1@) =~= seq![msg@]);
        assert(batch_view(batch@) =~= b0.push((peer@, seq![msg@])));
    }
}

impl Chat {
    /// Adds `msg`, received from `source`, to the RPC of each connected peer it is passed on to.
    fn route_received(&self, batch: &mut Vec<(PeerId, Vec<ChatMessage>)>, source: &PeerId, msg: &ChatMessage)
        ensures
            batch_view(final(batch)@) == route_message(
                batch_view(old(batch)@),
                self@.connected_peers,
                self@.target_peers,
                source@,
                msg@,
            ),
    {
        let ghost b0 = batch_view(batch@);
        let ghost c = self@.connected_peers;
        let n = self.connected_peers.len();
        let mut j: usize = 0;
        while j < n
            invariant
                j <= n == c.len(),
                c == connected_view(self.connected_peers@),
                batch_view(batch@) == route_message(b0, c.take(j as int), self@.target_peers, source@, msg@),
            decreases n - j,
        {
            proof {
                assert(c.take(j + 1).drop_last() =~= c.take(j as int));
                assert(c.take(j + 1).last() == c[j as int]);
            }
            let entry = &self.connected_peers[j];
            if !entry.0.same(source) && self.is_target(&entry.0) && lists_intersect(&entry.1, &msg.topics) {
                add_to_batch_exec(batch, &entry.0, msg);
            }
            j += 1;
        }
        assert(c.take(n as int) =~= c);
    }

    /// Records and reports the subscription changes of an RPC from `source`.
    fn record_subscriptions(&mut self, source: &PeerId, subs: &Vec<ChatSubscription>)
        requires
            old(self).wf(),
            subs@.len() > 0 ==> peer_keys(old(self)@.connected_peers).contains(source@),
        ensures
            final(self).received() == old(self).received(),
            final(self).wf(),
            final(self)@ == after_subscriptions(
                old(self)@,
                source@,
                subs@.map_values(|s: ChatSubscription| s@),
            ),
    {
        let ghost start = self@;
        let ghost sv = subs@.map_values(|s: ChatSubscription| s@);
        let ghost c = start.connected_peers;
        if subs.len() == 0 {
            proof {
                if peer_keys(c).contains(source@) {
                    let i = first_index(peer_keys(c), source@);
                    assert(peer_keys(c)[i] == source@);
                    assert(c.update(i, (source@, apply_subscriptions(c[i].1, sv))) =~= c);
                }
                assert(self@ =~= after_subscriptions(start, source@, sv));
            }
            return;
        }
        match self.connected_index(source) {
            Some(idx) => {
                let ghost before = self.connected_peers@;
                let (pid, mut topics) = self.connected_peers.remove(idx);
                proof {
                    assert(c[idx as int] == (pid@, topic_list(topics)));
                    assert(c[idx as int].1.no_duplicates());
                }
                apply_subscription_changes(&mut topics, &mut self.events, source, subs);
                self.connected_peers.insert(idx, (pid, topics));
                proof {
                    assert(connected_view(self.connected_peers@) =~= c.update(
                        idx as int,
                        (source@, apply_subscriptions(c[idx as int].1, sv)),
                    ));
                    assert(peer_keys(connected_view(self.connected_peers@)) =~= peer_keys(c));
                    assert(self@ =~= after_subscriptions(start, source@, sv));
                }
            },
            None => {
                assert(false);
            },
        }
    }

    /// Handles an RPC received from `source`; `fresh[k]` tells whether message `k` was new to
    /// us.
    pub fn handle_rpc(&mut self, source: &PeerId, rpc: ChatRpc, fresh: &Vec<bool>)
        requires
            old(self).wf(),
            fresh@.len() == rpc@.messages.len(),
            rpc@.subscriptions.len() > 0 ==> peer_keys(old(self)@.connected_peers).contains(
                source@,
            ),
        ensures
            final(self).received() == old(self).received(),
            final(self).wf(),
            final(self)@ == spec_handle_rpc(old(self)@, source@, rpc@, fresh@),
    {
        // Update connected peers topics
        self.record_subscriptions(source, &rpc.subscriptions);
        let ghost m1 = self@;
        let ghost msgs = rpc@.messages;
        // List of messages we're going to propagate on the network.
        let mut batch: Vec<(PeerId, Vec<ChatMessage>)> = Vec::new();
        let mut k: usize = 0;
        while k < rpc.messages.len()
            invariant
                self.received() == old(self).received(),
                k <= rpc.messages@.len() == msgs.len() == fresh@.len(),
                msgs == rpc@.messages,
                self.wf(),
                self@ == (ChatModel {
                    events: m1.events + received_effects(m1, source@, msgs, fresh@, k as nat).0,
                    ..m1
                }),
                batch_view(batch@) == received_effects(m1, source@, msgs, fresh@, k as nat).1,
            decreases rpc.messages@.len() - k,
        {
            let ghost prev = received_effects(m1, source@, msgs, fresh@, k as nat);
            if fresh[k] {
                let msg = &rpc.messages[k];
                assert(msg@ == msgs[k as int]);
                // Add the message to be dispatched to the user.
                if lists_intersect(&self.subscribed_topics, &msg.topics) {
                    let action = ChatAction::GenerateEvent(ChatEvent::Message(msg.duplicate()));
                    let ghost before = self.events@;
                    self.events.push_back(action);
                    proof {
                        assert(events_view(self.events@) =~= events_view(before).push(action@));
                    }
                }
                // Propagate the message to everyone else who is subscribed to any of the topics.
                self.route_received(&mut batch, source, msg);
            }
            proof {
                assert(self@ =~= ChatModel {
                    events: m1.events + received_effects(m1, source@, msgs, fresh@, (k + 1) as nat).0,
                    ..m1
                });
            }
            k += 1;
        }
        let ghost eff = received_effects(m1, source@, msgs, fresh@, msgs.len());
        let ghost mid = self@;
        let ghost mut done: int = 0;
        while batch.len() > 0
            invariant
                self.received() == old(self).received(),
                0 <= done <= eff.1.len(),
                batch_view(batch@) == eff.1.skip(done),
                self.wf(),
                self@ == (ChatModel { events: mid.events + batch_actions(eff.1.take(done)), ..mid }),
            decreases batch@.len(),
        {
            let ghost before_b = batch_view(batch@);
            let ghost before_raw = batch@;
            assert(before_b.len() == before_raw.len() > 0);
            assert(done < eff.1.len());
            let (peer_id, messages) = batch.remove(0);
            let rpc = ChatRpc { subscriptions: Vec::new(), messages };
            let action = ChatAction::NotifyHandler { peer_id, event: rpc };
            let ghost before = self.events@;
            self.events.push_back(action);
            proof {
                assert(before_b[0] == eff.1[done]);
                assert(batch@ =~= before_raw.skip(1));
                assert(batch_view(batch@) =~= before_b.skip(1));
                assert(rpc@ =~= ChatRpcModel { messages: eff.1[done].1, subscriptions: Seq::empty() });
                assert(events_view(self.events@) =~= events_view(before).push(action@));
                assert(batch_view(batch@) =~= eff.1.skip(done + 1));
                assert(eff.1.take(done + 1) =~= eff.1.take(done).push(eff.1[done]));
                assert(batch_actions(eff.1.take(done + 1)) =~= batch_actions(eff.1.take(done)).push(
                    action@,
                ));
                done = done + 1;
            }
        }
        proof {
            assert(eff.1.take(done) =~= eff.1);
            assert(self@ =~= spec_handle_rpc(old(self)@, source@, rpc@, fresh@));
        }
    }

    /// Asks the filter of received messages, for each of `messages` in turn, whether it is new,
    /// and records it. Returns the answers, and, in ghost code, whether each was recorded with
    /// no other message dropped and what the filter reported before each message and at the end.
    fn check_received(&mut self, messages: &Vec<ChatMessage>) -> (r: (
        Vec<bool>,
        Ghost<Seq<bool>>,
        Ghost<Seq<Set<ChatMessageModel>>>,
    ))
        ensures
            final(self)@ == old(self)@,
            filter_run(r.2@, messages_view(messages@), r.0@, r.1@),
            r.2@[0] == old(self).received(),
            r.2@[messages@.len() as int] == final(self).received(),
    {
        let ghost mv = messages_view(messages@);
        let ghost start = self@;
        let mut fresh_flags: Vec<bool> = Vec::new();
        let ghost mut ok: Seq<bool> = Seq::empty();
        let ghost mut reports: Seq<Set<ChatMessageModel>> = seq![self.received()];
        let mut i: usize = 0;
        while i < messages.len()
            invariant
                i <= messages@.len() == mv.len(),
                mv == messages_view(messages@),
                self@ == start,
                fresh_flags@.len() == i,
                ok.len() == i,
                reports.len() == i + 1,
                reports[0] == old(self).received(),
                reports[i as int] == self.received(),
                forall|j: int| 0 <= j < i ==> (#[trigger] fresh_flags@[j] <==> !reports[j].contains(mv[j])),
                forall|j: int| 0 <= j < i && !(#[trigger] fresh_flags@[j]) ==> reports[j + 1] == reports[j] && ok[j],
                forall|j: int| 0 <= j < i && #[trigger] ok[j] ==> reports[j].subset_of(reports[j + 1])
                    && reports[j + 1].contains(mv[j]),
            decreases messages@.len() - i,
        {
            assert(messages@[i as int]@ == mv[i as int]);
            // Use the filter to skip the messages that we have already received in the past.
            // Note that this can result in false positives.
            let answer = received_filter_test_and_add(&mut self.received, &messages[i]);
            let (fresh, recorded) = match answer {
                Ok(true) => (true, true),
                Ok(false) => (false, true),
                // Message added, but some other removed.
                Err(_) => (true, false),
            };
            fresh_flags.push(fresh);
            proof {
                ok = ok.push(recorded);
                reports = reports.push(self.received());
            }
            i += 1;
        }
        (fresh_flags, Ghost(ok), Ghost(reports))
    }

    /// Handles what a connection handler reports of `propagation_source`: an RPC it sent us,
    /// or that one of ours went out. Each message of an RPC goes to the filter of received
    /// messages in turn; those it already reports are dropped, as `filter_run` describes.
    pub fn on_connection_handler_event(&mut self, propagation_source: PeerId, event: InnerMessage)
        requires
            old(self).wf(),
            event matches InnerMessage::Rx(rpc) && rpc@.subscriptions.len() > 0 ==> peer_keys(
                old(self)@.connected_peers,
            ).contains(propagation_source@),
        ensures
            final(self).wf(),
            match event {
                InnerMessage::Sent => final(self)@ == old(self)@ && final(self).received() == old(
                    self,
                ).received(),
                InnerMessage::Rx(rpc) => exists|
                    fresh: Seq<bool>,
                    ok: Seq<bool>,
                    reports: Seq<Set<ChatMessageModel>>,
                |
                    {
                        &&& filter_run(reports, rpc@.messages, fresh, ok)
                        &&& reports[0] == old(self).received()
                        &&& reports[rpc@.messages.len() as int] == final(self).received()
                        &&& final(self)@ == spec_handle_rpc(
                            old(self)@,
                            propagation_source@,
                            rpc@,
                            fresh,
                        )
                    },
            },
    {
        // We ignore successful sends or timeouts.
        match event {
            InnerMessage::Rx(rpc) => {
                let ghost r = rpc@;
                assert(messages_view(rpc.messages@) =~= r.messages);
                let (fresh, Ghost(ok), Ghost(reports)) = self.check_received(&rpc.messages);
                self.handle_rpc(&propagation_source, rpc, &fresh);
                assert(filter_run(reports, r.messages, fresh@, ok));
            },
            InnerMessage::Sent => {},
        }
    }
}

} // verus!
