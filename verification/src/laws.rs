//! What holds of the chat behaviour across its operations.
use vstd::prelude::*;
use crate::layer::{
    add_to_batch, after_subscriptions, announce_to_peers, batch_actions, batch_keys, first_index,
    forwards_to, intersects, lemma_first_index, lemma_first_index_exists, model_wf, peer_keys, publish_targets,
    received_effects, remove_first, remove_peer, route_message, set_peer_topics,
    spec_add_node, spec_connection_closed, spec_connection_established, spec_handle_rpc,
    spec_publish, spec_remove_node, spec_subscribe, spec_unsubscribe, ActionModel, Batch,
    ChatModel, EventModel, PeerTopics, filter_run, lemma_push_no_duplicates,
    lemma_remove_no_duplicates, apply_subscription, apply_subscriptions,
};
use crate::protocol::{ChatMessageModel, ChatRpcModel, ChatSubscriptionAction, ChatSubscriptionModel};

verus! {

/// Appending an element that is not there, then removing its first occurrence, gives the
/// sequence back.
pub proof fn lemma_push_remove_first<A>(s: Seq<A>, x: A)
    requires
        !s.contains(x),
    ensures
        remove_first(s.push(x), x) == s,
{
    let t = s.push(x);
    assert(t[s.len() as int] == x);
    assert(t.contains(x));
    assert forall|j: int| 0 <= j < s.len() implies t[j] != x by {
        assert(t[j] == s[j]);
    }
    lemma_first_index(t, x, s.len() as int);
    assert(t.remove(s.len() as int) =~= s);
}

/// In a sequence without duplicates, removing the first occurrence of `x` leaves no `x`.
pub proof fn lemma_remove_first_gone<A>(s: Seq<A>, x: A)
    requires
        s.no_duplicates(),
    ensures
        !remove_first(s, x).contains(x),
{
    if s.contains(x) {
        let i = first_index(s, x);
        let r = s.remove(i);
        if r.contains(x) {
            let k = choose|k: int| 0 <= k < r.len() && r[k] == x;
            if k < i {
                assert(r[k] == s[k]);
            } else {
                assert(r[k] == s[k + 1]);
            }
        }
    }
}

/// Subscribing to a topic we are not subscribed to and then unsubscribing from it leaves the
/// behaviour as it was, but for the announcements of both changes to the connected peers.
pub proof fn law_subscribe_then_unsubscribe(m: ChatModel, t: Seq<char>)
    requires
        !m.subscribed_topics.contains(t),
    ensures
        spec_unsubscribe(spec_subscribe(m, t), t) == (ChatModel {
            events: m.events + announce_to_peers(
                peer_keys(m.connected_peers),
                t,
                ChatSubscriptionAction::Subscribe,
            ) + announce_to_peers(peer_keys(m.connected_peers), t, ChatSubscriptionAction::Unsubscribe),
            ..m
        }),
{
    let m1 = spec_subscribe(m, t);
    assert(m1.subscribed_topics[m.subscribed_topics.len() as int] == t);
    assert(m1.subscribed_topics.contains(t));
    lemma_push_remove_first(m.subscribed_topics, t);
}

/// Subscribing to a topic twice is the same as subscribing once.
pub proof fn law_subscribe_idempotent(m: ChatModel, t: Seq<char>)
    ensures
        spec_subscribe(spec_subscribe(m, t), t) == spec_subscribe(m, t),
{
    let m1 = spec_subscribe(m, t);
    if !m.subscribed_topics.contains(t) {
        assert(m1.subscribed_topics[m.subscribed_topics.len() as int] == t);
    }
    assert(m1.subscribed_topics.contains(t));
}

/// Unsubscribing from a topic twice is the same as unsubscribing once.
pub proof fn law_unsubscribe_idempotent(m: ChatModel, t: Seq<char>)
    requires
        model_wf(m),
    ensures
        spec_unsubscribe(spec_unsubscribe(m, t), t) == spec_unsubscribe(m, t),
{
    lemma_remove_first_gone(m.subscribed_topics, t);
}

/// Adding a peer that is not a target to the peers to send messages to, then removing it,
/// leaves the targets as they were.
pub proof fn law_add_then_remove_node(m: ChatModel, p: Seq<u8>)
    requires
        !m.target_peers.contains(p),
    ensures
        spec_remove_node(spec_add_node(m, p), p).target_peers == m.target_peers,
{
    lemma_push_remove_first(m.target_peers, p);
}

/// Adding a peer twice makes it a target once, and dials it once.
pub proof fn law_add_node_twice(m: ChatModel, p: Seq<u8>)
    ensures
        spec_add_node(spec_add_node(m, p), p).target_peers == spec_add_node(m, p).target_peers,
        !spec_add_node(spec_add_node(m, p), p).events.skip(spec_add_node(m, p).events.len() as int).contains(
            ActionModel::Dial(p),
        ),
{
    let m1 = spec_add_node(m, p);
    if !m.target_peers.contains(p) {
        assert(m1.target_peers[m.target_peers.len() as int] == p);
    }
    assert(m1.target_peers.contains(p));
    let m2 = spec_add_node(m1, p);
    let tail = m2.events.skip(m1.events.len() as int);
    if peer_keys(m1.connected_peers).contains(p) {
        assert forall|k: int| 0 <= k < tail.len() implies tail[k] != ActionModel::Dial(p) by {
            assert(tail[k] == m2.events[m1.events.len() + k]);
        }
    } else {
        assert(tail =~= Seq::<ActionModel>::empty());
    }
}

/// A first connection to a peer that was not connected, then the closing of its last
/// connection, leaves the connected peers as they were.
pub proof fn law_connect_then_disconnect(m: ChatModel, p: Seq<u8>)
    requires
        !peer_keys(m.connected_peers).contains(p),
    ensures
        spec_connection_closed(spec_connection_established(m, p, 0), p, 0).connected_peers
            == m.connected_peers,
{
    let c = m.connected_peers;
    let c1 = set_peer_topics(c, p, Seq::empty());
    assert(c1 =~= c.push((p, Seq::empty())));
    assert(peer_keys(c1) =~= peer_keys(c).push(p));
    lemma_push_remove_first(peer_keys(c), p);
    assert(peer_keys(c1)[c.len() as int] == p);
    assert(peer_keys(c1).contains(p));
    assert forall|j: int| 0 <= j < c.len() implies peer_keys(c1)[j] != p by {
        assert(peer_keys(c1)[j] == peer_keys(c)[j]);
    }
    lemma_first_index(peer_keys(c1), p, c.len() as int);
    assert(remove_peer(c1, p) =~= c);
}

/// Publishing with the check on, on topics none of which we are subscribed to, does nothing.
pub proof fn law_publish_unsubscribed_does_nothing(m: ChatModel, msg: ChatMessageModel)
    requires
        !intersects(m.subscribed_topics, msg.topics),
    ensures
        spec_publish(m, msg, true) == m,
{
    assert(spec_publish(m, msg, true).events =~= m.events);
}

/// Every peer that `publish_targets` picks is a connected target subscribed to one of the
/// topics.
pub proof fn lemma_publish_targets(c: Seq<PeerTopics>, targets: Seq<Seq<u8>>, topics: Seq<Seq<char>>)
    ensures
        forall|k: int|
            0 <= k < publish_targets(c, targets, topics).len() ==> {
                let p = #[trigger] publish_targets(c, targets, topics)[k];
                &&& targets.contains(p)
                &&& exists|j: int| 0 <= j < c.len() && c[j].0 == p && intersects(c[j].1, topics)
            },
    decreases c.len(),
{
    if c.len() > 0 {
        let d = c.drop_last();
        lemma_publish_targets(d, targets, topics);
        let prev = publish_targets(d, targets, topics);
        let cur = publish_targets(c, targets, topics);
        assert forall|k: int| 0 <= k < cur.len() implies {
            let p = #[trigger] cur[k];
            &&& targets.contains(p)
            &&& exists|j: int| 0 <= j < c.len() && c[j].0 == p && intersects(c[j].1, topics)
        } by {
            if k < prev.len() {
                assert(cur[k] == prev[k]);
                let j = choose|j: int| 0 <= j < d.len() && d[j].0 == prev[k] && intersects(d[j].1, topics);
                assert(c[j] == d[j]);
            } else {
                assert(cur[k] == c.last().0);
                assert(c[c.len() - 1] == c.last());
            }
        }
    }
}

/// Publishing sends the message only to connected target peers subscribed to one of its
/// topics, each RPC carrying the message alone, and reports it to us only when local messages
/// are to be reported and we are subscribed to one of its topics.
pub proof fn law_publish_sends_to_subscribed_targets(m: ChatModel, msg: ChatMessageModel, check: bool)
    ensures
        forall|k: int|
            m.events.len() <= k < spec_publish(m, msg, check).events.len() ==> match #[trigger] spec_publish(m, msg, check).events[k] {
                ActionModel::Notify(p, rpc) => {
                    &&& m.target_peers.contains(p)
                    &&& exists|j: int|
                        0 <= j < m.connected_peers.len() && m.connected_peers[j].0 == p
                            && intersects(m.connected_peers[j].1, msg.topics)
                    &&& rpc.messages == seq![msg]
                    &&& rpc.subscriptions.len() == 0
                },
                ActionModel::Generate(e) => {
                    &&& e == EventModel::Message(msg)
                    &&& m.subscribe_local_messages
                    &&& intersects(m.subscribed_topics, msg.topics)
                },
                ActionModel::Dial(_) => false,
            },
{
    lemma_publish_targets(m.connected_peers, m.target_peers, msg.topics);
    let r = spec_publish(m, msg, check);
    let subscribed = intersects(m.subscribed_topics, msg.topics);
    let local: Seq<ActionModel> = if subscribed && m.subscribe_local_messages {
        seq![ActionModel::Generate(EventModel::Message(msg))]
    } else {
        Seq::empty()
    };
    let ts = publish_targets(m.connected_peers, m.target_peers, msg.topics);
    assert forall|k: int| m.events.len() <= k < r.events.len() implies match #[trigger] r.events[k] {
        ActionModel::Notify(p, rpc) => {
            &&& m.target_peers.contains(p)
            &&& exists|j: int|
                0 <= j < m.connected_peers.len() && m.connected_peers[j].0 == p
                    && intersects(m.connected_peers[j].1, msg.topics)
            &&& rpc.messages == seq![msg]
            &&& rpc.subscriptions.len() == 0
        },
        ActionModel::Generate(e) => {
            &&& e == EventModel::Message(msg)
            &&& m.subscribe_local_messages
            &&& intersects(m.subscribed_topics, msg.topics)
        },
        ActionModel::Dial(_) => false,
    } by {
        let k1 = k - m.events.len();
        if k1 < local.len() {
            assert(r.events[k] == local[k1]);
        } else if !(check && !subscribed) {
            let k2 = k1 - local.len();
            assert(r.events[k] == ActionModel::Notify(
                ts[k2],
                ChatRpcModel { messages: seq![msg], subscriptions: Seq::empty() },
            ));
            assert(ts[k2] == ts[k2]);
        }
    }
}

/// Keys of a batch after adding a message: those before, and the peer if it was new.
pub proof fn lemma_add_to_batch_keys(b: Batch, p: Seq<u8>, msg: ChatMessageModel)
    ensures
        batch_keys(add_to_batch(b, p, msg)) == (if batch_keys(b).contains(p) {
            batch_keys(b)
        } else {
            batch_keys(b).push(p)
        }),
{
    if batch_keys(b).contains(p) {
        lemma_first_index_exists(batch_keys(b), p);
        let i = first_index(batch_keys(b), p);
        assert(batch_keys(b)[i] == p);
        assert(batch_keys(add_to_batch(b, p, msg)) =~= batch_keys(b));
    } else {
        assert(batch_keys(add_to_batch(b, p, msg)) =~= batch_keys(b).push(p));
    }
}

/// What a peer must be for a message from `source` to be passed on to it.
pub open spec fn valid_recipient(
    p: Seq<u8>,
    c: Seq<PeerTopics>,
    targets: Seq<Seq<u8>>,
    source: Seq<u8>,
) -> bool {
    &&& p != source
    &&& targets.contains(p)
    &&& peer_keys(c).contains(p)
}

/// Routing a message adds only peers it is passed on to.
pub proof fn lemma_route_keys(
    b: Batch,
    c: Seq<PeerTopics>,
    all: Seq<PeerTopics>,
    targets: Seq<Seq<u8>>,
    source: Seq<u8>,
    msg: ChatMessageModel,
)
    requires
        forall|k: int| 0 <= k < batch_keys(b).len() ==> valid_recipient(#[trigger] batch_keys(b)[k], all, targets, source),
        forall|j: int| 0 <= j < c.len() ==> peer_keys(all).contains(#[trigger] c[j].0),
    ensures
        forall|k: int|
            0 <= k < batch_keys(route_message(b, c, targets, source, msg)).len() ==> valid_recipient(
                #[trigger] batch_keys(route_message(b, c, targets, source, msg))[k],
                all,
                targets,
                source,
            ),
    decreases c.len(),
{
    if c.len() > 0 {
        let d = c.drop_last();
        assert forall|j: int| 0 <= j < d.len() implies peer_keys(all).contains(#[trigger] d[j].0) by {
            assert(d[j] == c[j]);
        }
        lemma_route_keys(b, d, all, targets, source, msg);
        let prev = route_message(b, d, targets, source, msg);
        if forwards_to(c.last(), targets, source, msg) {
            lemma_add_to_batch_keys(prev, c.last().0, msg);
            assert(c[c.len() - 1] == c.last());
            let keys = batch_keys(route_message(b, c, targets, source, msg));
            assert forall|k: int| 0 <= k < keys.len() implies valid_recipient(
                #[trigger] keys[k],
                all,
                targets,
                source,
            ) by {
                if k < batch_keys(prev).len() {
                    assert(keys[k] == batch_keys(prev)[k]);
                }
            }
        }
    }
}

/// What handling the first `n` messages reports is only messages, and what it batches goes
/// only to peers the messages may be passed on to.
pub proof fn lemma_received_effects(
    m: ChatModel,
    source: Seq<u8>,
    msgs: Seq<ChatMessageModel>,
    fresh: Seq<bool>,
    n: nat,
)
    requires
        n <= msgs.len(),
        n <= fresh.len(),
    ensures
        forall|k: int|
            0 <= k < received_effects(m, source, msgs, fresh, n).0.len() ==> (
            #[trigger] received_effects(m, source, msgs, fresh, n).0[k]) is Generate,
        forall|k: int|
            0 <= k < batch_keys(received_effects(m, source, msgs, fresh, n).1).len() ==> valid_recipient(
                #[trigger] batch_keys(received_effects(m, source, msgs, fresh, n).1)[k],
                m.connected_peers,
                m.target_peers,
                source,
            ),
    decreases n,
{
    if n > 0 {
        lemma_received_effects(m, source, msgs, fresh, (n - 1) as nat);
        let prev = received_effects(m, source, msgs, fresh, (n - 1) as nat);
        let cur = received_effects(m, source, msgs, fresh, n);
        if fresh[n - 1] {
            let msg = msgs[n - 1];
            assert forall|j: int| 0 <= j < m.connected_peers.len() implies peer_keys(
                m.connected_peers,
            ).contains(#[trigger] m.connected_peers[j].0) by {
                assert(peer_keys(m.connected_peers)[j] == m.connected_peers[j].0);
            }
            lemma_route_keys(prev.1, m.connected_peers, m.connected_peers, m.target_peers, source, msg);
            assert forall|k: int| 0 <= k < cur.0.len() implies (#[trigger] cur.0[k]) is Generate by {
                if k < prev.0.len() {
                    assert(cur.0[k] == prev.0[k]);
                }
            }
        }
    }
}

/// Whether the connected peer `p` is subscribed to one of the topics of `msg`.
pub open spec fn subscribed_peer(c: Seq<PeerTopics>, p: Seq<u8>, msg: ChatMessageModel) -> bool {
    exists|j: int| 0 <= j < c.len() && c[j].0 == p && intersects(c[j].1, msg.topics)
}

/// Whether every message batched for a peer is on one of the peer's topics.
pub open spec fn batch_subscribed(b: Batch, c: Seq<PeerTopics>) -> bool {
    forall|i: int, k: int|
        0 <= i < b.len() && 0 <= k < b[i].1.len() ==> subscribed_peer(c, b[i].0, #[trigger] b[i].1[k])
}

/// Adding a message for a peer subscribed to one of its topics keeps every batched message on
/// one of its peer's topics.
pub proof fn lemma_add_to_batch_subscribed(b: Batch, c: Seq<PeerTopics>, p: Seq<u8>, msg: ChatMessageModel)
    requires
        batch_subscribed(b, c),
        subscribed_peer(c, p, msg),
    ensures
        batch_subscribed(add_to_batch(b, p, msg), c),
{
    let r = add_to_batch(b, p, msg);
    if batch_keys(b).contains(p) {
        lemma_first_index_exists(batch_keys(b), p);
        let i0 = first_index(batch_keys(b), p);
        assert(b[i0].0 == batch_keys(b)[i0]);
        assert forall|i: int, k: int| 0 <= i < r.len() && 0 <= k < r[i].1.len() implies subscribed_peer(
            c,
            r[i].0,
            #[trigger] r[i].1[k],
        ) by {
            if i == i0 {
                if k < b[i0].1.len() {
                    assert(r[i].1[k] == b[i0].1[k]);
                }
            } else {
                assert(r[i] == b[i]);
            }
        }
    } else {
        assert forall|i: int, k: int| 0 <= i < r.len() && 0 <= k < r[i].1.len() implies subscribed_peer(
            c,
            r[i].0,
            #[trigger] r[i].1[k],
        ) by {
            if i < b.len() {
                assert(r[i] == b[i]);
            } else {
                assert(r[i].1 == seq![msg]);
            }
        }
    }
}

/// Routing a message over a prefix of the connected peers adds it only for peers subscribed to
/// one of its topics.
pub proof fn lemma_route_subscribed(
    b: Batch,
    c: Seq<PeerTopics>,
    all: Seq<PeerTopics>,
    targets: Seq<Seq<u8>>,
    source: Seq<u8>,
    msg: ChatMessageModel,
)
    requires
        batch_subscribed(b, all),
        c.len() <= all.len(),
        forall|j: int| 0 <= j < c.len() ==> c[j] == all[j],
    ensures
        batch_subscribed(route_message(b, c, targets, source, msg), all),
    decreases c.len(),
{
    if c.len() > 0 {
        let d = c.drop_last();
        assert forall|j: int| 0 <= j < d.len() implies d[j] == all[j] by {
            assert(d[j] == c[j]);
        }
        lemma_route_subscribed(b, d, all, targets, source, msg);
        let prev = route_message(b, d, targets, source, msg);
        if forwards_to(c.last(), targets, source, msg) {
            let j = c.len() - 1;
            assert(c[j] == c.last());
            assert(all[j] == c.last());
            assert(subscribed_peer(all, c.last().0, msg));
            lemma_add_to_batch_subscribed(prev, all, c.last().0, msg);
        }
    }
}

/// Every message batched while handling the first `n` messages is on one of its peer's topics.
pub proof fn lemma_received_subscribed(
    m: ChatModel,
    source: Seq<u8>,
    msgs: Seq<ChatMessageModel>,
    fresh: Seq<bool>,
    n: nat,
)
    ensures
        batch_subscribed(received_effects(m, source, msgs, fresh, n).1, m.connected_peers),
    decreases n,
{
    if n > 0 {
        lemma_received_subscribed(m, source, msgs, fresh, (n - 1) as nat);
        let prev = received_effects(m, source, msgs, fresh, (n - 1) as nat);
        if fresh[n - 1] {
            lemma_route_subscribed(
                prev.1,
                m.connected_peers,
                m.connected_peers,
                m.target_peers,
                source,
                msgs[n - 1],
            );
        }
    }
}

/// Handling an RPC from `source` sends RPCs only to connected targets other than `source`,
/// never back to it, each carrying only messages on one of the peer's topics; everything else
/// it adds is a report to the user.
pub proof fn law_handle_rpc_never_echoes(m: ChatModel, source: Seq<u8>, rpc: ChatRpcModel, fresh: Seq<bool>)
    requires
        fresh.len() == rpc.messages.len(),
    ensures
        forall|k: int|
            m.events.len() <= k < spec_handle_rpc(m, source, rpc, fresh).events.len() ==> match #[trigger] spec_handle_rpc(m, source, rpc, fresh).events[k] {
                ActionModel::Notify(p, sent) => {
                    let r = spec_handle_rpc(m, source, rpc, fresh);
                    &&& p != source
                    &&& r.target_peers.contains(p)
                    &&& peer_keys(r.connected_peers).contains(p)
                    &&& sent.subscriptions.len() == 0
                    &&& forall|k: int|
                        0 <= k < sent.messages.len() ==> subscribed_peer(
                            r.connected_peers,
                            p,
                            #[trigger] sent.messages[k],
                        )
                },
                ActionModel::Generate(_) => true,
                ActionModel::Dial(_) => false,
            },
{
    let m1 = after_subscriptions(m, source, rpc.subscriptions);
    let eff = received_effects(m1, source, rpc.messages, fresh, rpc.messages.len());
    lemma_received_effects(m1, source, rpc.messages, fresh, rpc.messages.len());
    lemma_received_subscribed(m1, source, rpc.messages, fresh, rpc.messages.len());
    let r = spec_handle_rpc(m, source, rpc, fresh);
    let subs_ev = rpc.subscriptions.len();
    assert forall|k: int| m.events.len() <= k < r.events.len() implies match #[trigger] r.events[k] {
        ActionModel::Notify(p, sent) => {
            &&& p != source
            &&& r.target_peers.contains(p)
            &&& peer_keys(r.connected_peers).contains(p)
            &&& sent.subscriptions.len() == 0
            &&& forall|k: int|
                0 <= k < sent.messages.len() ==> subscribed_peer(
                    r.connected_peers,
                    p,
                    #[trigger] sent.messages[k],
                )
        },
        ActionModel::Generate(_) => true,
        ActionModel::Dial(_) => false,
    } by {
        let k1 = k - m.events.len();
        if k1 < subs_ev {
            let s = rpc.subscriptions[k1];
            assert(r.events[k] == m1.events[k]);
            assert(s.action == ChatSubscriptionAction::Subscribe || s.action
                == ChatSubscriptionAction::Unsubscribe);
        } else if k1 < subs_ev + eff.0.len() {
            assert(r.events[k] == eff.0[k1 - subs_ev]);
        } else {
            let k2 = k1 - subs_ev - eff.0.len();
            assert(r.events[k] == batch_actions(eff.1)[k2]);
            assert(batch_keys(eff.1)[k2] == eff.1[k2].0);
            assert forall|k3: int| 0 <= k3 < eff.1[k2].1.len() implies subscribed_peer(
                r.connected_peers,
                eff.1[k2].0,
                #[trigger] eff.1[k2].1[k3],
            ) by {
                assert(subscribed_peer(m1.connected_peers, eff.1[k2].0, eff.1[k2].1[k3]));
            }
        }
    }
}

/// When every message of an RPC was seen before, handling it only records and reports its
/// subscription changes.
pub proof fn law_handle_rpc_drops_seen_messages(m: ChatModel, source: Seq<u8>, rpc: ChatRpcModel, fresh: Seq<bool>)
    requires
        fresh.len() == rpc.messages.len(),
        forall|k: int| 0 <= k < fresh.len() ==> !fresh[k],
    ensures
        spec_handle_rpc(m, source, rpc, fresh) == after_subscriptions(m, source, rpc.subscriptions),
{
    let m1 = after_subscriptions(m, source, rpc.subscriptions);
    lemma_all_seen(m1, source, rpc.messages, fresh, rpc.messages.len());
    let r = spec_handle_rpc(m, source, rpc, fresh);
    assert(r.events =~= m1.events);
}

proof fn lemma_all_seen(m: ChatModel, source: Seq<u8>, msgs: Seq<ChatMessageModel>, fresh: Seq<bool>, n: nat)
    requires
        n <= fresh.len(),
        forall|k: int| 0 <= k < fresh.len() ==> !fresh[k],
    ensures
        received_effects(m, source, msgs, fresh, n) == (Seq::<ActionModel>::empty(), Seq::<(Seq<u8>, Seq<ChatMessageModel>)>::empty()),
    decreases n,
{
    if n > 0 {
        lemma_all_seen(m, source, msgs, fresh, (n - 1) as nat);
    }
}


/// Whether every answer in `ok[a..b]` recorded its message with no other dropped.
pub open spec fn all_recorded(ok: Seq<bool>, a: int, b: int) -> bool {
    forall|k: int| a <= k < b ==> #[trigger] ok[k]
}

/// While the filter drops nothing, what it reports only grows.
pub proof fn lemma_filter_monotone(
    reports: Seq<Set<ChatMessageModel>>,
    msgs: Seq<ChatMessageModel>,
    fresh: Seq<bool>,
    ok: Seq<bool>,
    a: int,
    b: int,
)
    requires
        filter_run(reports, msgs, fresh, ok),
        0 <= a <= b <= msgs.len(),
        all_recorded(ok, a, b),
    ensures
        reports[a].subset_of(reports[b]),
    decreases b - a,
{
    if a < b {
        assert(ok[a]);
        lemma_filter_monotone(reports, msgs, fresh, ok, a + 1, b);
    }
}

/// Within one run, a message is dropped when the filter reported it at the start and dropped
/// nothing before it, and when it equals an earlier message of the run and the filter dropped
/// nothing from that one on.
pub proof fn law_filter_drops_repeats(
    reports: Seq<Set<ChatMessageModel>>,
    msgs: Seq<ChatMessageModel>,
    fresh: Seq<bool>,
    ok: Seq<bool>,
)
    requires
        filter_run(reports, msgs, fresh, ok),
    ensures
        forall|i: int|
            0 <= i < msgs.len() && all_recorded(ok, 0, i) && reports[0].contains(msgs[i]) ==> !(
            #[trigger] fresh[i]),
        forall|j: int, i: int|
            #![trigger msgs[j], fresh[i]]
            0 <= j < i < msgs.len() && all_recorded(ok, j, i) && msgs[j] == msgs[i] ==> !fresh[i],
{
    assert forall|i: int|
        0 <= i < msgs.len() && all_recorded(ok, 0, i) && reports[0].contains(msgs[i]) implies !(
        #[trigger] fresh[i]) by {
        lemma_filter_monotone(reports, msgs, fresh, ok, 0, i);
    }
    assert forall|j: int, i: int|
        #![trigger msgs[j], fresh[i]]
        0 <= j < i < msgs.len() && all_recorded(ok, j, i) && msgs[j] == msgs[i] implies !fresh[i] by {
        assert(ok[j]);
        lemma_filter_monotone(reports, msgs, fresh, ok, j + 1, i);
        assert(reports[j + 1].contains(msgs[j]));
        assert(reports[i].contains(msgs[i]));
    }
}

/// When the filter reports every message of a run at its start, every one is dropped.
pub proof fn law_reported_messages_dropped(
    reports: Seq<Set<ChatMessageModel>>,
    msgs: Seq<ChatMessageModel>,
    fresh: Seq<bool>,
    ok: Seq<bool>,
)
    requires
        filter_run(reports, msgs, fresh, ok),
        forall|i: int| 0 <= i < msgs.len() ==> reports[0].contains(#[trigger] msgs[i]),
    ensures
        forall|i: int| 0 <= i < msgs.len() ==> !(#[trigger] fresh[i]),
{
    lemma_reported_prefix(reports, msgs, fresh, ok, msgs.len() as int);
}

proof fn lemma_reported_prefix(
    reports: Seq<Set<ChatMessageModel>>,
    msgs: Seq<ChatMessageModel>,
    fresh: Seq<bool>,
    ok: Seq<bool>,
    n: int,
)
    requires
        filter_run(reports, msgs, fresh, ok),
        forall|i: int| 0 <= i < msgs.len() ==> reports[0].contains(#[trigger] msgs[i]),
        0 <= n <= msgs.len(),
    ensures
        forall|i: int| 0 <= i < n ==> !(#[trigger] fresh[i]),
        reports[n] == reports[0],
    decreases n,
{
    if n > 0 {
        lemma_reported_prefix(reports, msgs, fresh, ok, n - 1);
        assert(reports[0].contains(msgs[n - 1]));
        assert(!fresh[n - 1]);
    }
}

/// When the filter drops nothing during a run, it ends up reporting all it did before and
/// every message of the run.
pub proof fn law_run_records_messages(
    reports: Seq<Set<ChatMessageModel>>,
    msgs: Seq<ChatMessageModel>,
    fresh: Seq<bool>,
    ok: Seq<bool>,
)
    requires
        filter_run(reports, msgs, fresh, ok),
        all_recorded(ok, 0, msgs.len() as int),
    ensures
        reports[0].subset_of(reports[msgs.len() as int]),
        forall|i: int| 0 <= i < msgs.len() ==> reports[msgs.len() as int].contains(#[trigger] msgs[i]),
{
    lemma_filter_monotone(reports, msgs, fresh, ok, 0, msgs.len() as int);
    assert forall|i: int| 0 <= i < msgs.len() implies reports[msgs.len() as int].contains(
        #[trigger] msgs[i],
    ) by {
        assert(ok[i]);
        lemma_filter_monotone(reports, msgs, fresh, ok, i + 1, msgs.len() as int);
    }
}

/// An RPC from a peer with no subscription changes leaves the subscriptions as they were.
pub proof fn lemma_no_subscription_changes(m: ChatModel, source: Seq<u8>)
    ensures
        after_subscriptions(m, source, Seq::empty()) == m,
{
    let c = m.connected_peers;
    if peer_keys(c).contains(source) {
        lemma_first_index_exists(peer_keys(c), source);
        let i = first_index(peer_keys(c), source);
        assert(peer_keys(c)[i] == c[i].0);
        assert(c.update(i, (source, c[i].1)) =~= c);
    }
    let m1 = after_subscriptions(m, source, Seq::empty());
    assert(m1.events =~= m.events);
    assert(m1 =~= m);
}

/// The same RPC handled a second time, the filter having dropped nothing while the first was
/// handled and its answers on the second starting from what it reported after the first,
/// reports and passes on none of its messages: only its subscription changes are recorded and
/// reported, and an RPC with none changes nothing.
pub proof fn law_rpc_received_twice_is_dropped(
    m: ChatModel,
    source: Seq<u8>,
    rpc: ChatRpcModel,
    reports1: Seq<Set<ChatMessageModel>>,
    fresh1: Seq<bool>,
    ok1: Seq<bool>,
    reports2: Seq<Set<ChatMessageModel>>,
    fresh2: Seq<bool>,
    ok2: Seq<bool>,
)
    requires
        filter_run(reports1, rpc.messages, fresh1, ok1),
        all_recorded(ok1, 0, rpc.messages.len() as int),
        filter_run(reports2, rpc.messages, fresh2, ok2),
        reports2[0] == reports1[rpc.messages.len() as int],
    ensures
        spec_handle_rpc(m, source, rpc, fresh2) == after_subscriptions(m, source, rpc.subscriptions),
        rpc.subscriptions.len() == 0 ==> spec_handle_rpc(m, source, rpc, fresh2) == m,
{
    law_run_records_messages(reports1, rpc.messages, fresh1, ok1);
    law_reported_messages_dropped(reports2, rpc.messages, fresh2, ok2);
    law_handle_rpc_drops_seen_messages(m, source, rpc, fresh2);
    if rpc.subscriptions.len() == 0 {
        assert(rpc.subscriptions =~= Seq::<crate::protocol::ChatSubscriptionModel>::empty());
        lemma_no_subscription_changes(m, source);
    }
}


/// A change that the swarm reports of the connections to a peer: a connection established with
/// `n` others already open, or one closed with `n` others remaining.
pub enum ConnectionChange {
    Established(Seq<u8>, nat),
    Closed(Seq<u8>, nat),
    Other,
}

/// What `on_swarm_event` does with a change.
pub open spec fn apply_change(m: ChatModel, e: ConnectionChange) -> ChatModel {
    match e {
        ConnectionChange::Established(p, n) => spec_connection_established(m, p, n),
        ConnectionChange::Closed(p, n) => spec_connection_closed(m, p, n),
        ConnectionChange::Other => m,
    }
}

/// The behaviour after a run of changes, in order.
pub open spec fn apply_changes(m: ChatModel, run: Seq<ConnectionChange>) -> ChatModel
    decreases run.len(),
{
    if run.len() == 0 {
        m
    } else {
        apply_change(apply_changes(m, run.drop_last()), run.last())
    }
}

/// The number of open connections to each peer after a change.
pub open spec fn count_change(c: spec_fn(Seq<u8>) -> nat, e: ConnectionChange) -> spec_fn(Seq<u8>) -> nat {
    match e {
        ConnectionChange::Established(p, _) => |q: Seq<u8>| if q == p { c(q) + 1 } else { c(q) },
        ConnectionChange::Closed(p, _) => |q: Seq<u8>| if q == p { (c(q) - 1) as nat } else { c(q) },
        ConnectionChange::Other => c,
    }
}

/// The number of open connections to each peer after a run of changes.
pub open spec fn counts_after(c: spec_fn(Seq<u8>) -> nat, run: Seq<ConnectionChange>) -> spec_fn(Seq<u8>) -> nat
    decreases run.len(),
{
    if run.len() == 0 {
        c
    } else {
        count_change(counts_after(c, run.drop_last()), run.last())
    }
}

/// Whether a change reports the connections to its peer as `c` counts them.
pub open spec fn faithful(c: spec_fn(Seq<u8>) -> nat, e: ConnectionChange) -> bool {
    match e {
        ConnectionChange::Established(p, n) => n == c(p),
        ConnectionChange::Closed(p, n) => c(p) >= 1 && n == c(p) - 1,
        ConnectionChange::Other => true,
    }
}

/// Whether every change of a run reports the connections as they stand before it.
pub open spec fn faithful_run(c: spec_fn(Seq<u8>) -> nat, run: Seq<ConnectionChange>) -> bool
    decreases run.len(),
{
    run.len() == 0 || (faithful_run(c, run.drop_last()) && faithful(
        counts_after(c, run.drop_last()),
        run.last(),
    ))
}

/// Whether the connected peers are exactly those with an open connection.
pub open spec fn connected_match(m: ChatModel, c: spec_fn(Seq<u8>) -> nat) -> bool {
    forall|p: Seq<u8>| #[trigger] peer_keys(m.connected_peers).contains(p) <==> c(p) > 0
}

proof fn lemma_change_keeps_match(m: ChatModel, c: spec_fn(Seq<u8>) -> nat, e: ConnectionChange)
    requires
        model_wf(m),
        connected_match(m, c),
        faithful(c, e),
    ensures
        model_wf(apply_change(m, e)),
        connected_match(apply_change(m, e), count_change(c, e)),
{
    let keys = peer_keys(m.connected_peers);
    let r = apply_change(m, e);
    let c2 = count_change(c, e);
    match e {
        ConnectionChange::Established(p, n) => {
            assert(keys.contains(p) <==> c(p) > 0);
            if n == 0 {
                let cp = m.connected_peers;
                assert(r.connected_peers =~= cp.push((p, Seq::empty())));
                assert(peer_keys(r.connected_peers) =~= keys.push(p));
                lemma_push_no_duplicates(keys, p);
                assert forall|i: int| 0 <= i < r.connected_peers.len() implies (
                #[trigger] r.connected_peers[i]).1.no_duplicates() by {
                    if i < cp.len() {
                        assert(r.connected_peers[i] == cp[i]);
                    }
                }
                assert forall|q: Seq<u8>| #[trigger] peer_keys(r.connected_peers).contains(q) <==> c2(q) > 0 by {
                    if q != p {
                        assert(keys.contains(q) <==> c(q) > 0);
                        if keys.contains(q) {
                            let k = choose|k: int| 0 <= k < keys.len() && keys[k] == q;
                            assert(peer_keys(r.connected_peers)[k] == q);
                        }
                        if peer_keys(r.connected_peers).contains(q) {
                            let k = choose|k: int| 0 <= k < peer_keys(r.connected_peers).len() && peer_keys(r.connected_peers)[k] == q;
                            assert(k < keys.len());
                            assert(keys[k] == q);
                        }
                    } else {
                        assert(peer_keys(r.connected_peers)[keys.len() as int] == p);
                    }
                }
            } else {
                assert forall|q: Seq<u8>| #[trigger] peer_keys(r.connected_peers).contains(q) <==> c2(q) > 0 by {
                    assert(keys.contains(q) <==> c(q) > 0);
                }
            }
        },
        ConnectionChange::Closed(p, n) => {
            assert(keys.contains(p) <==> c(p) > 0);
            if n == 0 {
                let cp = m.connected_peers;
                lemma_first_index_exists(keys, p);
                let i = first_index(keys, p);
                assert(r.connected_peers == cp.remove(i));
                assert(peer_keys(r.connected_peers) =~= keys.remove(i));
                lemma_remove_no_duplicates(keys, i);
                lemma_remove_first_gone(keys, p);
                assert forall|j: int| 0 <= j < r.connected_peers.len() implies (
                #[trigger] r.connected_peers[j]).1.no_duplicates() by {
                    if j < i {
                        assert(r.connected_peers[j] == cp[j]);
                    } else {
                        assert(r.connected_peers[j] == cp[j + 1]);
                    }
                }
                assert forall|q: Seq<u8>| #[trigger] peer_keys(r.connected_peers).contains(q) <==> c2(q) > 0 by {
                    if q != p {
                        assert(keys.contains(q) <==> c(q) > 0);
                        let ks = keys.remove(i);
                        if keys.contains(q) {
                            let k = choose|k: int| 0 <= k < keys.len() && keys[k] == q;
                            if k < i {
                                assert(ks[k] == q);
                            } else {
                                assert(k != i);
                                assert(ks[k - 1] == q);
                            }
                        }
                        if ks.contains(q) {
                            let k = choose|k: int| 0 <= k < ks.len() && ks[k] == q;
                            if k < i {
                                assert(keys[k] == q);
                            } else {
                                assert(keys[k + 1] == q);
                            }
                        }
                    }
                }
            } else {
                assert forall|q: Seq<u8>| #[trigger] peer_keys(r.connected_peers).contains(q) <==> c2(q) > 0 by {
                    assert(keys.contains(q) <==> c(q) > 0);
                }
            }
        },
        ConnectionChange::Other => {},
    }
}

/// Over any run of changes that report each peer's connections faithfully, the connected peers
/// stay exactly those with at least one open connection, if they were so at the start, and the
/// behaviour stays well formed.
pub proof fn law_connected_peers_are_those_with_connections(
    m: ChatModel,
    c: spec_fn(Seq<u8>) -> nat,
    run: Seq<ConnectionChange>,
)
    requires
        model_wf(m),
        connected_match(m, c),
        faithful_run(c, run),
    ensures
        model_wf(apply_changes(m, run)),
        connected_match(apply_changes(m, run), counts_after(c, run)),
    decreases run.len(),
{
    if run.len() > 0 {
        law_connected_peers_are_those_with_connections(m, c, run.drop_last());
        lemma_change_keeps_match(
            apply_changes(m, run.drop_last()),
            counts_after(c, run.drop_last()),
            run.last(),
        );
    }
}


/// The last change that `subs` make to topic `t`, if any.
pub open spec fn last_change(subs: Seq<ChatSubscriptionModel>, t: Seq<char>) -> Option<
    ChatSubscriptionAction,
>
    decreases subs.len(),
{
    if subs.len() == 0 {
        None
    } else if subs.last().topic == t {
        Some(subs.last().action)
    } else {
        last_change(subs.drop_last(), t)
    }
}

/// One subscription change to a list of topics without duplicates: the changed topic is in
/// the list afterwards exactly when the change subscribes to it, every other topic stays in or
/// out, and the list stays without duplicates.
pub proof fn law_subscription_change(ts: Seq<Seq<char>>, s: ChatSubscriptionModel)
    requires
        ts.no_duplicates(),
    ensures
        apply_subscription(ts, s).no_duplicates(),
        forall|u: Seq<char>|
            #[trigger] apply_subscription(ts, s).contains(u) <==> if u == s.topic {
                s.action == ChatSubscriptionAction::Subscribe
            } else {
                ts.contains(u)
            },
{
    let r = apply_subscription(ts, s);
    let t = s.topic;
    match s.action {
        ChatSubscriptionAction::Subscribe => {
            if !ts.contains(t) {
                lemma_push_no_duplicates(ts, t);
                assert forall|u: Seq<char>| #[trigger] r.contains(u) <==> (u == t || ts.contains(u)) by {
                    if u == t {
                        assert(r[ts.len() as int] == t);
                    }
                    if ts.contains(u) {
                        let k = choose|k: int| 0 <= k < ts.len() && ts[k] == u;
                        assert(r[k] == u);
                    }
                    if r.contains(u) && u != t {
                        let k = choose|k: int| 0 <= k < r.len() && r[k] == u;
                        assert(k < ts.len());
                        assert(ts[k] == u);
                    }
                }
            }
        },
        ChatSubscriptionAction::Unsubscribe => {
            if ts.contains(t) {
                lemma_first_index_exists(ts, t);
                let i = first_index(ts, t);
                lemma_remove_no_duplicates(ts, i);
                lemma_remove_first_gone(ts, t);
                assert forall|u: Seq<char>| u != t implies #[trigger] r.contains(u) == ts.contains(u) by {
                    if ts.contains(u) {
                        let k = choose|k: int| 0 <= k < ts.len() && ts[k] == u;
                        assert(k != i);
                        if k < i {
                            assert(r[k] == u);
                        } else {
                            assert(r[k - 1] == u);
                        }
                    }
                    if r.contains(u) {
                        let k = choose|k: int| 0 <= k < r.len() && r[k] == u;
                        if k < i {
                            assert(ts[k] == u);
                        } else {
                            assert(ts[k + 1] == u);
                        }
                    }
                }
            }
        },
    }
}

/// A run of subscription changes to a list of topics without duplicates: a topic is in the
/// list afterwards exactly when the last change to it subscribes, or, if none changes it, when
/// it was in before.
pub proof fn law_subscription_changes(ts: Seq<Seq<char>>, subs: Seq<ChatSubscriptionModel>)
    requires
        ts.no_duplicates(),
    ensures
        apply_subscriptions(ts, subs).no_duplicates(),
        forall|u: Seq<char>|
            #[trigger] apply_subscriptions(ts, subs).contains(u) <==> match last_change(subs, u) {
                Some(a) => a == ChatSubscriptionAction::Subscribe,
                None => ts.contains(u),
            },
    decreases subs.len(),
{
    if subs.len() > 0 {
        let d = subs.drop_last();
        law_subscription_changes(ts, d);
        law_subscription_change(apply_subscriptions(ts, d), subs.last());
        assert forall|u: Seq<char>| #[trigger] apply_subscriptions(ts, subs).contains(u) <==> match last_change(subs, u) {
            Some(a) => a == ChatSubscriptionAction::Subscribe,
            None => ts.contains(u),
        } by {
            assert(apply_subscriptions(ts, d).contains(u) <==> match last_change(d, u) {
                Some(a) => a == ChatSubscriptionAction::Subscribe,
                None => ts.contains(u),
            });
        }
    }
}

/// Handling an RPC from a connected peer records its subscription changes: afterwards a topic is
/// among the peer's topics exactly when the RPC's last change to it subscribes, or, if the RPC
/// does not change it, when it was among them before. An unsubscription removes the topic
/// wherever it stood.
pub proof fn law_rpc_records_subscriptions(
    m: ChatModel,
    source: Seq<u8>,
    rpc: ChatRpcModel,
    fresh: Seq<bool>,
    i: int,
    t: Seq<char>,
)
    requires
        model_wf(m),
        0 <= i < m.connected_peers.len(),
        m.connected_peers[i].0 == source,
    ensures
        spec_handle_rpc(m, source, rpc, fresh).connected_peers.len() == m.connected_peers.len(),
        spec_handle_rpc(m, source, rpc, fresh).connected_peers[i].0 == source,
        spec_handle_rpc(m, source, rpc, fresh).connected_peers[i].1.contains(t) <==> match last_change(rpc.subscriptions, t) {
            Some(a) => a == ChatSubscriptionAction::Subscribe,
            None => m.connected_peers[i].1.contains(t),
        },
{
    let c = m.connected_peers;
    let keys = peer_keys(c);
    assert(keys[i] == source);
    assert(keys.contains(source));
    lemma_first_index_exists(keys, source);
    let f = first_index(keys, source);
    assert(f == i) by {
        if f != i {
            assert(keys[f] == keys[i]);
        }
    }
    assert(c[i].1.no_duplicates());
    law_subscription_changes(c[i].1, rpc.subscriptions);
}


/// An RPC carrying the one change `action` to topic `t`.
pub open spec fn change_rpc(t: Seq<char>, action: ChatSubscriptionAction) -> ChatRpcModel {
    ChatRpcModel {
        messages: Seq::empty(),
        subscriptions: seq![ChatSubscriptionModel { action, topic: t }],
    }
}

/// A first connection to a target peer keeps the pending actions and appends, in order, one
/// RPC to the peer for each topic we are subscribed to, announcing our subscription to it; the
/// peer is then connected. A first connection to a peer that is not a target appends nothing.
pub proof fn law_first_connection_announces_every_topic(m: ChatModel, p: Seq<u8>)
    ensures
        ({
            let r = spec_connection_established(m, p, 0);
            &&& peer_keys(r.connected_peers).contains(p)
            &&& r.events.take(m.events.len() as int) == m.events
            &&& m.target_peers.contains(p) ==> {
                &&& r.events.len() == m.events.len() + m.subscribed_topics.len()
                &&& forall|k: int|
                    0 <= k < m.subscribed_topics.len() ==> r.events[m.events.len() + k]
                        == ActionModel::Notify(
                        p,
                        change_rpc(#[trigger] m.subscribed_topics[k], ChatSubscriptionAction::Subscribe),
                    )
            }
            &&& !m.target_peers.contains(p) ==> r.events == m.events
        }),
{
    let r = spec_connection_established(m, p, 0);
    let c = m.connected_peers;
    assert(r.events.take(m.events.len() as int) =~= m.events);
    if !m.target_peers.contains(p) {
        assert(r.events =~= m.events);
    }
    if peer_keys(c).contains(p) {
        lemma_first_index_exists(peer_keys(c), p);
        let j = first_index(peer_keys(c), p);
        assert(peer_keys(r.connected_peers)[j] == p);
    } else {
        assert(peer_keys(r.connected_peers)[c.len() as int] == p);
    }
    assert forall|k: int| 0 <= k < m.subscribed_topics.len() && m.target_peers.contains(p) implies r.events[m.events.len() + k]
        == ActionModel::Notify(
        p,
        change_rpc(#[trigger] m.subscribed_topics[k], ChatSubscriptionAction::Subscribe),
    ) by {
        assert(change_rpc(m.subscribed_topics[k], ChatSubscriptionAction::Subscribe)
            =~= crate::layer::subscription_rpc(m.subscribed_topics[k], ChatSubscriptionAction::Subscribe));
    }
}

/// Unsubscribing from a topic we are subscribed to: afterwards we are not subscribed to it,
/// wherever it stood, every other topic stays as it was, and each connected peer, in order, is
/// sent an RPC announcing the unsubscription, after the actions already pending.
pub proof fn law_unsubscribe_removes_and_announces(m: ChatModel, t: Seq<char>)
    requires
        model_wf(m),
        m.subscribed_topics.contains(t),
    ensures
        ({
            let r = spec_unsubscribe(m, t);
            let keys = peer_keys(m.connected_peers);
            &&& !r.subscribed_topics.contains(t)
            &&& forall|u: Seq<char>| u != t ==> (#[trigger] r.subscribed_topics.contains(u)
                <==> m.subscribed_topics.contains(u))
            &&& r.events.len() == m.events.len() + keys.len()
            &&& r.events.take(m.events.len() as int) == m.events
            &&& forall|k: int|
                0 <= k < keys.len() ==> r.events[m.events.len() + k] == ActionModel::Notify(
                    #[trigger] keys[k],
                    change_rpc(t, ChatSubscriptionAction::Unsubscribe),
                )
            &&& r.connected_peers == m.connected_peers
            &&& r.target_peers == m.target_peers
        }),
{
    let r = spec_unsubscribe(m, t);
    let keys = peer_keys(m.connected_peers);
    law_subscription_change(
        m.subscribed_topics,
        ChatSubscriptionModel { action: ChatSubscriptionAction::Unsubscribe, topic: t },
    );
    let s = ChatSubscriptionModel { action: ChatSubscriptionAction::Unsubscribe, topic: t };
    assert(apply_subscription(m.subscribed_topics, s) == r.subscribed_topics);
    assert forall|u: Seq<char>| u != t implies (#[trigger] r.subscribed_topics.contains(u)
        <==> m.subscribed_topics.contains(u)) by {
        assert(apply_subscription(m.subscribed_topics, s).contains(u) <==> m.subscribed_topics.contains(u));
    }
    assert(!apply_subscription(m.subscribed_topics, s).contains(t));
    assert(r.events.take(m.events.len() as int) =~= m.events);
    assert forall|k: int| 0 <= k < keys.len() implies r.events[m.events.len() + k]
        == ActionModel::Notify(#[trigger] keys[k], change_rpc(t, ChatSubscriptionAction::Unsubscribe)) by {
        assert(change_rpc(t, ChatSubscriptionAction::Unsubscribe)
            =~= crate::layer::subscription_rpc(t, ChatSubscriptionAction::Unsubscribe));
    }
}

/// Subscribing to a topic we are not subscribed to: afterwards we are subscribed to it, every
/// other topic stays as it was, and each connected peer, in order, is sent an RPC announcing the
/// subscription, after the actions already pending.
pub proof fn law_subscribe_adds_and_announces(m: ChatModel, t: Seq<char>)
    requires
        !m.subscribed_topics.contains(t),
    ensures
        ({
            let r = spec_subscribe(m, t);
            let keys = peer_keys(m.connected_peers);
            &&& r.subscribed_topics.contains(t)
            &&& forall|u: Seq<char>| u != t ==> (#[trigger] r.subscribed_topics.contains(u)
                <==> m.subscribed_topics.contains(u))
            &&& r.events.len() == m.events.len() + keys.len()
            &&& r.events.take(m.events.len() as int) == m.events
            &&& forall|k: int|
                0 <= k < keys.len() ==> r.events[m.events.len() + k] == ActionModel::Notify(
                    #[trigger] keys[k],
                    change_rpc(t, ChatSubscriptionAction::Subscribe),
                )
        }),
{
    let r = spec_subscribe(m, t);
    let keys = peer_keys(m.connected_peers);
    assert(r.subscribed_topics[m.subscribed_topics.len() as int] == t);
    assert forall|u: Seq<char>| u != t implies (#[trigger] r.subscribed_topics.contains(u)
        <==> m.subscribed_topics.contains(u)) by {
        if m.subscribed_topics.contains(u) {
            let k = choose|k: int| 0 <= k < m.subscribed_topics.len() && m.subscribed_topics[k] == u;
            assert(r.subscribed_topics[k] == u);
        }
        if r.subscribed_topics.contains(u) {
            let k = choose|k: int| 0 <= k < r.subscribed_topics.len() && r.subscribed_topics[k] == u;
            assert(k < m.subscribed_topics.len());
            assert(m.subscribed_topics[k] == u);
        }
    }
    assert(r.events.take(m.events.len() as int) =~= m.events);
    assert forall|k: int| 0 <= k < keys.len() implies r.events[m.events.len() + k]
        == ActionModel::Notify(#[trigger] keys[k], change_rpc(t, ChatSubscriptionAction::Subscribe)) by {
        assert(change_rpc(t, ChatSubscriptionAction::Subscribe)
            =~= crate::layer::subscription_rpc(t, ChatSubscriptionAction::Subscribe));
    }
}

} // verus!
