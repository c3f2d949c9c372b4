//! The outside collections that the chat behaviour keeps its state in, and the source of
//! randomness for sequence numbers.
use vstd::prelude::*;
use std::collections::hash_map::DefaultHasher;
use smallvec::SmallVec;
use cuckoofilter::{CuckooError, CuckooFilter};
use crate::protocol::{ChatMessage, ChatMessageModel};
use crate::topic::Topic;

verus! {

#[verifier::external_type_specification]
#[verifier::external_body]
#[verifier::reject_recursive_types(H)]
pub struct ExCuckooFilter<H>(CuckooFilter<H>);

#[verifier::external_type_specification]
#[verifier::external_body]
pub struct ExCuckooError(CuckooError);

/// A short list of topics, kept inline in a `SmallVec`.
#[verifier::external_body]
pub struct TopicList {
    list: SmallVec<[Topic; 16]>,
}

/// The ids of the topics that a `TopicList` holds, in order.
pub uninterp spec fn topic_list(v: TopicList) -> Seq<Seq<char>>;

/// `SmallVec::new`: an empty list.
#[verifier::external_body]
pub fn topic_list_new() -> (r: TopicList)
    ensures
        topic_list(r) == Seq::<Seq<char>>::empty(),
{
    TopicList { list: SmallVec::new() }
}

/// `SmallVec::len`: the number of topics in the list.
#[verifier::external_body]
pub fn topic_list_len(v: &TopicList) -> (r: usize)
    ensures
        r == topic_list(*v).len(),
{
    v.list.len()
}

/// Indexing a `SmallVec`: the topic at position `i`.
#[verifier::external_body]
pub fn topic_list_get(v: &TopicList, i: usize) -> (r: &Topic)
    requires
        i < topic_list(*v).len(),
    ensures
        r@ == topic_list(*v)[i as int],
{
    &v.list[i]
}

/// `SmallVec::push`: appends a topic at the end.
#[verifier::external_body]
pub fn topic_list_push(v: &mut TopicList, t: Topic)
    ensures
        topic_list(*final(v)) == topic_list(*old(v)).push(t@),
{
    v.list.push(t)
}

/// `SmallVec::remove`: takes out the topic at position `i`, shifting the later ones down.
#[verifier::external_body]
pub fn topic_list_remove(v: &mut TopicList, i: usize) -> (r: Topic)
    requires
        i < topic_list(*old(v)).len(),
    ensures
        r@ == topic_list(*old(v))[i as int],
        topic_list(*final(v)) == topic_list(*old(v)).remove(i as int),
{
    v.list.remove(i)
}

/// The messages that a filter reports as present: those whose fingerprint lies in one of the two
/// buckets that their hash picks. The hash of a message depends on its fields alone, so this is
/// a set of message values.
pub uninterp spec fn received_reports(f: CuckooFilter<DefaultHasher>) -> Set<ChatMessageModel>;

/// `CuckooFilter::new`: a filter whose buckets hold only the empty fingerprint, which no
/// message has, so it reports no message.
#[verifier::external_body]
pub fn received_filter_new() -> (r: CuckooFilter<DefaultHasher>)
    ensures
        received_reports(r) == Set::<ChatMessageModel>::empty(),
{
    CuckooFilter::new()
}

/// `CuckooFilter::add`: records `message`. On `Ok` no fingerprint was dropped, each one moved
/// stays within its own pair of buckets, and the message's fingerprint was stored in one of
/// its buckets: everything reported before still is, and the message is too. On `Err` a
/// randomly chosen fingerprint, possibly the message's own, was dropped: nothing is stated.
#[verifier::external_body]
pub fn received_filter_add(f: &mut CuckooFilter<DefaultHasher>, message: &ChatMessage) -> (r:
    Result<(), CuckooError>)
    ensures
        r is Ok ==> received_reports(*old(f)).subset_of(received_reports(*final(f)))
            && received_reports(*final(f)).contains(message@),
{
    f.add(message)
}

/// `CuckooFilter::test_and_add`: `Ok(false)` exactly when the filter already reports `message`,
/// in which case the filter is left as it was; otherwise `add` is called, with what it states.
/// Whether the filter reports a message it never saw (a false positive) is not stated.
#[verifier::external_body]
pub fn received_filter_test_and_add(
    f: &mut CuckooFilter<DefaultHasher>,
    message: &ChatMessage,
) -> (r: Result<bool, CuckooError>)
    ensures
        (r matches Ok(false)) <==> received_reports(*old(f)).contains(message@),
        r matches Ok(false) ==> *final(f) == *old(f),
        r is Ok ==> received_reports(*old(f)).subset_of(received_reports(*final(f)))
            && received_reports(*final(f)).contains(message@),
{
    f.test_and_add(message)
}

/// `rand::random::<[u8; 20]>()`: twenty random bytes.
#[verifier::external_body]
pub fn random_sequence_number() -> (r: Vec<u8>)
    ensures
        r@.len() == 20,
{
    rand::random::<[u8; 20]>().to_vec()
}

} // verus!
