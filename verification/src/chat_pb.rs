//! The protobuf messages of the chat protocol and their wire encoding.
//!
//! ```text
//! message RPC {
//!   repeated SubOpts subscriptions = 1;   // SubOpts { optional bool subscribe = 1; optional string topic_id = 2; }
//!   repeated Message publish = 2;
//! }
//! message Message {
//!   optional bytes from_peer_id = 1; optional string from_name = 2; optional string to_name = 3;
//!   optional bytes data = 4; optional bytes seqno = 5; repeated string topic_ids = 6;
//! }
//! ```
use vstd::prelude::*;
use vstd::slice::{slice_subrange, slice_to_vec};
use vstd::utf8::{decode_utf8, encode_utf8, valid_utf8};
use crate::varint::{decode_varint, encode_varint, spec_decode_varint, spec_encode_varint};
use crate::wire::{
    decode_key, decode_length_delimited, encode_key, encode_payload, spec_encode_key,
    spec_encode_payload, MAX_TAG, lemma_key_len, lemma_length_delimited_len,
    lemma_skip_len, lemma_varint_len, skip_field, spec_decode_key, spec_length_delimited,
    spec_skip_field, text_from_utf8, DecodeErrorKind, WireType, RECURSION_LIMIT,
};

verus! {

/// A subscription change as it travels on the wire.
#[derive(Debug, Clone, PartialEq, Eq, Default)]
pub struct SubOpts {
    pub subscribe: Option<bool>,
    pub topic_id: Option<String>,
}

/// A published message as it travels on the wire.
#[derive(Debug, Clone, PartialEq, Eq, Default)]
pub struct Message {
    pub from_peer_id: Option<Vec<u8>>,
    pub from_name: Option<String>,
    pub to_name: Option<String>,
    pub data: Option<Vec<u8>>,
    pub seqno: Option<Vec<u8>>,
    pub topic_ids: Vec<String>,
}

/// One exchange of the chat protocol: subscription changes and published messages.
#[derive(Debug, Clone, PartialEq, Eq, Default)]
pub struct Rpc {
    pub subscriptions: Vec<SubOpts>,
    pub publish: Vec<Message>,
}

/// What a `SubOpts` holds.
#[verifier::ext_equal]
pub struct SubOptsModel {
    pub subscribe: Option<bool>,
    pub topic_id: Option<Seq<char>>,
}

/// What a `Message` holds.
#[verifier::ext_equal]
pub struct MessageModel {
    pub from_peer_id: Option<Seq<u8>>,
    pub from_name: Option<Seq<char>>,
    pub to_name: Option<Seq<char>>,
    pub data: Option<Seq<u8>>,
    pub seqno: Option<Seq<u8>>,
    pub topic_ids: Seq<Seq<char>>,
}

/// What an `Rpc` holds.
#[verifier::ext_equal]
pub struct RpcModel {
    pub subscriptions: Seq<SubOptsModel>,
    pub publish: Seq<MessageModel>,
}

pub open spec fn text_view(o: Option<String>) -> Option<Seq<char>> {
    match o {
        Some(s) => Some(s@),
        None => None,
    }
}

pub open spec fn bytes_view(o: Option<Vec<u8>>) -> Option<Seq<u8>> {
    match o {
        Some(v) => Some(v@),
        None => None,
    }
}

pub open spec fn texts_view(v: Seq<String>) -> Seq<Seq<char>> {
    v.map_values(|s: String| s@)
}

impl View for SubOpts {
    type V = SubOptsModel;

    open spec fn view(&self) -> SubOptsModel {
        SubOptsModel { subscribe: self.subscribe, topic_id: text_view(self.topic_id) }
    }
}

impl View for Message {
    type V = MessageModel;

    open spec fn view(&self) -> MessageModel {
        MessageModel {
            from_peer_id: bytes_view(self.from_peer_id),
            from_name: text_view(self.from_name),
            to_name: text_view(self.to_name),
            data: bytes_view(self.data),
            seqno: bytes_view(self.seqno),
            topic_ids: texts_view(self.topic_ids@),
        }
    }
}

impl View for Rpc {
    type V = RpcModel;

    open spec fn view(&self) -> RpcModel {
        RpcModel {
            subscriptions: self.subscriptions@.map_values(|s: SubOpts| s@),
            publish: self.publish@.map_values(|m: Message| m@),
        }
    }
}

pub open spec fn empty_subopts() -> SubOptsModel {
    SubOptsModel { subscribe: None, topic_id: None }
}

pub open spec fn empty_message() -> MessageModel {
    MessageModel {
        from_peer_id: None,
        from_name: None,
        to_name: None,
        data: None,
        seqno: None,
        topic_ids: Seq::empty(),
    }
}

pub open spec fn empty_rpc() -> RpcModel {
    RpcModel { subscriptions: Seq::empty(), publish: Seq::empty() }
}

// ---------------------------------------------------------------------------------------------
// Decoding, as functions on the bytes.
/// The payload of a length-delimited field at the start of `s` and the bytes it takes.
pub open spec fn spec_bytes_field(s: Seq<u8>, w: WireType) -> Result<
    (Seq<u8>, nat),
    DecodeErrorKind,
> {
    if w != WireType::LengthDelimited {
        Err(DecodeErrorKind::WireTypeMismatch)
    } else {
        match spec_length_delimited(s) {
            Err(e) => Err(e),
            Ok((n, l)) => Ok((s.subrange(n as int, (n + l) as int), n + l)),
        }
    }
}

/// The UTF-8 text of a length-delimited field at the start of `s` and the bytes it takes.
pub open spec fn spec_text_field(s: Seq<u8>, w: WireType) -> Result<
    (Seq<char>, nat),
    DecodeErrorKind,
> {
    match spec_bytes_field(s, w) {
        Err(e) => Err(e),
        Ok((b, m)) => if valid_utf8(b) {
            Ok((decode_utf8(b), m))
        } else {
            Err(DecodeErrorKind::InvalidUtf8)
        },
    }
}

/// The boolean of a varint field at the start of `s` and the bytes it takes.
pub open spec fn spec_bool_field(s: Seq<u8>, w: WireType) -> Result<(bool, nat), DecodeErrorKind> {
    if w != WireType::Varint {
        Err(DecodeErrorKind::WireTypeMismatch)
    } else {
        match spec_decode_varint(s) {
            None => Err(DecodeErrorKind::InvalidVarint),
            Some((v, n)) => Ok((v != 0, n)),
        }
    }
}

/// The payload of an embedded message at the start of `s` and the bytes it takes; `budget` is
/// how many more levels may nest.
pub open spec fn spec_embedded(s: Seq<u8>, w: WireType, budget: nat) -> Result<
    (Seq<u8>, nat),
    DecodeErrorKind,
> {
    if w != WireType::LengthDelimited {
        Err(DecodeErrorKind::WireTypeMismatch)
    } else if budget == 0 {
        Err(DecodeErrorKind::RecursionLimit)
    } else {
        spec_bytes_field(s, w)
    }
}

/// Merges the value of one field (tag `tag`, wire type `w`) at the start of `s` into `acc`.
pub open spec fn spec_subopts_field(
    s: Seq<u8>,
    tag: u32,
    w: WireType,
    acc: SubOptsModel,
    budget: nat,
) -> Result<(SubOptsModel, nat), DecodeErrorKind> {
    if tag == 1 {
        match spec_bool_field(s, w) {
            Err(e) => Err(e),
            Ok((b, m)) => Ok((SubOptsModel { subscribe: Some(b), ..acc }, m)),
        }
    } else if tag == 2 {
        match spec_text_field(s, w) {
            Err(e) => Err(e),
            Ok((t, m)) => Ok((SubOptsModel { topic_id: Some(t), ..acc }, m)),
        }
    } else {
        match spec_skip_field(s, w, tag, budget) {
            Err(e) => Err(e),
            Ok(m) => Ok((acc, m)),
        }
    }
}

/// Merges the value of one field (tag `tag`, wire type `w`) at the start of `s` into `acc`.
pub open spec fn spec_message_field(
    s: Seq<u8>,
    tag: u32,
    w: WireType,
    acc: MessageModel,
    budget: nat,
) -> Result<(MessageModel, nat), DecodeErrorKind> {
    if tag == 1 {
        match spec_bytes_field(s, w) {
            Err(e) => Err(e),
            Ok((b, m)) => Ok((MessageModel { from_peer_id: Some(b), ..acc }, m)),
        }
    } else if tag == 2 {
        match spec_text_field(s, w) {
            Err(e) => Err(e),
            Ok((t, m)) => Ok((MessageModel { from_name: Some(t), ..acc }, m)),
        }
    } else if tag == 3 {
        match spec_text_field(s, w) {
            Err(e) => Err(e),
            Ok((t, m)) => Ok((MessageModel { to_name: Some(t), ..acc }, m)),
        }
    } else if tag == 4 {
        match spec_bytes_field(s, w) {
            Err(e) => Err(e),
            Ok((b, m)) => Ok((MessageModel { data: Some(b), ..acc }, m)),
        }
    } else if tag == 5 {
        match spec_bytes_field(s, w) {
            Err(e) => Err(e),
            Ok((b, m)) => Ok((MessageModel { seqno: Some(b), ..acc }, m)),
        }
    } else if tag == 6 {
        match spec_text_field(s, w) {
            Err(e) => Err(e),
            Ok((t, m)) => Ok((MessageModel { topic_ids: acc.topic_ids.push(t), ..acc }, m)),
        }
    } else {
        match spec_skip_field(s, w, tag, budget) {
            Err(e) => Err(e),
            Ok(m) => Ok((acc, m)),
        }
    }
}

pub proof fn lemma_bytes_field_len(s: Seq<u8>, w: WireType)
    ensures
        spec_bytes_field(s, w) matches Ok((b, m)) ==> m <= s.len() && b == s.subrange(
            m - b.len(),
            m as int,
        ),
        spec_text_field(s, w) matches Ok((_, m)) ==> m <= s.len(),
        spec_bool_field(s, w) matches Ok((_, m)) ==> m <= s.len(),
{
    lemma_length_delimited_len(s);
    lemma_varint_len(s);
}

pub proof fn lemma_subopts_field_len(s: Seq<u8>, tag: u32, w: WireType, acc: SubOptsModel, budget: nat)
    ensures
        spec_subopts_field(s, tag, w, acc, budget) matches Ok((_, m)) ==> m <= s.len(),
{
    lemma_bytes_field_len(s, w);
    lemma_skip_len(s, w, tag, budget);
}

pub proof fn lemma_message_field_len(
    s: Seq<u8>,
    tag: u32,
    w: WireType,
    acc: MessageModel,
    budget: nat,
)
    ensures
        spec_message_field(s, tag, w, acc, budget) matches Ok((_, m)) ==> m <= s.len(),
{
    lemma_bytes_field_len(s, w);
    lemma_skip_len(s, w, tag, budget);
}

/// Decodes the fields of a `SubOpts` that fill all of `s`, merging them into `acc` in order.
pub open spec fn spec_subopts_fields(s: Seq<u8>, acc: SubOptsModel, budget: nat) -> Result<
    SubOptsModel,
    DecodeErrorKind,
>
    decreases s.len(),
{
    if s.len() == 0 {
        Ok(acc)
    } else {
        match spec_decode_key(s) {
            Err(e) => Err(e),
            Ok((tag, w, k)) => {
                proof {
                    lemma_key_len(s);
                }
                match spec_subopts_field(s.skip(k as int), tag, w, acc, budget) {
                    Err(e) => Err(e),
                    Ok((next, m)) => {
                        proof {
                            lemma_subopts_field_len(s.skip(k as int), tag, w, acc, budget);
                        }
                        spec_subopts_fields(s.skip((k + m) as int), next, budget)
                    },
                }
            },
        }
    }
}

/// Decodes the fields of a `Message` that fill all of `s`, merging them into `acc` in order.
pub open spec fn spec_message_fields(s: Seq<u8>, acc: MessageModel, budget: nat) -> Result<
    MessageModel,
    DecodeErrorKind,
>
    decreases s.len(),
{
    if s.len() == 0 {
        Ok(acc)
    } else {
        match spec_decode_key(s) {
            Err(e) => Err(e),
            Ok((tag, w, k)) => {
                proof {
                    lemma_key_len(s);
                }
                match spec_message_field(s.skip(k as int), tag, w, acc, budget) {
                    Err(e) => Err(e),
                    Ok((next, m)) => {
                        proof {
                            lemma_message_field_len(s.skip(k as int), tag, w, acc, budget);
                        }
                        spec_message_fields(s.skip((k + m) as int), next, budget)
                    },
                }
            },
        }
    }
}

/// Merges the value of one field of an `Rpc` at the start of `s` into `acc`.
pub open spec fn spec_rpc_field(s: Seq<u8>, tag: u32, w: WireType, acc: RpcModel, budget: nat) -> Result<
    (RpcModel, nat),
    DecodeErrorKind,
> {
    if tag == 1 {
        match spec_embedded(s, w, budget) {
            Err(e) => Err(e),
            Ok((p, m)) => match spec_subopts_fields(p, empty_subopts(), (budget - 1) as nat) {
                Err(e) => Err(e),
                Ok(sub) => Ok((RpcModel { subscriptions: acc.subscriptions.push(sub), ..acc }, m)),
            },
        }
    } else if tag == 2 {
        match spec_embedded(s, w, budget) {
            Err(e) => Err(e),
            Ok((p, m)) => match spec_message_fields(p, empty_message(), (budget - 1) as nat) {
                Err(e) => Err(e),
                Ok(msg) => Ok((RpcModel { publish: acc.publish.push(msg), ..acc }, m)),
            },
        }
    } else {
        match spec_skip_field(s, w, tag, budget) {
            Err(e) => Err(e),
            Ok(m) => Ok((acc, m)),
        }
    }
}

pub proof fn lemma_rpc_field_len(s: Seq<u8>, tag: u32, w: WireType, acc: RpcModel, budget: nat)
    ensures
        spec_rpc_field(s, tag, w, acc, budget) matches Ok((_, m)) ==> m <= s.len(),
{
    lemma_bytes_field_len(s, w);
    lemma_skip_len(s, w, tag, budget);
}

/// Decodes the fields of an `Rpc` that fill all of `s`, merging them into `acc` in order.
pub open spec fn spec_rpc_fields(s: Seq<u8>, acc: RpcModel, budget: nat) -> Result<
    RpcModel,
    DecodeErrorKind,
>
    decreases s.len(),
{
    if s.len() == 0 {
        Ok(acc)
    } else {
        match spec_decode_key(s) {
            Err(e) => Err(e),
            Ok((tag, w, k)) => {
                proof {
                    lemma_key_len(s);
                }
                match spec_rpc_field(s.skip(k as int), tag, w, acc, budget) {
                    Err(e) => Err(e),
                    Ok((next, m)) => {
                        proof {
                            lemma_rpc_field_len(s.skip(k as int), tag, w, acc, budget);
                        }
                        spec_rpc_fields(s.skip((k + m) as int), next, budget)
                    },
                }
            },
        }
    }
}

/// Decodes a whole buffer as an `Rpc`.
pub open spec fn spec_decode_rpc(s: Seq<u8>) -> Result<RpcModel, DecodeErrorKind> {
    spec_rpc_fields(s, empty_rpc(), RECURSION_LIMIT as nat)
}

// ---------------------------------------------------------------------------------------------
// Decoding, executable.
/// The payload of a length-delimited field at `buf[pos..end]` and the bytes it takes.
fn decode_bytes_field(buf: &[u8], pos: usize, end: usize, w: WireType) -> (r: Result<
    (Vec<u8>, usize),
    DecodeErrorKind,
>)
    requires
        pos <= end <= buf@.len(),
    ensures
        match (r, spec_bytes_field(buf@.subrange(pos as int, end as int), w)) {
            (Ok((b, m)), Ok((sb, sm))) => b@ == sb && m == sm && pos + m <= end,
            (Err(e), Err(se)) => e == se,
            _ => false,
        },
{
    if w != WireType::LengthDelimited {
        return Err(DecodeErrorKind::WireTypeMismatch);
    }
    match decode_length_delimited(buf, pos, end) {
        Err(e) => Err(e),
        Ok((n, l)) => {
            let part = slice_subrange(buf, pos + n, pos + n + l);
            let v = slice_to_vec(part);
            assert(v@ =~= buf@.subrange(pos as int, end as int).subrange(n as int, (n + l) as int));
            Ok((v, n + l))
        },
    }
}

/// The UTF-8 text of a length-delimited field at `buf[pos..end]` and the bytes it takes.
fn decode_text_field(buf: &[u8], pos: usize, end: usize, w: WireType) -> (r: Result<
    (String, usize),
    DecodeErrorKind,
>)
    requires
        pos <= end <= buf@.len(),
    ensures
        match (r, spec_text_field(buf@.subrange(pos as int, end as int), w)) {
            (Ok((t, m)), Ok((st, sm))) => t@ == st && m == sm && pos + m <= end,
            (Err(e), Err(se)) => e == se,
            _ => false,
        },
{
    match decode_bytes_field(buf, pos, end, w) {
        Err(e) => Err(e),
        Ok((b, m)) => match text_from_utf8(b.as_slice()) {
            None => Err(DecodeErrorKind::InvalidUtf8),
            Some(t) => Ok((t, m)),
        },
    }
}

/// The boolean of a varint field at `buf[pos..end]` and the bytes it takes.
fn decode_bool_field(buf: &[u8], pos: usize, end: usize, w: WireType) -> (r: Result<
    (bool, usize),
    DecodeErrorKind,
>)
    requires
        pos <= end <= buf@.len(),
    ensures
        match (r, spec_bool_field(buf@.subrange(pos as int, end as int), w)) {
            (Ok((b, m)), Ok((sb, sm))) => b == sb && m == sm && pos + m <= end,
            (Err(e), Err(se)) => e == se,
            _ => false,
        },
{
    if w != WireType::Varint {
        return Err(DecodeErrorKind::WireTypeMismatch);
    }
    proof {
        lemma_varint_len(buf@.subrange(pos as int, end as int));
    }
    match decode_varint(buf, pos, end) {
        None => Err(DecodeErrorKind::InvalidVarint),
        Some((v, n)) => Ok((v != 0, n)),
    }
}

/// Merges the value of one field of a `SubOpts` at `buf[pos..end]` into `acc`.
fn subopts_field(
    buf: &[u8],
    pos: usize,
    end: usize,
    tag: u32,
    w: WireType,
    acc: &mut SubOpts,
    budget: u32,
) -> (r: Result<usize, DecodeErrorKind>)
    requires
        pos <= end <= buf@.len(),
    ensures
        match (r, spec_subopts_field(
            buf@.subrange(pos as int, end as int),
            tag,
            w,
            old(acc)@,
            budget as nat,
        )) {
            (Ok(m), Ok((sa, sm))) => final(acc)@ == sa && m == sm && pos + m <= end,
            (Err(e), Err(se)) => e == se,
            _ => false,
        },
{
    if tag == 1 {
        match decode_bool_field(buf, pos, end, w) {
            Err(e) => Err(e),
            Ok((b, n)) => {
                acc.subscribe = Some(b);
                Ok(n)
            },
        }
    } else if tag == 2 {
        match decode_text_field(buf, pos, end, w) {
            Err(e) => Err(e),
            Ok((t, n)) => {
                acc.topic_id = Some(t);
                Ok(n)
            },
        }
    } else {
        skip_field(buf, pos, end, w, tag, budget)
    }
}

/// Merges the value of one field of a `Message` at `buf[pos..end]` into `acc`.
fn message_field(
    buf: &[u8],
    pos: usize,
    end: usize,
    tag: u32,
    w: WireType,
    acc: &mut Message,
    budget: u32,
) -> (r: Result<usize, DecodeErrorKind>)
    requires
        pos <= end <= buf@.len(),
    ensures
        match (r, spec_message_field(
            buf@.subrange(pos as int, end as int),
            tag,
            w,
            old(acc)@,
            budget as nat,
        )) {
            (Ok(m), Ok((sa, sm))) => final(acc)@ == sa && m == sm && pos + m <= end,
            (Err(e), Err(se)) => e == se,
            _ => false,
        },
{
    if tag == 1 || tag == 4 || tag == 5 {
        match decode_bytes_field(buf, pos, end, w) {
            Err(e) => Err(e),
            Ok((b, n)) => {
                if tag == 1 {
                    acc.from_peer_id = Some(b);
                } else if tag == 4 {
                    acc.data = Some(b);
                } else {
                    acc.seqno = Some(b);
                }
                Ok(n)
            },
        }
    } else if tag == 2 || tag == 3 || tag == 6 {
        match decode_text_field(buf, pos, end, w) {
            Err(e) => Err(e),
            Ok((t, n)) => {
                if tag == 2 {
                    acc.from_name = Some(t);
                } else if tag == 3 {
                    acc.to_name = Some(t);
                } else {
                    let ghost before = acc.topic_ids@;
                    acc.topic_ids.push(t);
                    proof {
                        assert(texts_view(acc.topic_ids@) =~= texts_view(before).push(t@));
                    }
                }
                Ok(n)
            },
        }
    } else {
        skip_field(buf, pos, end, w, tag, budget)
    }
}

/// Decodes the fields of a `SubOpts` that fill `buf[start..end]`.
fn decode_subopts(buf: &[u8], start: usize, end: usize, budget: u32) -> (r: Result<
    SubOpts,
    DecodeErrorKind,
>)
    requires
        start <= end <= buf@.len(),
    ensures
        match (r, spec_subopts_fields(
            buf@.subrange(start as int, end as int),
            empty_subopts(),
            budget as nat,
        )) {
            (Ok(m), Ok(sm)) => m@ == sm,
            (Err(e), Err(se)) => e == se,
            _ => false,
        },
{
    let ghost target = spec_subopts_fields(
        buf@.subrange(start as int, end as int),
        empty_subopts(),
        budget as nat,
    );
    let mut acc = SubOpts { subscribe: None, topic_id: None };
    let mut pos = start;
    while pos < end
        invariant
            start <= pos <= end <= buf@.len(),
            spec_subopts_fields(buf@.subrange(pos as int, end as int), acc@, budget as nat)
                == target,
            target == spec_subopts_fields(
                buf@.subrange(start as int, end as int),
                empty_subopts(),
                budget as nat,
            ),
        decreases end - pos,
    {
        let ghost s = buf@.subrange(pos as int, end as int);
        let ghost old_acc = acc@;
        assert(s.len() == end - pos);
        let (tag, w, k) = match decode_key(buf, pos, end) {
            Err(e) => return Err(e),
            Ok(x) => x,
        };
        proof {
            lemma_key_len(s);
            assert(s.skip(k as int) =~= buf@.subrange(pos + k, end as int));
        }
        let m = match subopts_field(buf, pos + k, end, tag, w, &mut acc, budget) {
            Err(e) => return Err(e),
            Ok(m) => m,
        };
        proof {
            assert(s.skip((k + m) as int) =~= buf@.subrange(pos + k + m, end as int));
        }
        pos = pos + k + m;
    }
    Ok(acc)
}

/// Decodes the fields of a `Message` that fill `buf[start..end]`.
fn decode_message(buf: &[u8], start: usize, end: usize, budget: u32) -> (r: Result<
    Message,
    DecodeErrorKind,
>)
    requires
        start <= end <= buf@.len(),
    ensures
        match (r, spec_message_fields(
            buf@.subrange(start as int, end as int),
            empty_message(),
            budget as nat,
        )) {
            (Ok(m), Ok(sm)) => m@ == sm,
            (Err(e), Err(se)) => e == se,
            _ => false,
        },
{
    let ghost target = spec_message_fields(
        buf@.subrange(start as int, end as int),
        empty_message(),
        budget as nat,
    );
    let mut acc = Message {
        from_peer_id: None,
        from_name: None,
        to_name: None,
        data: None,
        seqno: None,
        topic_ids: Vec::new(),
    };
    proof {
        assert(acc@ =~= empty_message());
    }
    let mut pos = start;
    while pos < end
        invariant
            start <= pos <= end <= buf@.len(),
            spec_message_fields(buf@.subrange(pos as int, end as int), acc@, budget as nat)
                == target,
            target == spec_message_fields(
                buf@.subrange(start as int, end as int),
                empty_message(),
                budget as nat,
            ),
        decreases end - pos,
    {
        let ghost s = buf@.subrange(pos as int, end as int);
        assert(s.len() == end - pos);
        let (tag, w, k) = match decode_key(buf, pos, end) {
            Err(e) => return Err(e),
            Ok(x) => x,
        };
        proof {
            lemma_key_len(s);
            assert(s.skip(k as int) =~= buf@.subrange(pos + k, end as int));
        }
        let m = match message_field(buf, pos + k, end, tag, w, &mut acc, budget) {
            Err(e) => return Err(e),
            Ok(m) => m,
        };
        proof {
            assert(s.skip((k + m) as int) =~= buf@.subrange(pos + k + m, end as int));
        }
        pos = pos + k + m;
    }
    Ok(acc)
}

/// Merges the value of one field of an `Rpc` at `buf[pos..end]` into `acc`.
fn rpc_field(
    buf: &[u8],
    pos: usize,
    end: usize,
    tag: u32,
    w: WireType,
    acc: &mut Rpc,
    budget: u32,
) -> (r: Result<usize, DecodeErrorKind>)
    requires
        pos <= end <= buf@.len(),
    ensures
        match (r, spec_rpc_field(
            buf@.subrange(pos as int, end as int),
            tag,
            w,
            old(acc)@,
            budget as nat,
        )) {
            (Ok(m), Ok((sa, sm))) => final(acc)@ == sa && m == sm && pos + m <= end,
            (Err(e), Err(se)) => e == se,
            _ => false,
        },
{
    let ghost s = buf@.subrange(pos as int, end as int);
    if tag == 1 || tag == 2 {
        if w != WireType::LengthDelimited {
            return Err(DecodeErrorKind::WireTypeMismatch);
        }
        if budget == 0 {
            return Err(DecodeErrorKind::RecursionLimit);
        }
        match decode_length_delimited(buf, pos, end) {
            Err(e) => Err(e),
            Ok((n, l)) => {
                let a = pos + n;
                proof {
                    assert(buf@.subrange(a as int, (a + l) as int) =~= s.subrange(
                        n as int,
                        (n + l) as int,
                    ));
                }
                if tag == 1 {
                    match decode_subopts(buf, a, a + l, budget - 1) {
                        Err(e) => Err(e),
                        Ok(sub) => {
                            let ghost before = acc.subscriptions@;
                            acc.subscriptions.push(sub);
                            proof {
                                assert(acc.subscriptions@.map_values(|x: SubOpts| x@)
                                    =~= before.map_values(|x: SubOpts| x@).push(sub@));
                            }
                            Ok(n + l)
                        },
                    }
                } else {
                    match decode_message(buf, a, a + l, budget - 1) {
                        Err(e) => Err(e),
                        Ok(msg) => {
                            let ghost before = acc.publish@;
                            acc.publish.push(msg);
                            proof {
                                assert(acc.publish@.map_values(|x: Message| x@)
                                    =~= before.map_values(|x: Message| x@).push(msg@));
                            }
                            Ok(n + l)
                        },
                    }
                }
            },
        }
    } else {
        skip_field(buf, pos, end, w, tag, budget)
    }
}

/// Decodes a whole buffer as an `Rpc`.
pub fn decode_rpc(buf: &[u8]) -> (r: Result<Rpc, DecodeErrorKind>)
    ensures
        match (r, spec_decode_rpc(buf@)) {
            (Ok(m), Ok(sm)) => m@ == sm,
            (Err(e), Err(se)) => e == se,
            _ => false,
        },
{
    let end = buf.len();
    let budget = RECURSION_LIMIT;
    let ghost target = spec_decode_rpc(buf@);
    let mut acc = Rpc { subscriptions: Vec::new(), publish: Vec::new() };
    proof {
        assert(acc@ =~= empty_rpc());
        assert(buf@.subrange(0, end as int) =~= buf@);
    }
    let mut pos: usize = 0;
    while pos < end
        invariant
            pos <= end == buf@.len(),
            budget == RECURSION_LIMIT,
            spec_rpc_fields(buf@.subrange(pos as int, end as int), acc@, budget as nat) == target,
            target == spec_decode_rpc(buf@),
        decreases end - pos,
    {
        let ghost s = buf@.subrange(pos as int, end as int);
        assert(s.len() == end - pos);
        let (tag, w, k) = match decode_key(buf, pos, end) {
            Err(e) => return Err(e),
            Ok(x) => x,
        };
        proof {
            lemma_key_len(s);
            assert(s.skip(k as int) =~= buf@.subrange(pos + k, end as int));
        }
        let m = match rpc_field(buf, pos + k, end, tag, w, &mut acc, budget) {
            Err(e) => return Err(e),
            Ok(m) => m,
        };
        proof {
            assert(s.skip((k + m) as int) =~= buf@.subrange(pos + k + m, end as int));
        }
        pos = pos + k + m;
    }
    Ok(acc)
}

// ---------------------------------------------------------------------------------------------
// Encoding.
/// A length-delimited field: its key, then the length of `payload`, then `payload`.
pub open spec fn spec_encode_ld(tag: nat, payload: Seq<u8>) -> Seq<u8> {
    spec_encode_key(tag, WireType::LengthDelimited) + spec_encode_payload(payload)
}

pub open spec fn spec_encode_opt_bytes(tag: nat, o: Option<Seq<u8>>) -> Seq<u8> {
    match o {
        Some(b) => spec_encode_ld(tag, b),
        None => Seq::empty(),
    }
}

pub open spec fn spec_encode_opt_text(tag: nat, o: Option<Seq<char>>) -> Seq<u8> {
    match o {
        Some(t) => spec_encode_ld(tag, encode_utf8(t)),
        None => Seq::empty(),
    }
}

/// One length-delimited field per text of `ts`, in order.
pub open spec fn spec_encode_texts(tag: nat, ts: Seq<Seq<char>>) -> Seq<u8>
    decreases ts.len(),
{
    if ts.len() == 0 {
        Seq::empty()
    } else {
        spec_encode_texts(tag, ts.drop_last()) + spec_encode_ld(tag, encode_utf8(ts.last()))
    }
}

pub open spec fn spec_encode_opt_bool(tag: nat, o: Option<bool>) -> Seq<u8> {
    match o {
        Some(b) => spec_encode_key(tag, WireType::Varint) + spec_encode_varint(
            if b {
                1
            } else {
                0
            },
        ),
        None => Seq::empty(),
    }
}

/// The fields of a `SubOpts`, in tag order; absent fields take no bytes.
pub open spec fn spec_encode_subopts(m: SubOptsModel) -> Seq<u8> {
    spec_encode_opt_bool(1, m.subscribe) + spec_encode_opt_text(2, m.topic_id)
}

/// The fields of a `Message`, in tag order; absent fields take no bytes.
pub open spec fn spec_encode_message(m: MessageModel) -> Seq<u8> {
    spec_encode_opt_bytes(1, m.from_peer_id) + spec_encode_opt_text(2, m.from_name)
        + spec_encode_opt_text(3, m.to_name) + spec_encode_opt_bytes(4, m.data)
        + spec_encode_opt_bytes(5, m.seqno) + spec_encode_texts(6, m.topic_ids)
}

pub open spec fn spec_encode_subopts_list(xs: Seq<SubOptsModel>) -> Seq<u8>
    decreases xs.len(),
{
    if xs.len() == 0 {
        Seq::empty()
    } else {
        spec_encode_subopts_list(xs.drop_last()) + spec_encode_ld(
            1,
            spec_encode_subopts(xs.last()),
        )
    }
}

pub open spec fn spec_encode_message_list(xs: Seq<MessageModel>) -> Seq<u8>
    decreases xs.len(),
{
    if xs.len() == 0 {
        Seq::empty()
    } else {
        spec_encode_message_list(xs.drop_last()) + spec_encode_ld(
            2,
            spec_encode_message(xs.last()),
        )
    }
}

/// The encoding of an `Rpc`: all subscription changes, then all published messages.
pub open spec fn spec_encode_rpc(r: RpcModel) -> Seq<u8> {
    spec_encode_subopts_list(r.subscriptions) + spec_encode_message_list(r.publish)
}

fn encode_ld(tag: u32, payload: &[u8], out: &mut Vec<u8>)
    requires
        1 <= tag <= MAX_TAG,
    ensures
        final(out)@ == old(out)@ + spec_encode_ld(tag as nat, payload@),
{
    encode_key(tag, WireType::LengthDelimited, out);
    encode_payload(payload, out);
    assert(final(out)@ =~= old(out)@ + spec_encode_ld(tag as nat, payload@));
}

fn encode_opt_bytes(tag: u32, o: &Option<Vec<u8>>, out: &mut Vec<u8>)
    requires
        1 <= tag <= MAX_TAG,
    ensures
        final(out)@ == old(out)@ + spec_encode_opt_bytes(tag as nat, bytes_view(*o)),
{
    match o {
        Some(b) => encode_ld(tag, b.as_slice(), out),
        None => {
            assert(out@ =~= out@ + Seq::<u8>::empty());
        },
    }
}

fn encode_text(tag: u32, t: &String, out: &mut Vec<u8>)
    requires
        1 <= tag <= MAX_TAG,
    ensures
        final(out)@ == old(out)@ + spec_encode_ld(tag as nat, encode_utf8(t@)),
{
    let b = t.as_str().as_bytes();
    encode_ld(tag, b, out);
}

fn encode_opt_text(tag: u32, o: &Option<String>, out: &mut Vec<u8>)
    requires
        1 <= tag <= MAX_TAG,
    ensures
        final(out)@ == old(out)@ + spec_encode_opt_text(tag as nat, text_view(*o)),
{
    match o {
        Some(t) => encode_text(tag, t, out),
        None => {
            assert(out@ =~= out@ + Seq::<u8>::empty());
        },
    }
}

fn encode_texts(tag: u32, ts: &Vec<String>, out: &mut Vec<u8>)
    requires
        1 <= tag <= MAX_TAG,
    ensures
        final(out)@ == old(out)@ + spec_encode_texts(tag as nat, texts_view(ts@)),
{
    let ghost start = old(out)@;
    let mut i: usize = 0;
    assert(texts_view(ts@).take(0) =~= Seq::<Seq<char>>::empty());
    while i < ts.len()
        invariant
            1 <= tag <= MAX_TAG,
            i <= ts@.len(),
            out@ == start + spec_encode_texts(tag as nat, texts_view(ts@).take(i as int)),
        decreases ts@.len() - i,
    {
        let ghost before = out@;
        encode_text(tag, &ts[i], out);
        proof {
            let tv = texts_view(ts@);
            assert(tv.take(i + 1).drop_last() =~= tv.take(i as int));
            assert(tv.take(i + 1).last() == ts@[i as int]@);
            assert(out@ =~= start + spec_encode_texts(tag as nat, tv.take(i + 1)));
        }
        i += 1;
    }
    assert(texts_view(ts@).take(ts@.len() as int) =~= texts_view(ts@));
}

/// Appends the encoding of a `SubOpts`.
pub fn encode_subopts(m: &SubOpts, out: &mut Vec<u8>)
    ensures
        final(out)@ == old(out)@ + spec_encode_subopts(m@),
{
    let ghost start = old(out)@;
    match m.subscribe {
        Some(b) => {
            encode_key(1, WireType::Varint, out);
            encode_varint(
                if b {
                    1
                } else {
                    0
                },
                out,
            );
        },
        None => {},
    }
    assert(out@ =~= start + spec_encode_opt_bool(1, m.subscribe));
    encode_opt_text(2, &m.topic_id, out);
    assert(out@ =~= start + spec_encode_subopts(m@));
}

/// Appends the encoding of a `Message`.
pub fn encode_message(m: &Message, out: &mut Vec<u8>)
    ensures
        final(out)@ == old(out)@ + spec_encode_message(m@),
{
    let ghost start = old(out)@;
    encode_opt_bytes(1, &m.from_peer_id, out);
    encode_opt_text(2, &m.from_name, out);
    encode_opt_text(3, &m.to_name, out);
    encode_opt_bytes(4, &m.data, out);
    encode_opt_bytes(5, &m.seqno, out);
    encode_texts(6, &m.topic_ids, out);
    assert(out@ =~= start + spec_encode_message(m@));
}

impl Rpc {
    /// The encoding of this `Rpc`.
    pub fn encode_to_vec(&self) -> (r: Vec<u8>)
        ensures
            r@ == spec_encode_rpc(self@),
    {
        let mut out: Vec<u8> = Vec::new();
        let ghost subs = self.subscriptions@.map_values(|x: SubOpts| x@);
        let ghost msgs = self.publish@.map_values(|x: Message| x@);
        let mut i: usize = 0;
        assert(subs.take(0) =~= Seq::<SubOptsModel>::empty());
        while i < self.subscriptions.len()
            invariant
                i <= self.subscriptions@.len(),
                subs == self.subscriptions@.map_values(|x: SubOpts| x@),
                out@ == spec_encode_subopts_list(subs.take(i as int)),
            decreases self.subscriptions@.len() - i,
        {
            let mut tmp: Vec<u8> = Vec::new();
            encode_subopts(&self.subscriptions[i], &mut tmp);
            encode_ld(1, tmp.as_slice(), &mut out);
            proof {
                assert(subs.take(i + 1).drop_last() =~= subs.take(i as int));
                assert(tmp@ =~= spec_encode_subopts(subs.take(i + 1).last()));
            }
            i += 1;
        }
        assert(subs.take(subs.len() as int) =~= subs);
        let ghost first = out@;
        let mut j: usize = 0;
        assert(msgs.take(0) =~= Seq::<MessageModel>::empty());
        while j < self.publish.len()
            invariant
                j <= self.publish@.len(),
                msgs == self.publish@.map_values(|x: Message| x@),
                out@ == first + spec_encode_message_list(msgs.take(j as int)),
            decreases self.publish@.len() - j,
        {
            let mut tmp: Vec<u8> = Vec::new();
            encode_message(&self.publish[j], &mut tmp);
            encode_ld(2, tmp.as_slice(), &mut out);
            proof {
                assert(msgs.take(j + 1).drop_last() =~= msgs.take(j as int));
                assert(tmp@ =~= spec_encode_message(msgs.take(j + 1).last()));
                assert(out@ =~= first + spec_encode_message_list(msgs.take(j + 1)));
            }
            j += 1;
        }
        assert(msgs.take(msgs.len() as int) =~= msgs);
        out
    }

    /// Decodes a whole buffer as an `Rpc`.
    pub fn decode(buf: &[u8]) -> (r: Result<Rpc, DecodeErrorKind>)
        ensures
            match (r, spec_decode_rpc(buf@)) {
                (Ok(m), Ok(sm)) => m@ == sm,
                (Err(e), Err(se)) => e == se,
                _ => false,
            },
    {
        decode_rpc(buf)
    }
}

} // verus!
