//! Decoding what was encoded gives it back, for every message of the chat protocol.
use vstd::prelude::*;
use vstd::utf8::{decode_utf8, encode_utf8, encode_utf8_decode_utf8, encode_utf8_valid_utf8};
use crate::varint::{lemma_varint_roundtrip, spec_encode_varint};
use crate::wire::{
    lemma_key_len, lemma_key_roundtrip, lemma_payload_roundtrip, spec_decode_key,
    spec_encode_key, spec_encode_payload, WireType, MAX_TAG, RECURSION_LIMIT,
};
use crate::chat_pb::{
    empty_message, empty_rpc, empty_subopts, spec_bytes_field, spec_decode_rpc, spec_embedded,
    spec_encode_ld, spec_encode_message, spec_encode_message_list, spec_encode_opt_bool,
    spec_encode_opt_bytes, spec_encode_opt_text, spec_encode_rpc, spec_encode_subopts,
    spec_encode_subopts_list, spec_encode_texts, spec_message_field, spec_message_fields,
    spec_rpc_field, spec_rpc_fields, spec_subopts_field, spec_subopts_fields, spec_text_field,
    MessageModel, RpcModel, SubOptsModel,
};

verus! {

/// The parts of an encoded length-delimited field followed by `rest`: its key, its payload, and
/// what follows it.
proof fn lemma_ld_parts(tag: nat, p: Seq<u8>, rest: Seq<u8>)
    requires
        1 <= tag <= MAX_TAG,
        p.len() <= u64::MAX,
    ensures
        ({
            let s = spec_encode_ld(tag, p) + rest;
            let k = spec_encode_key(tag, WireType::LengthDelimited).len();
            let m = spec_encode_payload(p).len();
            &&& spec_decode_key(s) == Ok::<_, crate::wire::DecodeErrorKind>(
                (tag as u32, WireType::LengthDelimited, k),
            )
            &&& spec_bytes_field(s.skip(k as int), WireType::LengthDelimited) == Ok::<
                _,
                crate::wire::DecodeErrorKind,
            >((p, m))
            &&& s.skip((k + m) as int) == rest
            &&& 1 <= k
            &&& s.len() > 0
        }),
{
    let s = spec_encode_ld(tag, p) + rest;
    let key = spec_encode_key(tag, WireType::LengthDelimited);
    let pe = spec_encode_payload(p);
    assert(s =~= key + (pe + rest));
    lemma_key_roundtrip(tag, WireType::LengthDelimited, pe + rest);
    assert(s.skip(key.len() as int) =~= pe + rest);
    lemma_payload_roundtrip(p, rest);
    assert(s.skip((key.len() + pe.len()) as int) =~= rest);
}

/// What one encoded field of a `Message` does to the message being decoded.
pub open spec fn apply_message_field(acc: MessageModel, tag: nat, p: Seq<u8>) -> MessageModel {
    if tag == 1 {
        MessageModel { from_peer_id: Some(p), ..acc }
    } else if tag == 2 {
        MessageModel { from_name: Some(decode_utf8(p)), ..acc }
    } else if tag == 3 {
        MessageModel { to_name: Some(decode_utf8(p)), ..acc }
    } else if tag == 4 {
        MessageModel { data: Some(p), ..acc }
    } else if tag == 5 {
        MessageModel { seqno: Some(p), ..acc }
    } else {
        MessageModel { topic_ids: acc.topic_ids.push(decode_utf8(p)), ..acc }
    }
}

proof fn lemma_message_step(tag: nat, p: Seq<u8>, rest: Seq<u8>, acc: MessageModel, budget: nat)
    requires
        1 <= tag <= 6,
        p.len() <= u64::MAX,
        tag == 2 || tag == 3 || tag == 6 ==> exists|t: Seq<char>| encode_utf8(t) == p,
    ensures
        spec_message_fields(spec_encode_ld(tag, p) + rest, acc, budget) == spec_message_fields(
            rest,
            apply_message_field(acc, tag, p),
            budget,
        ),
{
    let s = spec_encode_ld(tag, p) + rest;
    lemma_ld_parts(tag, p, rest);
    lemma_key_len(s);
    let k = spec_encode_key(tag, WireType::LengthDelimited).len();
    if tag == 2 || tag == 3 || tag == 6 {
        let t = choose|t: Seq<char>| encode_utf8(t) == p;
        encode_utf8_valid_utf8(t);
        encode_utf8_decode_utf8(t);
    }
    assert(spec_message_field(s.skip(k as int), tag as u32, WireType::LengthDelimited, acc, budget)
        == Ok::<_, crate::wire::DecodeErrorKind>(
        (apply_message_field(acc, tag, p), spec_encode_payload(p).len()),
    ));
}

proof fn lemma_message_opt_bytes(
    tag: nat,
    o: Option<Seq<u8>>,
    rest: Seq<u8>,
    acc: MessageModel,
    budget: nat,
)
    requires
        tag == 1 || tag == 4 || tag == 5,
        (spec_encode_opt_bytes(tag, o) + rest).len() <= u64::MAX,
    ensures
        spec_message_fields(spec_encode_opt_bytes(tag, o) + rest, acc, budget) == match o {
            Some(p) => spec_message_fields(rest, apply_message_field(acc, tag, p), budget),
            None => spec_message_fields(rest, acc, budget),
        },
{
    match o {
        Some(p) => {
            lemma_message_step(tag, p, rest, acc, budget);
        },
        None => {
            assert(spec_encode_opt_bytes(tag, o) + rest =~= rest);
        },
    }
}

proof fn lemma_message_opt_text(
    tag: nat,
    o: Option<Seq<char>>,
    rest: Seq<u8>,
    acc: MessageModel,
    budget: nat,
)
    requires
        tag == 2 || tag == 3,
        (spec_encode_opt_text(tag, o) + rest).len() <= u64::MAX,
    ensures
        spec_message_fields(spec_encode_opt_text(tag, o) + rest, acc, budget) == match o {
            Some(t) => spec_message_fields(
                rest,
                apply_message_field(acc, tag, encode_utf8(t)),
                budget,
            ),
            None => spec_message_fields(rest, acc, budget),
        },
{
    match o {
        Some(t) => {
            lemma_message_step(tag, encode_utf8(t), rest, acc, budget);
        },
        None => {
            assert(spec_encode_opt_text(tag, o) + rest =~= rest);
        },
    }
}

proof fn lemma_message_texts(ts: Seq<Seq<char>>, rest: Seq<u8>, acc: MessageModel, budget: nat)
    requires
        (spec_encode_texts(6, ts) + rest).len() <= u64::MAX,
    ensures
        spec_message_fields(spec_encode_texts(6, ts) + rest, acc, budget) == spec_message_fields(
            rest,
            MessageModel { topic_ids: acc.topic_ids + ts, ..acc },
            budget,
        ),
    decreases ts.len(),
{
    if ts.len() == 0 {
        assert(spec_encode_texts(6, ts) + rest =~= rest);
        assert(MessageModel { topic_ids: acc.topic_ids + ts, ..acc } =~= acc);
    } else {
        let last = spec_encode_ld(6, encode_utf8(ts.last()));
        assert(spec_encode_texts(6, ts) + rest =~= spec_encode_texts(6, ts.drop_last()) + (last
            + rest));
        lemma_message_texts(ts.drop_last(), last + rest, acc, budget);
        let mid = MessageModel { topic_ids: acc.topic_ids + ts.drop_last(), ..acc };
        lemma_message_step(6, encode_utf8(ts.last()), rest, mid, budget);
        assert(apply_message_field(mid, 6, encode_utf8(ts.last())) =~= MessageModel {
            topic_ids: acc.topic_ids + ts,
            ..acc
        }) by {
            encode_utf8_decode_utf8(ts.last());
            assert(acc.topic_ids + ts.drop_last() + seq![ts.last()] =~= acc.topic_ids + ts);
        }
    }
}

proof fn lemma_message_head(m: MessageModel, rest: Seq<u8>, budget: nat)
    requires
        (spec_encode_opt_bytes(1, m.from_peer_id) + (spec_encode_opt_text(2, m.from_name) + (
        spec_encode_opt_text(3, m.to_name) + rest))).len() <= u64::MAX,
    ensures
        spec_message_fields(
            spec_encode_opt_bytes(1, m.from_peer_id) + (spec_encode_opt_text(2, m.from_name) + (
            spec_encode_opt_text(3, m.to_name) + rest)),
            empty_message(),
            budget,
        ) == spec_message_fields(
            rest,
            MessageModel {
                from_peer_id: m.from_peer_id,
                from_name: m.from_name,
                to_name: m.to_name,
                ..empty_message()
            },
            budget,
        ),
{
    let a1 = spec_encode_opt_bytes(1, m.from_peer_id);
    let a2 = spec_encode_opt_text(2, m.from_name);
    let a3 = spec_encode_opt_text(3, m.to_name);
    let acc0 = empty_message();
    let acc1 = MessageModel { from_peer_id: m.from_peer_id, ..acc0 };
    let acc2 = MessageModel { from_name: m.from_name, ..acc1 };
    let acc3 = MessageModel { to_name: m.to_name, ..acc2 };
    assert(spec_message_fields(a1 + (a2 + (a3 + rest)), acc0, budget) == spec_message_fields(
        a2 + (a3 + rest),
        acc1,
        budget,
    )) by {
        lemma_message_opt_bytes(1, m.from_peer_id, a2 + (a3 + rest), acc0, budget);
    }
    assert(spec_message_fields(a2 + (a3 + rest), acc1, budget) == spec_message_fields(
        a3 + rest,
        acc2,
        budget,
    )) by {
        lemma_message_opt_text(2, m.from_name, a3 + rest, acc1, budget);
        if let Some(t) = m.from_name {
            encode_utf8_decode_utf8(t);
        }
    }
    assert(spec_message_fields(a3 + rest, acc2, budget) == spec_message_fields(rest, acc3, budget))
        by {
        lemma_message_opt_text(3, m.to_name, rest, acc2, budget);
        if let Some(t) = m.to_name {
            encode_utf8_decode_utf8(t);
        }
    }
}

proof fn lemma_message_tail(m: MessageModel, acc: MessageModel, budget: nat)
    requires
        (spec_encode_opt_bytes(4, m.data) + (spec_encode_opt_bytes(5, m.seqno) + (
        spec_encode_texts(6, m.topic_ids) + Seq::<u8>::empty()))).len() <= u64::MAX,
        acc.topic_ids.len() == 0,
        acc.data is None,
        acc.seqno is None,
    ensures
        spec_message_fields(
            spec_encode_opt_bytes(4, m.data) + (spec_encode_opt_bytes(5, m.seqno) + (
            spec_encode_texts(6, m.topic_ids) + Seq::<u8>::empty())),
            acc,
            budget,
        ) == Ok::<_, crate::wire::DecodeErrorKind>(
            MessageModel { data: m.data, seqno: m.seqno, topic_ids: m.topic_ids, ..acc },
        ),
{
    let a4 = spec_encode_opt_bytes(4, m.data);
    let a5 = spec_encode_opt_bytes(5, m.seqno);
    let t6 = spec_encode_texts(6, m.topic_ids);
    let e = Seq::<u8>::empty();
    let acc4 = MessageModel { data: m.data, ..acc };
    let acc5 = MessageModel { seqno: m.seqno, ..acc4 };
    assert(spec_message_fields(a4 + (a5 + (t6 + e)), acc, budget) == spec_message_fields(
        a5 + (t6 + e),
        acc4,
        budget,
    )) by {
        lemma_message_opt_bytes(4, m.data, a5 + (t6 + e), acc, budget);
    }
    assert(spec_message_fields(a5 + (t6 + e), acc4, budget) == spec_message_fields(
        t6 + e,
        acc5,
        budget,
    )) by {
        lemma_message_opt_bytes(5, m.seqno, t6 + e, acc4, budget);
    }
    lemma_message_texts(m.topic_ids, e, acc5, budget);
    assert(acc5.topic_ids + m.topic_ids =~= m.topic_ids);
}

/// Decoding the encoding of a `Message` gives it back.
pub proof fn lemma_message_roundtrip(m: MessageModel, budget: nat)
    requires
        spec_encode_message(m).len() <= u64::MAX,
    ensures
        spec_message_fields(spec_encode_message(m), empty_message(), budget) == Ok::<
            _,
            crate::wire::DecodeErrorKind,
        >(m),
{
    let a1 = spec_encode_opt_bytes(1, m.from_peer_id);
    let a2 = spec_encode_opt_text(2, m.from_name);
    let a3 = spec_encode_opt_text(3, m.to_name);
    let a4 = spec_encode_opt_bytes(4, m.data);
    let a5 = spec_encode_opt_bytes(5, m.seqno);
    let t6 = spec_encode_texts(6, m.topic_ids);
    let e = Seq::<u8>::empty();
    let tail = a4 + (a5 + (t6 + e));
    assert(spec_encode_message(m) =~= a1 + (a2 + (a3 + tail)));
    lemma_message_head(m, tail, budget);
    let acc3 = MessageModel {
        from_peer_id: m.from_peer_id,
        from_name: m.from_name,
        to_name: m.to_name,
        ..empty_message()
    };
    lemma_message_tail(m, acc3, budget);
    assert(MessageModel { data: m.data, seqno: m.seqno, topic_ids: m.topic_ids, ..acc3 } =~= m);
}

proof fn lemma_subopts_bool(b: bool, rest: Seq<u8>, acc: SubOptsModel, budget: nat)
    ensures
        spec_subopts_fields(spec_encode_opt_bool(1, Some(b)) + rest, acc, budget)
            == spec_subopts_fields(rest, SubOptsModel { subscribe: Some(b), ..acc }, budget),
{
    let s = spec_encode_opt_bool(1, Some(b)) + rest;
    let key = spec_encode_key(1, WireType::Varint);
    let v: u64 = if b {
        1
    } else {
        0
    };
    let ve = spec_encode_varint(v as nat);
    assert(s =~= key + (ve + rest));
    lemma_key_roundtrip(1, WireType::Varint, ve + rest);
    lemma_varint_roundtrip(v, rest);
    assert(s.skip(key.len() as int) =~= ve + rest);
    assert(s.skip((key.len() + ve.len()) as int) =~= rest);
    assert(spec_subopts_field(s.skip(key.len() as int), 1, WireType::Varint, acc, budget) == Ok::<
        _,
        crate::wire::DecodeErrorKind,
    >((SubOptsModel { subscribe: Some(b), ..acc }, ve.len())));
}

proof fn lemma_subopts_text(t: Seq<char>, rest: Seq<u8>, acc: SubOptsModel, budget: nat)
    requires
        (spec_encode_opt_text(2, Some(t)) + rest).len() <= u64::MAX,
    ensures
        spec_subopts_fields(spec_encode_opt_text(2, Some(t)) + rest, acc, budget)
            == spec_subopts_fields(rest, SubOptsModel { topic_id: Some(t), ..acc }, budget),
{
    let p = encode_utf8(t);
    let s = spec_encode_ld(2, p) + rest;
    lemma_ld_parts(2, p, rest);
    encode_utf8_valid_utf8(t);
    encode_utf8_decode_utf8(t);
    let k = spec_encode_key(2, WireType::LengthDelimited).len();
    assert(spec_text_field(s.skip(k as int), WireType::LengthDelimited) == Ok::<
        _,
        crate::wire::DecodeErrorKind,
    >((t, spec_encode_payload(p).len())));
    assert(spec_subopts_field(s.skip(k as int), 2, WireType::LengthDelimited, acc, budget) == Ok::<
        _,
        crate::wire::DecodeErrorKind,
    >((SubOptsModel { topic_id: Some(t), ..acc }, spec_encode_payload(p).len())));
}

proof fn lemma_subopts_steps(m: SubOptsModel, budget: nat)
    requires
        spec_encode_subopts(m).len() <= u64::MAX,
    ensures
        spec_subopts_fields(spec_encode_subopts(m), empty_subopts(), budget) == Ok::<
            _,
            crate::wire::DecodeErrorKind,
        >(m),
{
    let a1 = spec_encode_opt_bool(1, m.subscribe);
    let a2 = spec_encode_opt_text(2, m.topic_id);
    let e = Seq::<u8>::empty();
    assert(spec_encode_subopts(m) =~= a1 + (a2 + e));
    let acc1 = SubOptsModel { subscribe: m.subscribe, ..empty_subopts() };
    assert(spec_subopts_fields(a1 + (a2 + e), empty_subopts(), budget) == spec_subopts_fields(
        a2 + e,
        acc1,
        budget,
    )) by {
        match m.subscribe {
            Some(b) => lemma_subopts_bool(b, a2 + e, empty_subopts(), budget),
            None => {
                assert(a1 + (a2 + e) =~= a2 + e);
                assert(acc1 =~= empty_subopts());
            },
        }
    }
    assert(spec_subopts_fields(a2 + e, acc1, budget) == Ok::<_, crate::wire::DecodeErrorKind>(m))
        by {
        match m.topic_id {
            Some(t) => {
                lemma_subopts_text(t, e, acc1, budget);
                assert(SubOptsModel { topic_id: Some(t), ..acc1 } =~= m);
            },
            None => {
                assert(a2 + e =~= e);
                assert(acc1 =~= m);
            },
        }
    }
}

proof fn lemma_subopts_list(xs: Seq<SubOptsModel>, rest: Seq<u8>, acc: RpcModel)
    requires
        (spec_encode_subopts_list(xs) + rest).len() <= u64::MAX,
    ensures
        spec_rpc_fields(spec_encode_subopts_list(xs) + rest, acc, RECURSION_LIMIT as nat)
            == spec_rpc_fields(
            rest,
            RpcModel { subscriptions: acc.subscriptions + xs, ..acc },
            RECURSION_LIMIT as nat,
        ),
    decreases xs.len(),
{
    if xs.len() == 0 {
        assert(spec_encode_subopts_list(xs) + rest =~= rest);
        assert(RpcModel { subscriptions: acc.subscriptions + xs, ..acc } =~= acc);
    } else {
        let x = xs.last();
        let p = spec_encode_subopts(x);
        let last = spec_encode_ld(1, p);
        assert(spec_encode_subopts_list(xs) + rest =~= spec_encode_subopts_list(xs.drop_last())
            + (last + rest));
        lemma_subopts_list(xs.drop_last(), last + rest, acc);
        let mid = RpcModel { subscriptions: acc.subscriptions + xs.drop_last(), ..acc };
        let s = last + rest;
        lemma_ld_parts(1, p, rest);
        lemma_subopts_steps(x, (RECURSION_LIMIT - 1) as nat);
        let k = spec_encode_key(1, WireType::LengthDelimited).len();
        assert(spec_embedded(s.skip(k as int), WireType::LengthDelimited, RECURSION_LIMIT as nat)
            == Ok::<_, crate::wire::DecodeErrorKind>((p, spec_encode_payload(p).len())));
        assert(spec_rpc_field(
            s.skip(k as int),
            1,
            WireType::LengthDelimited,
            mid,
            RECURSION_LIMIT as nat,
        ) == Ok::<_, crate::wire::DecodeErrorKind>(
            (
                RpcModel { subscriptions: mid.subscriptions.push(x), ..mid },
                spec_encode_payload(p).len(),
            ),
        ));
        assert(RpcModel { subscriptions: mid.subscriptions.push(x), ..mid } =~= RpcModel {
            subscriptions: acc.subscriptions + xs,
            ..acc
        });
    }
}

proof fn lemma_message_list(xs: Seq<MessageModel>, rest: Seq<u8>, acc: RpcModel)
    requires
        (spec_encode_message_list(xs) + rest).len() <= u64::MAX,
    ensures
        spec_rpc_fields(spec_encode_message_list(xs) + rest, acc, RECURSION_LIMIT as nat)
            == spec_rpc_fields(
            rest,
            RpcModel { publish: acc.publish + xs, ..acc },
            RECURSION_LIMIT as nat,
        ),
    decreases xs.len(),
{
    if xs.len() == 0 {
        assert(spec_encode_message_list(xs) + rest =~= rest);
        assert(RpcModel { publish: acc.publish + xs, ..acc } =~= acc);
    } else {
        let x = xs.last();
        let p = spec_encode_message(x);
        let last = spec_encode_ld(2, p);
        assert(spec_encode_message_list(xs) + rest =~= spec_encode_message_list(xs.drop_last()) + (
        last + rest));
        lemma_message_list(xs.drop_last(), last + rest, acc);
        let mid = RpcModel { publish: acc.publish + xs.drop_last(), ..acc };
        let s = last + rest;
        lemma_ld_parts(2, p, rest);
        lemma_message_roundtrip(x, (RECURSION_LIMIT - 1) as nat);
        let k = spec_encode_key(2, WireType::LengthDelimited).len();
        assert(spec_embedded(s.skip(k as int), WireType::LengthDelimited, RECURSION_LIMIT as nat)
            == Ok::<_, crate::wire::DecodeErrorKind>((p, spec_encode_payload(p).len())));
        assert(spec_rpc_field(
            s.skip(k as int),
            2,
            WireType::LengthDelimited,
            mid,
            RECURSION_LIMIT as nat,
        ) == Ok::<_, crate::wire::DecodeErrorKind>(
            (RpcModel { publish: mid.publish.push(x), ..mid }, spec_encode_payload(p).len()),
        ));
        assert(RpcModel { publish: mid.publish.push(x), ..mid } =~= RpcModel {
            publish: acc.publish + xs,
            ..acc
        });
    }
}

/// Decoding the encoding of an `Rpc` gives the same `Rpc` back, whenever the encoding's length
/// fits in 64 bits.
pub proof fn law_rpc_roundtrip(r: RpcModel)
    requires
        spec_encode_rpc(r).len() <= u64::MAX,
    ensures
        spec_decode_rpc(spec_encode_rpc(r)) == Ok::<_, crate::wire::DecodeErrorKind>(r),
{
    let a = spec_encode_subopts_list(r.subscriptions);
    let b = spec_encode_message_list(r.publish);
    let e = Seq::<u8>::empty();
    assert(spec_encode_rpc(r) =~= a + (b + e));
    lemma_subopts_list(r.subscriptions, b + e, empty_rpc());
    let acc1 = RpcModel { subscriptions: empty_rpc().subscriptions + r.subscriptions, ..empty_rpc() };
    lemma_message_list(r.publish, e, acc1);
    assert(RpcModel { publish: acc1.publish + r.publish, ..acc1 } =~= r);
}

} // verus!
