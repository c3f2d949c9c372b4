//! The protobuf wire format: field keys, length-delimited payloads, UTF-8 text and the
//! skipping of fields that a message does not know.
use vstd::prelude::*;
use vstd::utf8::*;
use vstd::string::StringSliceAdditionalSpecFns;
use crate::varint::{
    decode_varint, encode_varint, lemma_varint_roundtrip, spec_decode_varint, spec_encode_varint,
    varint_end,
};

verus! {

/// How the value of a field is laid out on the wire.
#[derive(PartialEq, Eq, Structural, Clone, Copy, Debug)]
pub enum WireType {
    Varint,
    SixtyFourBit,
    LengthDelimited,
    StartGroup,
    EndGroup,
    ThirtyTwoBit,
}

/// Why a buffer is not a valid encoding.
#[derive(PartialEq, Eq, Structural, Clone, Copy, Debug)]
pub enum DecodeErrorKind {
    /// A varint is cut short, longer than ten bytes, or above 64 bits.
    InvalidVarint,
    /// A field key is above 32 bits.
    InvalidKey,
    /// The low three bits of a key are 6 or 7.
    InvalidWireType,
    /// A field key has tag 0.
    InvalidTag,
    /// A known field comes with another wire type than its own.
    WireTypeMismatch,
    /// A length or a fixed-width value runs past the end of the buffer.
    BufferUnderflow,
    /// An end-group key without its start, or with another tag.
    UnexpectedEndGroup,
    /// Messages or groups nested too deeply.
    RecursionLimit,
    /// A text field that is not UTF-8.
    InvalidUtf8,
}

/// The largest field tag.
pub const MAX_TAG: u32 = 536870911;

/// How deeply messages and groups may nest while decoding.
pub const RECURSION_LIMIT: u32 = 100;

pub open spec fn wire_type_code(w: WireType) -> nat {
    match w {
        WireType::Varint => 0,
        WireType::SixtyFourBit => 1,
        WireType::LengthDelimited => 2,
        WireType::StartGroup => 3,
        WireType::EndGroup => 4,
        WireType::ThirtyTwoBit => 5,
    }
}

pub open spec fn wire_type_of(code: nat) -> Option<WireType> {
    if code == 0 {
        Some(WireType::Varint)
    } else if code == 1 {
        Some(WireType::SixtyFourBit)
    } else if code == 2 {
        Some(WireType::LengthDelimited)
    } else if code == 3 {
        Some(WireType::StartGroup)
    } else if code == 4 {
        Some(WireType::EndGroup)
    } else if code == 5 {
        Some(WireType::ThirtyTwoBit)
    } else {
        None
    }
}

/// Decodes a field key at the start of `s`: tag, wire type and the number of bytes taken.
pub open spec fn spec_decode_key(s: Seq<u8>) -> Result<(u32, WireType, nat), DecodeErrorKind> {
    match spec_decode_varint(s) {
        None => Err(DecodeErrorKind::InvalidVarint),
        Some((key, n)) => if key > u32::MAX {
            Err(DecodeErrorKind::InvalidKey)
        } else {
            match wire_type_of((key % 8) as nat) {
                None => Err(DecodeErrorKind::InvalidWireType),
                Some(w) => if key / 8 == 0 {
                    Err(DecodeErrorKind::InvalidTag)
                } else {
                    Ok(((key / 8) as u32, w, n))
                },
            }
        },
    }
}

/// The key of a field with tag `tag` and wire type `w`.
pub open spec fn spec_encode_key(tag: nat, w: WireType) -> Seq<u8> {
    spec_encode_varint(tag * 8 + wire_type_code(w))
}

/// Decodes the length prefix of a length-delimited value at the start of `s`: the size of the
/// prefix and the length of the payload that follows it within `s`.
pub open spec fn spec_length_delimited(s: Seq<u8>) -> Result<(nat, nat), DecodeErrorKind> {
    match spec_decode_varint(s) {
        None => Err(DecodeErrorKind::InvalidVarint),
        Some((len, n)) => if len > s.len() - n {
            Err(DecodeErrorKind::BufferUnderflow)
        } else {
            Ok((n, len as nat))
        },
    }
}

/// A length-delimited value: the length of `payload`, then `payload`.
pub open spec fn spec_encode_payload(payload: Seq<u8>) -> Seq<u8> {
    spec_encode_varint(payload.len()) + payload
}

/// The number of bytes that the value of an unknown field takes at the start of `s`, given its
/// wire type and tag; `budget` is how many more levels may nest.
pub open spec fn spec_skip_field(s: Seq<u8>, w: WireType, tag: u32, budget: nat) -> Result<
    nat,
    DecodeErrorKind,
>
    decreases s.len(), 1nat,
{
    if budget == 0 {
        Err(DecodeErrorKind::RecursionLimit)
    } else {
        match w {
            WireType::Varint => match spec_decode_varint(s) {
                None => Err(DecodeErrorKind::InvalidVarint),
                Some((_, n)) => Ok(n),
            },
            WireType::ThirtyTwoBit => if 4 <= s.len() {
                Ok(4)
            } else {
                Err(DecodeErrorKind::BufferUnderflow)
            },
            WireType::SixtyFourBit => if 8 <= s.len() {
                Ok(8)
            } else {
                Err(DecodeErrorKind::BufferUnderflow)
            },
            WireType::LengthDelimited => match spec_length_delimited(s) {
                Err(e) => Err(e),
                Ok((n, l)) => Ok(n + l),
            },
            WireType::StartGroup => spec_skip_group(s, tag, budget),
            WireType::EndGroup => Err(DecodeErrorKind::UnexpectedEndGroup),
        }
    }
}

/// The number of bytes that the rest of a group with tag `tag` takes at the start of `s`, its
/// end-group key included.
pub open spec fn spec_skip_group(s: Seq<u8>, tag: u32, budget: nat) -> Result<
    nat,
    DecodeErrorKind,
>
    decreases s.len(), 0nat,
{
    match spec_decode_key(s) {
        Err(e) => Err(e),
        Ok((t, w, k)) => {
            if w == WireType::EndGroup {
                if t == tag {
                    Ok(k)
                } else {
                    Err(DecodeErrorKind::UnexpectedEndGroup)
                }
            } else if k == 0 || k > s.len() {
                Err(DecodeErrorKind::InvalidVarint)
            } else {
                match spec_skip_field(s.skip(k as int), w, t, (budget - 1) as nat) {
                    Err(e) => Err(e),
                    Ok(m) => if k + m > s.len() {
                        Err(DecodeErrorKind::BufferUnderflow)
                    } else {
                        match spec_skip_group(s.skip((k + m) as int), tag, budget) {
                            Err(e) => Err(e),
                            Ok(r) => Ok(k + m + r),
                        }
                    },
                }
            }
        },
    }
}

pub proof fn lemma_varint_len(s: Seq<u8>)
    ensures
        spec_decode_varint(s) matches Some((_, n)) ==> 1 <= n <= s.len() && n <= 10,
{
    if let Some((_, n)) = spec_decode_varint(s) {
        lemma_varint_end_bounds(s, 0);
    }
}

proof fn lemma_varint_end_bounds(s: Seq<u8>, i: nat)
    ensures
        varint_end(s, i) matches Some(n) ==> i < n <= s.len() && n <= 10,
    decreases 10 - i,
{
    if i < 10 && i < s.len() && s[i as int] >= 128 {
        lemma_varint_end_bounds(s, i + 1);
    }
}

pub proof fn lemma_key_len(s: Seq<u8>)
    ensures
        spec_decode_key(s) matches Ok((_, _, n)) ==> 1 <= n <= s.len() && n <= 10,
{
    lemma_varint_len(s);
}

pub proof fn lemma_length_delimited_len(s: Seq<u8>)
    ensures
        spec_length_delimited(s) matches Ok((n, l)) ==> 1 <= n && n + l <= s.len(),
{
    lemma_varint_len(s);
}

/// What `spec_skip_field` and `spec_skip_group` accept lies within `s`.
pub proof fn lemma_skip_len(s: Seq<u8>, w: WireType, tag: u32, budget: nat)
    ensures
        spec_skip_field(s, w, tag, budget) matches Ok(m) ==> m <= s.len(),
        spec_skip_group(s, tag, budget) matches Ok(m) ==> 1 <= m <= s.len(),
    decreases s.len(),
{
    lemma_varint_len(s);
    lemma_key_len(s);
    if let Ok((t, w2, k)) = spec_decode_key(s) {
        if w2 != WireType::EndGroup && 0 < k <= s.len() {
            lemma_skip_len(s.skip(k as int), w2, t, (budget - 1) as nat);
            if let Ok(m) = spec_skip_field(s.skip(k as int), w2, t, (budget - 1) as nat) {
                if k + m <= s.len() {
                    lemma_skip_len(s.skip((k + m) as int), w2, tag, budget);
                }
            }
        }
    }
}

/// Decodes the field key at `buf[pos..end]`.
pub fn decode_key(buf: &[u8], pos: usize, end: usize) -> (r: Result<
    (u32, WireType, usize),
    DecodeErrorKind,
>)
    requires
        pos <= end <= buf@.len(),
    ensures
        match (r, spec_decode_key(buf@.subrange(pos as int, end as int))) {
            (Ok((t, w, n)), Ok((st, sw, sn))) => t == st && w == sw && n == sn,
            (Err(e), Err(se)) => e == se,
            _ => false,
        },
{
    match decode_varint(buf, pos, end) {
        None => Err(DecodeErrorKind::InvalidVarint),
        Some((key, n)) => {
            if key > 4294967295u64 {
                return Err(DecodeErrorKind::InvalidKey);
            }
            let code = key % 8;
            let w = if code == 0 {
                WireType::Varint
            } else if code == 1 {
                WireType::SixtyFourBit
            } else if code == 2 {
                WireType::LengthDelimited
            } else if code == 3 {
                WireType::StartGroup
            } else if code == 4 {
                WireType::EndGroup
            } else if code == 5 {
                WireType::ThirtyTwoBit
            } else {
                return Err(DecodeErrorKind::InvalidWireType);
            };
            if key / 8 == 0 {
                return Err(DecodeErrorKind::InvalidTag);
            }
            Ok(((key / 8) as u32, w, n))
        },
    }
}

/// Decodes the length prefix of a length-delimited value at `buf[pos..end]`: the size of the
/// prefix and the length of the payload.
pub fn decode_length_delimited(buf: &[u8], pos: usize, end: usize) -> (r: Result<
    (usize, usize),
    DecodeErrorKind,
>)
    requires
        pos <= end <= buf@.len(),
    ensures
        match (r, spec_length_delimited(buf@.subrange(pos as int, end as int))) {
            (Ok((n, l)), Ok((sn, sl))) => n == sn && l == sl && pos + n + l <= end,
            (Err(e), Err(se)) => e == se,
            _ => false,
        },
{
    proof {
        lemma_varint_len(buf@.subrange(pos as int, end as int));
    }
    match decode_varint(buf, pos, end) {
        None => Err(DecodeErrorKind::InvalidVarint),
        Some((len, n)) => {
            if len > (end - pos - n) as u64 {
                Err(DecodeErrorKind::BufferUnderflow)
            } else {
                Ok((n, len as usize))
            }
        },
    }
}

/// The number of bytes that the value of an unknown field takes at `buf[pos..end]`.
pub fn skip_field(buf: &[u8], pos: usize, end: usize, w: WireType, tag: u32, budget: u32) -> (r:
    Result<usize, DecodeErrorKind>)
    requires
        pos <= end <= buf@.len(),
    ensures
        match (r, spec_skip_field(buf@.subrange(pos as int, end as int), w, tag, budget as nat)) {
            (Ok(m), Ok(sm)) => m == sm && pos + m <= end,
            (Err(e), Err(se)) => e == se,
            _ => false,
        },
    decreases end - pos, 1nat,
{
    let ghost s = buf@.subrange(pos as int, end as int);
    proof {
        lemma_skip_len(s, w, tag, budget as nat);
    }
    if budget == 0 {
        return Err(DecodeErrorKind::RecursionLimit);
    }
    match w {
        WireType::Varint => match decode_varint(buf, pos, end) {
            None => Err(DecodeErrorKind::InvalidVarint),
            Some((_, n)) => {
                proof {
                    lemma_varint_len(s);
                }
                Ok(n)
            },
        },
        WireType::ThirtyTwoBit => if 4 <= end - pos {
            Ok(4)
        } else {
            Err(DecodeErrorKind::BufferUnderflow)
        },
        WireType::SixtyFourBit => if 8 <= end - pos {
            Ok(8)
        } else {
            Err(DecodeErrorKind::BufferUnderflow)
        },
        WireType::LengthDelimited => match decode_length_delimited(buf, pos, end) {
            Err(e) => Err(e),
            Ok((n, l)) => Ok(n + l),
        },
        WireType::StartGroup => skip_group(buf, pos, end, tag, budget),
        WireType::EndGroup => Err(DecodeErrorKind::UnexpectedEndGroup),
    }
}

/// The number of bytes that the rest of a group with tag `tag` takes at `buf[pos..end]`.
pub fn skip_group(buf: &[u8], pos: usize, end: usize, tag: u32, budget: u32) -> (r: Result<
    usize,
    DecodeErrorKind,
>)
    requires
        pos <= end <= buf@.len(),
        budget > 0,
    ensures
        match (r, spec_skip_group(buf@.subrange(pos as int, end as int), tag, budget as nat)) {
            (Ok(m), Ok(sm)) => m == sm && pos + m <= end,
            (Err(e), Err(se)) => e == se,
            _ => false,
        },
    decreases end - pos, 0nat,
{
    let ghost s = buf@.subrange(pos as int, end as int);
    proof {
        lemma_key_len(s);
    }
    match decode_key(buf, pos, end) {
        Err(e) => Err(e),
        Ok((t, w, k)) => {
            if w == WireType::EndGroup {
                if t == tag {
                    Ok(k)
                } else {
                    Err(DecodeErrorKind::UnexpectedEndGroup)
                }
            } else {
                assert(s.skip(k as int) =~= buf@.subrange(pos + k, end as int));
                match skip_field(buf, pos + k, end, w, t, budget - 1) {
                    Err(e) => Err(e),
                    Ok(m) => {
                        assert(s.skip((k + m) as int) =~= buf@.subrange(pos + k + m, end as int));
                        match skip_group(buf, pos + k + m, end, tag, budget) {
                            Err(e) => Err(e),
                            Ok(r) => Ok(k + m + r),
                        }
                    },
                }
            }
        },
    }
}

/// `std::str::from_utf8`: the bytes as text when they are valid UTF-8, with the same bytes.
#[verifier::external_body]
fn str_from_utf8(b: &[u8]) -> (r: Option<&str>)
    ensures
        r is Some <==> valid_utf8(b@),
        r matches Some(s) ==> s.spec_bytes() == b@,
{
    std::str::from_utf8(b).ok()
}

/// Decodes UTF-8 text: `None` when `b` is not valid UTF-8.
pub fn text_from_utf8(b: &[u8]) -> (r: Option<String>)
    ensures
        r is Some <==> valid_utf8(b@),
        r matches Some(s) ==> s@ == decode_utf8(b@),
{
    match str_from_utf8(b) {
        None => None,
        Some(s) => {
            proof {
                encode_utf8_decode_utf8(s@);
            }
            Some(s.to_owned())
        },
    }
}

/// Appends the bytes of `b` to `out`.
pub fn append_bytes(out: &mut Vec<u8>, b: &[u8])
    ensures
        final(out)@ == old(out)@ + b@,
{
    let ghost start = old(out)@;
    let mut i: usize = 0;
    while i < b.len()
        invariant
            i <= b@.len(),
            out@ == start + b@.subrange(0, i as int),
        decreases b@.len() - i,
    {
        proof {
            assert(b@.subrange(0, i + 1) =~= b@.subrange(0, i as int).push(b@[i as int]));
        }
        out.push(b[i]);
        i += 1;
    }
    assert(b@.subrange(0, b@.len() as int) =~= b@);
}

/// Appends the key of a field with tag `tag` and wire type `w`.
pub fn encode_key(tag: u32, w: WireType, out: &mut Vec<u8>)
    requires
        1 <= tag <= MAX_TAG,
    ensures
        final(out)@ == old(out)@ + spec_encode_key(tag as nat, w),
{
    let code: u64 = match w {
        WireType::Varint => 0,
        WireType::SixtyFourBit => 1,
        WireType::LengthDelimited => 2,
        WireType::StartGroup => 3,
        WireType::EndGroup => 4,
        WireType::ThirtyTwoBit => 5,
    };
    encode_varint((tag as u64) * 8 + code, out);
}

/// Appends a length-delimited value: the length of `payload`, then `payload`.
pub fn encode_payload(payload: &[u8], out: &mut Vec<u8>)
    ensures
        final(out)@ == old(out)@ + spec_encode_payload(payload@),
{
    encode_varint(payload.len() as u64, out);
    append_bytes(out, payload);
    assert(final(out)@ =~= old(out)@ + spec_encode_payload(payload@));
}

/// Decoding a key that was encoded gives it back.
pub proof fn lemma_key_roundtrip(tag: nat, w: WireType, rest: Seq<u8>)
    requires
        1 <= tag <= MAX_TAG,
    ensures
        spec_decode_key(spec_encode_key(tag, w) + rest) == Ok::<_, DecodeErrorKind>(
            (tag as u32, w, spec_encode_key(tag, w).len()),
        ),
        1 <= spec_encode_key(tag, w).len() <= 10,
{
    let key: u64 = (tag * 8 + wire_type_code(w)) as u64;
    lemma_varint_roundtrip(key, rest);
    assert(key % 8 == wire_type_code(w));
    assert(key / 8 == tag);
}

/// Decoding the length prefix of an encoded payload gives its length back.
pub proof fn lemma_payload_roundtrip(payload: Seq<u8>, rest: Seq<u8>)
    requires
        payload.len() <= u64::MAX,
    ensures
        spec_length_delimited(spec_encode_payload(payload) + rest) == Ok::<_, DecodeErrorKind>(
            (spec_encode_varint(payload.len()).len(), payload.len()),
        ),
        (spec_encode_payload(payload) + rest).subrange(
            spec_encode_varint(payload.len()).len() as int,
            (spec_encode_varint(payload.len()).len() + payload.len()) as int,
        ) == payload,
{
    let e = spec_encode_varint(payload.len());
    assert(spec_encode_payload(payload) + rest =~= e + (payload + rest));
    lemma_varint_roundtrip(payload.len() as u64, payload + rest);
    assert((spec_encode_payload(payload) + rest).subrange(e.len() as int, (e.len() + payload.len()) as int)
        =~= payload);
}

} // verus!
