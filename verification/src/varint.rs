//! Unsigned LEB128 variable-length integers, as used by the protobuf wire
//! format and by the length prefix of a frame.
use vstd::prelude::*;

verus! {

/// `128` raised to the power `n`.
pub open spec fn pow128(n: nat) -> nat
    decreases n,
{
    if n == 0 {
        1
    } else {
        128 * pow128((n - 1) as nat)
    }
}

/// One past the index of the first byte at or after `i` whose high bit is clear,
/// looking at the first ten bytes of `s` only.
pub open spec fn varint_end(s: Seq<u8>, i: nat) -> Option<nat>
    decreases 10 - i,
{
    if i >= 10 || i >= s.len() {
        None
    } else if s[i as int] < 128 {
        Some(i + 1)
    } else {
        varint_end(s, i + 1)
    }
}

/// The little-endian base-128 number held by the low seven bits of `s[i..n]`.
pub open spec fn varint_value(s: Seq<u8>, i: int, n: int) -> nat
    decreases n - i,
{
    if i >= n {
        0
    } else {
        (s[i] % 128) as nat + 128 * varint_value(s, i + 1, n)
    }
}

/// Decodes a varint at the start of `s`: its value and the number of bytes it takes.
/// A varint ends at the first byte below `0x80` among the first ten; its value must fit in
/// 64 bits.
pub open spec fn spec_decode_varint(s: Seq<u8>) -> Option<(u64, nat)> {
    match varint_end(s, 0) {
        None => None,
        Some(n) => if varint_value(s, 0, n as int) <= u64::MAX {
            Some((varint_value(s, 0, n as int) as u64, n))
        } else {
            None
        },
    }
}

/// The shortest varint encoding of `v`.
pub open spec fn spec_encode_varint(v: nat) -> Seq<u8>
    decreases v,
{
    if v < 128 {
        seq![v as u8]
    } else {
        seq![((v % 128) + 128) as u8] + spec_encode_varint(v / 128)
    }
}

proof fn lemma_value_monotone(s: Seq<u8>, i: int, j: int, n: int)
    requires
        i <= j,
    ensures
        varint_value(s, i, n) >= varint_value(s, j, n),
    decreases j - i,
{
    if i < j {
        lemma_value_monotone(s, i + 1, j, n);
    }
}

proof fn lemma_value_agree(s1: Seq<u8>, s2: Seq<u8>, i: int, n: int)
    requires
        0 <= i,
        n <= s1.len(),
        n <= s2.len(),
        forall|j: int| i <= j < n ==> s1[j] == s2[j],
    ensures
        varint_value(s1, i, n) == varint_value(s2, i, n),
    decreases n - i,
{
    if i < n {
        lemma_value_agree(s1, s2, i + 1, n);
    }
}

proof fn lemma_value_shift(x: u8, s: Seq<u8>, i: int, n: int)
    requires
        0 <= i <= n <= s.len(),
    ensures
        varint_value(seq![x] + s, i + 1, n + 1) == varint_value(s, i, n),
    decreases n - i,
{
    if i < n {
        lemma_value_shift(x, s, i + 1, n);
        assert((seq![x] + s)[i + 1] == s[i]);
    }
}

proof fn lemma_pow128_ge(n: nat)
    ensures
        pow128(n) >= 1,
    decreases n,
{
    if n > 0 {
        lemma_pow128_ge((n - 1) as nat);
    }
}

/// Facts about the encoding of `v`: its shape, its value, and its length.
proof fn lemma_encode_shape(v: nat, k: nat)
    ensures
        spec_encode_varint(v).len() >= 1,
        spec_encode_varint(v)[spec_encode_varint(v).len() - 1] < 128,
        forall|i: int|
            0 <= i < spec_encode_varint(v).len() - 1 ==> spec_encode_varint(v)[i] >= 128,
        varint_value(spec_encode_varint(v), 0, spec_encode_varint(v).len() as int) == v,
        v < pow128(k) && k >= 1 ==> spec_encode_varint(v).len() <= k,
    decreases v,
{
    let e = spec_encode_varint(v);
    if v < 128 {
        reveal_with_fuel(varint_value, 2);
    } else {
        let b: u8 = ((v % 128) + 128) as u8;
        let t = spec_encode_varint(v / 128);
        let kk: nat = if k > 0 { (k - 1) as nat } else { 0 };
        lemma_encode_shape(v / 128, kk);
        assert(e == seq![b] + t);
        lemma_value_shift(b, t, 0, t.len() as int);
        assert(e[0] == b);
        assert(varint_value(e, 0, e.len() as int) == (b % 128) as nat + 128 * varint_value(
            e,
            1,
            e.len() as int,
        ));
        assert(b % 128 == v % 128);
        assert forall|i: int| 0 <= i < e.len() - 1 implies e[i] >= 128 by {
            if i > 0 {
                assert(e[i] == t[i - 1]);
            }
        }
        if v < pow128(k) && k >= 1 {
            assert(pow128(k) == 128 * pow128(kk));
            if kk == 0 {
                assert(pow128(0) == 1);
            }
            assert(v / 128 < pow128(kk));
        }
    }
}

proof fn lemma_end_of_encoding(e: Seq<u8>, rest: Seq<u8>, i: nat)
    requires
        1 <= e.len() <= 10,
        e[e.len() - 1] < 128,
        forall|j: int| 0 <= j < e.len() - 1 ==> e[j] >= 128,
        i < e.len(),
    ensures
        varint_end(e + rest, i) == Some(e.len()),
    decreases e.len() - i,
{
    let s = e + rest;
    assert(s[i as int] == e[i as int]);
    if i + 1 < e.len() {
        lemma_end_of_encoding(e, rest, i + 1);
    }
}

/// Decoding the encoding of a 64-bit value, followed by anything, gives the value back and
/// the length of its encoding, which is at most ten bytes.
pub proof fn lemma_varint_roundtrip(v: u64, rest: Seq<u8>)
    ensures
        1 <= spec_encode_varint(v as nat).len() <= 10,
        spec_decode_varint(spec_encode_varint(v as nat) + rest) == Some(
            (v, spec_encode_varint(v as nat).len()),
        ),
{
    let e = spec_encode_varint(v as nat);
    reveal_with_fuel(pow128, 11);
    assert(pow128(10) == 1180591620717411303424nat);
    lemma_encode_shape(v as nat, 10);
    lemma_end_of_encoding(e, rest, 0);
    lemma_value_agree(e, e + rest, 0, e.len() as int);
}

/// Decodes the varint that starts at `buf[pos]` and lies within `buf[pos..end]`: its value and the
/// number of bytes it takes, or `None` when there is none.
pub fn decode_varint(buf: &[u8], pos: usize, end: usize) -> (r: Option<(u64, usize)>)
    requires
        pos <= end <= buf@.len(),
    ensures
        match r {
            None => spec_decode_varint(buf@.subrange(pos as int, end as int)) is None,
            Some((v, n)) => spec_decode_varint(buf@.subrange(pos as int, end as int)) == Some(
                (v, n as nat),
            ),
        },
{
    let ghost s = buf@.subrange(pos as int, end as int);
    let mut i: usize = 0;
    loop
        invariant
            i <= 10,
            pos <= end <= buf@.len(),
            s == buf@.subrange(pos as int, end as int),
            varint_end(s, 0) == varint_end(s, i as nat),
        ensures
            i < 10,
            pos + i < end,
            buf@[pos + i] < 128,
            varint_end(s, 0) == varint_end(s, i as nat),
        decreases 10 - i,
    {
        if i >= 10 || i >= end - pos {
            return None;
        }
        if buf[pos + i] < 128 {
            assert(s[i as int] == buf@[pos + i]);
            break;
        }
        assert(s[i as int] == buf@[pos + i]);
        i += 1;
    }
    let n: usize = i + 1;
    assert(s[i as int] == buf@[pos + i]);
    assert(varint_end(s, 0) == Some(n as nat));
    let mut v: u64 = 0;
    let mut j: usize = n;
    while j > 0
        invariant
            j <= n <= 10,
            pos + n <= end <= buf@.len(),
            s == buf@.subrange(pos as int, end as int),
            v == varint_value(s, j as int, n as int),
            varint_end(s, 0) == Some(n as nat),
        decreases j,
    {
        j -= 1;
        assert(s[j as int] == buf@[pos + j]);
        let low: u64 = (buf[pos + j] % 128) as u64;
        assert(varint_value(s, j as int, n as int) == low + 128 * v);
        if v > (u64::MAX - low) / 128 {
            proof {
                lemma_value_monotone(s, 0, j as int, n as int);
            }
            return None;
        }
        v = 128 * v + low;
    }
    Some((v, n))
}

/// Appends the shortest varint encoding of `v` to `out`.
pub fn encode_varint(v: u64, out: &mut Vec<u8>)
    ensures
        final(out)@ == old(out)@ + spec_encode_varint(v as nat),
{
    let mut w: u64 = v;
    let ghost start = old(out)@;
    while w >= 128
        invariant
            start + spec_encode_varint(v as nat) == out@ + spec_encode_varint(w as nat),
        decreases w,
    {
        let b: u8 = ((w % 128) + 128) as u8;
        proof {
            assert(spec_encode_varint(w as nat) == seq![b] + spec_encode_varint((w / 128) as nat));
            assert(out@ + spec_encode_varint(w as nat) == out@.push(b) + spec_encode_varint(
                (w / 128) as nat,
            ));
        }
        out.push(b);
        w = w / 128;
    }
    proof {
        assert(spec_encode_varint(w as nat) == seq![w as u8]);
    }
    out.push(w as u8);
}

} // verus!
