//! Encoders for the string pool, and the round-trip laws tying them to the
//! decoder's specification.
//!
//! The encoder emits the UTF-8 flavour of the pool: each entry carries its
//! character count and byte count in the two-tier short/long length scheme,
//! choosing the short form whenever the value fits in 15 bits.
use vstd::prelude::*;
use vstd::utf8::encode_utf8;
use vstd::utf8::encode_utf8_valid_utf8;
use vstd::utf8::encode_utf8_decode_utf8;

use crate::cursor::le16_at;
use crate::cursor::le32_at;
use crate::error::DecodeError;
use crate::pool::spec_len_utf8;
use crate::pool::spec_utf8_entry;

verus! {

/// The two little-endian bytes of `x`.
pub open spec fn le16_bytes(x: u16) -> Seq<u8> {
    seq![(x & 0xFF) as u8, ((x >> 8) & 0xFF) as u8]
}

/// The four little-endian bytes of `x`.
pub open spec fn le32_bytes(x: u32) -> Seq<u8> {
    seq![
        (x & 0xFF) as u8,
        ((x >> 8) & 0xFF) as u8,
        ((x >> 16) & 0xFF) as u8,
        ((x >> 24) & 0xFF) as u8,
    ]
}

/// Reading two bytes that encode `x` little-endian yields `x`.
pub proof fn lemma_le16_bytes_at(b: Seq<u8>, p: int, x: u16)
    requires
        0 <= p,
        p + 2 <= b.len(),
        b.subrange(p, p + 2) == le16_bytes(x),
    ensures
        le16_at(b, p) == x,
{
    assert(b[p] == (x & 0xFF) as u8);
    assert(b[p + 1] == ((x >> 8) & 0xFF) as u8);
    assert(((x & 0xFF) as u8 as u16) | ((((x >> 8) & 0xFF) as u8 as u16) << 8) == x)
        by (bit_vector);
}

/// Reading four bytes that encode `x` little-endian yields `x`.
pub proof fn lemma_le32_bytes_at(b: Seq<u8>, p: int, x: u32)
    requires
        0 <= p,
        p + 4 <= b.len(),
        b.subrange(p, p + 4) == le32_bytes(x),
    ensures
        le32_at(b, p) == x,
{
    assert(b[p] == (x & 0xFF) as u8);
    assert(b[p + 1] == ((x >> 8) & 0xFF) as u8);
    assert(b[p + 2] == ((x >> 16) & 0xFF) as u8);
    assert(b[p + 3] == ((x >> 24) & 0xFF) as u8);
    assert(((x & 0xFF) as u8 as u32) | ((((x >> 8) & 0xFF) as u8 as u32) << 8) | ((((x >> 16)
        & 0xFF) as u8 as u32) << 16) | ((((x >> 24) & 0xFF) as u8 as u32) << 24) == x)
        by (bit_vector);
}

/// The encoding of `n` in the two-tier UTF-8 length scheme: one 32-bit field
/// below `0x8000`, otherwise a continuation pair.
pub open spec fn spec_encode_len_utf8(n: u32) -> Seq<u8>
    recommends
        n <= 0x7FFFFF,
{
    if n < 0x8000 {
        le32_bytes(n)
    } else {
        le32_bytes(0x8000 | (n >> 8)) + le32_bytes(n & 0xFF)
    }
}

/// Round trip of the two-tier length scheme: reading back an encoded length
/// yields the value and consumes exactly the field, for the short and the
/// long form alike.
pub proof fn lemma_len_utf8_round_trip(b: Seq<u8>, p: int, n: u32)
    requires
        0 <= p,
        n <= 0x7FFFFF,
        p + spec_encode_len_utf8(n).len() <= b.len(),
        b.subrange(p, p + spec_encode_len_utf8(n).len() as int) == spec_encode_len_utf8(n),
    ensures
        spec_len_utf8(b, p) == Ok::<(u32, int), DecodeError>(
            (n, p + spec_encode_len_utf8(n).len()),
        ),
{
    if n < 0x8000 {
        assert(b.subrange(p, p + 4) =~= le32_bytes(n));
        lemma_le32_bytes_at(b, p, n);
        assert(n & 0x8000 == 0) by (bit_vector)
            requires
                n < 0x8000,
        ;
    } else {
        let hi = 0x8000u32 | (n >> 8);
        let lo = n & 0xFF;
        let whole = spec_encode_len_utf8(n);
        assert forall|k: int| 0 <= k < 4 implies b.subrange(p, p + 4)[k] == le32_bytes(hi)[k] by {
            assert(b.subrange(p, p + 8)[k] == b[p + k]);
            assert(whole[k] == le32_bytes(hi)[k]);
            assert(b.subrange(p, p + 4)[k] == b[p + k]);
        }
        assert(b.subrange(p, p + 4) =~= le32_bytes(hi));
        assert forall|k: int| 0 <= k < 4 implies b.subrange(p + 4, p + 8)[k] == le32_bytes(lo)[k] by {
            assert(b.subrange(p, p + 8)[4 + k] == b[p + 4 + k]);
            assert(whole[4 + k] == le32_bytes(lo)[k]);
            assert(b.subrange(p + 4, p + 8)[k] == b[p + 4 + k]);
        }
        assert(b.subrange(p + 4, p + 8) =~= le32_bytes(lo));
        lemma_le32_bytes_at(b, p, hi);
        lemma_le32_bytes_at(b, p + 4, lo);
        assert(hi & 0x8000 != 0) by (bit_vector)
            requires
                hi == 0x8000u32 | (n >> 8),
        ;
        assert(((hi & 0x7FFF) << 8) | (lo & 0xFFFF) == n) by (bit_vector)
            requires
                hi == 0x8000u32 | (n >> 8),
                lo == n & 0xFF,
                n <= 0x7FFFFF,
        ;
    }
}

/// The encoding of one UTF-8 pool entry for the text `t`: its character
/// count, its byte count, then its UTF-8 bytes.
pub open spec fn spec_encode_utf8_entry(t: Seq<char>) -> Seq<u8>
    recommends
        t.len() <= 0x7FFFFF,
        encode_utf8(t).len() <= 0x7FFFFF,
{
    spec_encode_len_utf8(t.len() as u32) + spec_encode_len_utf8(encode_utf8(t).len() as u32)
        + encode_utf8(t)
}

/// Round trip of one pool entry: decoding an encoded entry yields exactly
/// the text it was made from, wherever in a buffer the entry stands.
pub proof fn lemma_utf8_entry_round_trip(b: Seq<u8>, p: int, t: Seq<char>)
    requires
        0 <= p,
        t.len() <= 0x7FFFFF,
        encode_utf8(t).len() <= 0x7FFFFF,
        p + spec_encode_utf8_entry(t).len() <= b.len(),
        b.subrange(p, p + spec_encode_utf8_entry(t).len() as int) == spec_encode_utf8_entry(t),
    ensures
        spec_utf8_entry(b, p) == Ok::<Seq<char>, DecodeError>(t),
{
    let f1 = spec_encode_len_utf8(t.len() as u32);
    let payload = encode_utf8(t);
    let f2 = spec_encode_len_utf8(payload.len() as u32);
    let p1 = p + f1.len() as int;
    let p2 = p1 + f2.len() as int;
    let whole = spec_encode_utf8_entry(t);
    assert forall|k: int| 0 <= k < whole.len() implies b[p + k] == whole[k] by {
        assert(b.subrange(p, p + whole.len() as int)[k] == b[p + k]);
    }
    assert forall|k: int| 0 <= k < f2.len() implies b[p1 + k] == f2[k] by {
        assert(whole[f1.len() + k] == (f1 + f2)[f1.len() + k]);
        assert((f1 + f2)[f1.len() + k] == f2[k]);
    }
    assert forall|k: int| 0 <= k < payload.len() implies b[p2 + k] == payload[k] by {
        assert(whole[(f1 + f2).len() + k] == payload[k]);
    }
    assert(b.subrange(p, p + f1.len() as int) =~= f1);
    lemma_len_utf8_round_trip(b, p, t.len() as u32);
    assert(b.subrange(p1, p1 + f2.len() as int) =~= f2);
    lemma_len_utf8_round_trip(b, p1, payload.len() as u32);
    assert(b.subrange(p2, p2 + payload.len() as int) =~= payload);
    encode_utf8_valid_utf8(t);
    encode_utf8_decode_utf8(t);
}

/// The text `t` has its encoded entry placed at `off` of `b`, with both of
/// its lengths inside the two-tier scheme's range.
pub open spec fn entry_placed(b: Seq<u8>, off: int, t: Seq<char>) -> bool {
    &&& t.len() <= 0x7FFFFF
    &&& encode_utf8(t).len() <= 0x7FFFFF
    &&& 0 <= off
    &&& off + spec_encode_utf8_entry(t).len() <= b.len()
    &&& b.subrange(off, off + spec_encode_utf8_entry(t).len() as int) == spec_encode_utf8_entry(t)
}

/// A subrange within the left part of a concatenation reads from that part.
pub proof fn lemma_concat_subrange_left(a: Seq<u8>, c: Seq<u8>, lo: int, hi: int)
    requires
        0 <= lo <= hi <= a.len(),
    ensures
        (a + c).subrange(lo, hi) == a.subrange(lo, hi),
{
    assert((a + c).subrange(lo, hi) =~= a.subrange(lo, hi));
}

/// A subrange within the right part of a concatenation reads from that part.
pub proof fn lemma_concat_subrange_right(a: Seq<u8>, c: Seq<u8>, lo: int, hi: int)
    requires
        0 <= lo <= hi <= c.len(),
    ensures
        (a + c).subrange(a.len() + lo, a.len() + hi) == c.subrange(lo, hi),
{
    assert((a + c).subrange(a.len() as int + lo, a.len() as int + hi) =~= c.subrange(lo, hi));
}

/// An offset table whose fields encode `offs` reads back as `offs`.
pub proof fn lemma_offsets_round_trip(b: Seq<u8>, p: int, offs: Seq<u32>)
    requires
        0 <= p,
        p + 4 * offs.len() <= b.len(),
        forall|k: int| 0 <= k < offs.len() ==> le32_at(b, p + 4 * k) == offs[k],
    ensures
        crate::pool::spec_offsets(b, p, offs.len() as nat) == Ok::<Seq<u32>, DecodeError>(offs),
    decreases offs.len(),
{
    if offs.len() == 0 {
        assert(offs =~= Seq::<u32>::empty());
    } else {
        assert forall|k: int| 0 <= k < offs.skip(1).len() implies le32_at(b, p + 4 + 4 * k)
            == offs.skip(1)[k] by {
            assert(le32_at(b, p + 4 * (k + 1)) == offs[k + 1]);
            assert(p + 4 + 4 * k == p + 4 * (k + 1));
        }
        lemma_offsets_round_trip(b, p + 4, offs.skip(1));
        assert(le32_at(b, p + 4 * 0) == offs[0]);
        assert(seq![le32_at(b, p)] + offs.skip(1) =~= offs);
    }
}

/// Entries placed at `base + offs[k]` read back as exactly the texts they
/// were made from, in table order.
pub proof fn lemma_texts_round_trip(b: Seq<u8>, base: int, offs: Seq<u32>, ts: Seq<Seq<char>>)
    requires
        0 <= base,
        offs.len() == ts.len(),
        forall|k: int| 0 <= k < offs.len() ==> entry_placed(b, base + offs[k], ts[k]),
    ensures
        crate::pool::spec_texts(b, base, offs, true) == Ok::<Seq<Seq<char>>, DecodeError>(ts),
    decreases offs.len(),
{
    if offs.len() == 0 {
        assert(ts =~= Seq::<Seq<char>>::empty());
    } else {
        assert(entry_placed(b, base + offs[0], ts[0]));
        lemma_utf8_entry_round_trip(b, base + offs[0], ts[0]);
        assert forall|k: int| 0 <= k < offs.skip(1).len() implies entry_placed(
            b,
            base + offs.skip(1)[k],
            ts.skip(1)[k],
        ) by {
            assert(entry_placed(b, base + offs[k + 1], ts[k + 1]));
        }
        lemma_texts_round_trip(b, base, offs.skip(1), ts.skip(1));
        assert(seq![ts[0]] + ts.skip(1) =~= ts);
    }
}

/// Appends the two little-endian bytes of `x`.
fn push_u16_le(out: &mut Vec<u8>, x: u16)
    ensures
        final(out)@ == old(out)@ + le16_bytes(x),
{
    out.push((x & 0xFF) as u8);
    out.push(((x >> 8) & 0xFF) as u8);
    proof {
        assert(out@ =~= old(out)@ + le16_bytes(x));
    }
}

/// Appends the four little-endian bytes of `x`.
fn push_u32_le(out: &mut Vec<u8>, x: u32)
    ensures
        final(out)@ == old(out)@ + le32_bytes(x),
{
    out.push((x & 0xFF) as u8);
    out.push(((x >> 8) & 0xFF) as u8);
    out.push(((x >> 16) & 0xFF) as u8);
    out.push(((x >> 24) & 0xFF) as u8);
    proof {
        assert(out@ =~= old(out)@ + le32_bytes(x));
    }
}

/// Appends the two-tier UTF-8-scheme encoding of the length `n`.
pub fn encode_len_utf8(out: &mut Vec<u8>, n: u32)
    requires
        n <= 0x7FFFFF,
    ensures
        final(out)@ == old(out)@ + spec_encode_len_utf8(n),
{
    if n < 0x8000 {
        push_u32_le(out, n);
    } else {
        push_u32_le(out, 0x8000 | (n >> 8));
        push_u32_le(out, n & 0xFF);
        proof {
            assert(out@ =~= old(out)@ + spec_encode_len_utf8(n));
        }
    }
}


/// The total byte size of the encoded entries for `ts`.
pub open spec fn entries_size(ts: Seq<Seq<char>>) -> int
    decreases ts.len(),
{
    if ts.len() == 0 {
        0
    } else {
        spec_encode_utf8_entry(ts[0]).len() + entries_size(ts.skip(1))
    }
}

/// Every text fits the two-tier length scheme and the whole chunk fits its
/// 32-bit size field: exactly when the pool encoder succeeds.
pub open spec fn pool_encodable(ts: Seq<Seq<char>>) -> bool {
    &&& ts.len() <= 0x3FFFFF
    &&& (forall|i: int|
        0 <= i < ts.len() ==> ts[i].len() <= 0x7FFFFF && encode_utf8(ts[i]).len() <= 0x7FFFFF)
    &&& 28 + 4 * ts.len() + entries_size(ts) <= 0xFFFFFFFF
}

/// The encoded entries never have negative size.
pub proof fn lemma_entries_size_nonneg(ts: Seq<Seq<char>>)
    ensures
        entries_size(ts) >= 0,
    decreases ts.len(),
{
    if ts.len() > 0 {
        lemma_entries_size_nonneg(ts.skip(1));
    }
}

/// Appending one text grows the entry region by that text's entry size.
pub proof fn lemma_entries_size_push(ts: Seq<Seq<char>>, t: Seq<char>)
    ensures
        entries_size(ts.push(t)) == entries_size(ts) + spec_encode_utf8_entry(t).len(),
    decreases ts.len(),
{
    if ts.len() == 0 {
        assert(ts.push(t).skip(1) =~= Seq::<Seq<char>>::empty());
        assert(ts.push(t)[0] == t);
        assert(entries_size(Seq::<Seq<char>>::empty()) == 0);
    } else {
        assert(ts.push(t).skip(1) =~= ts.skip(1).push(t));
        assert(ts.push(t)[0] == ts[0]);
        lemma_entries_size_push(ts.skip(1), t);
    }
}

/// The entry region splits at any table index.
pub proof fn lemma_entries_size_split(ts: Seq<Seq<char>>, i: int)
    requires
        0 <= i <= ts.len(),
    ensures
        entries_size(ts) == entries_size(ts.take(i)) + entries_size(ts.skip(i)),
    decreases i,
{
    if i == 0 {
        assert(ts.take(0) =~= Seq::<Seq<char>>::empty());
        assert(ts.skip(0) =~= ts);
    } else {
        lemma_entries_size_split(ts.skip(1), i - 1);
        assert(ts.skip(1).take(i - 1) =~= ts.take(i).skip(1));
        assert(ts.skip(1).skip(i - 1) =~= ts.skip(i));
        assert(ts.take(i)[0] == ts[0]);
    }
}

/// Encodes `texts` as one UTF-8 `STRING_POOL` chunk. It succeeds whenever
/// `pool_encodable` holds of the texts, and whenever it succeeds, decoding
/// the produced chunk yields exactly `texts`, in order — the pool round
/// trip.
#[verifier::rlimit(100)]
#[verifier::loop_isolation(false)]
pub fn encode_string_pool(texts: &Vec<String>) -> (r: Option<Vec<u8>>)
    ensures
        r is Some ==> crate::pool::spec_string_pool(r->0@, 0) == Ok::<Seq<Seq<char>>, DecodeError>(
            texts.deep_view(),
        ),
        r is Some ==> le16_at(r->0@, 0) == crate::chunk::CHUNK_TYPE_STRING_POOL && le16_at(
            r->0@,
            2,
        ) == 28 && le32_at(r->0@, 4) as int == r->0@.len() && r->0@.len() >= 28,
        pool_encodable(texts.deep_view()) ==> r is Some,
{
    let ghost dv = texts.deep_view();
    let count = texts.len();
    if count as u64 > 0x3FFFFFu64 {
        return None;
    }
    proof {
        lemma_entries_size_nonneg(dv);
    }
    let mut entries: Vec<u8> = Vec::new();
    let mut offsets: Vec<u32> = Vec::new();
    let mut i: usize = 0;
    while i < count
        invariant
            i <= count,
            offsets@.len() == i as nat,
            entries@.len() == entries_size(dv.take(i as int)),
            entries@.len() <= 0xFFFFFFFF + 0x800010,
            forall|k: int|
                0 <= k < i ==> entry_placed(entries@, offsets@[k] as int, dv[k]),
        decreases count - i,
    {
        proof {
            assert(dv.take(0) =~= Seq::<Seq<char>>::empty());
        }
        if entries.len() as u64 > 0xFFFFFFFFu64 {
            proof {
                if pool_encodable(dv) {
                    lemma_entries_size_split(dv, i as int);
                    lemma_entries_size_nonneg(dv.skip(i as int));
                }
            }
            return None;
        }
        let s = texts[i].as_str();
        let mut bs = s.as_bytes_vec();
        let bl = bs.len();
        let cc = s.unicode_len();
        proof {
            assert(dv[i as int] == texts@[i as int].deep_view());
        }
        if bl > 0x7FFFFF || cc > 0x7FFFFF {
            return None;
        }
        let ghost e0 = entries@;
        let off = entries.len() as u32;
        offsets.push(off);
        encode_len_utf8(&mut entries, cc as u32);
        encode_len_utf8(&mut entries, bl as u32);
        entries.append(&mut bs);
        proof {
            assert(dv[i as int] == texts@[i as int].deep_view());
            assert(cc as u32 == dv[i as int].len() as u32);
            assert(bl as u32 == encode_utf8(dv[i as int]).len() as u32);
            assert(entries@ =~= e0 + spec_encode_utf8_entry(dv[i as int]));
            assert(entries@.subrange(e0.len() as int, entries@.len() as int) =~= spec_encode_utf8_entry(
                dv[i as int],
            ));
            assert forall|k: int| 0 <= k < i + 1 implies entry_placed(
                entries@,
                offsets@[k] as int,
                dv[k],
            ) by {
                if k < i {
                    let o = offsets@[k] as int;
                    let l = spec_encode_utf8_entry(dv[k]).len() as int;
                    assert(entry_placed(e0, o, dv[k]));
                    assert(entries@.subrange(o, o + l) =~= e0.subrange(o, o + l));
                } else {
                    assert(offsets@[k] as int == e0.len() as int);
                    assert(entries@.subrange(
                        e0.len() as int,
                        e0.len() + spec_encode_utf8_entry(dv[k]).len() as int,
                    ) =~= spec_encode_utf8_entry(dv[k]));
                }
            }
            assert(dv.take(i + 1) =~= dv.take(i as int).push(dv[i as int]));
            lemma_entries_size_push(dv.take(i as int), dv[i as int]);
        }
        i = i + 1;
    }
    proof {
        assert(dv.take(count as int) =~= dv);
    }
    if entries.len() as u64 > 0xFFFFFFFFu64 {
        return None;
    }
    let strings_start64 = 28u64 + 4u64 * count as u64;
    let total64 = strings_start64 + entries.len() as u64;
    if total64 > 0xFFFFFFFFu64 {
        return None;
    }
    let strings_start = strings_start64 as u32;
    let total = total64 as u32;
    let ghost entv = entries@;
    let mut out: Vec<u8> = Vec::new();
    push_u16_le(&mut out, crate::chunk::CHUNK_TYPE_STRING_POOL);
    push_u16_le(&mut out, 28);
    push_u32_le(&mut out, total);
    push_u32_le(&mut out, count as u32);
    push_u32_le(&mut out, 0);
    push_u32_le(&mut out, crate::pool::UTF8_FLAG);
    push_u32_le(&mut out, strings_start);
    push_u32_le(&mut out, 0);
    let ghost header = out@;
    proof {
        assert(header.len() == 28);
        assert(header.subrange(0, 2) =~= le16_bytes(crate::chunk::CHUNK_TYPE_STRING_POOL));
        assert(header.subrange(2, 4) =~= le16_bytes(28));
        assert(header.subrange(4, 8) =~= le32_bytes(total));
        assert(header.subrange(8, 12) =~= le32_bytes(count as u32));
        assert(header.subrange(16, 20) =~= le32_bytes(crate::pool::UTF8_FLAG));
        assert(header.subrange(20, 24) =~= le32_bytes(strings_start));
    }
    let mut k: usize = 0;
    while k < count
        invariant
            k <= count,
            offsets@.len() == count as nat,
            out@.len() == 28 + 4 * k,
            out@.subrange(0, 28) == header,
            forall|j: int|
                0 <= j < k ==> out@.subrange(28 + 4 * j, 28 + 4 * j + 4) == le32_bytes(
                    offsets@[j],
                ),
        decreases count - k,
    {
        let ghost o0 = out@;
        push_u32_le(&mut out, offsets[k]);
        proof {
            assert(out@.subrange(0, 28) =~= o0.subrange(0, 28));
            assert forall|j: int| 0 <= j < k + 1 implies out@.subrange(28 + 4 * j, 28 + 4 * j + 4)
                == le32_bytes(offsets@[j]) by {
                if j < k {
                    assert(out@.subrange(28 + 4 * j, 28 + 4 * j + 4) =~= o0.subrange(
                        28 + 4 * j,
                        28 + 4 * j + 4,
                    ));
                } else {
                    assert(out@.subrange(28 + 4 * j, 28 + 4 * j + 4) =~= le32_bytes(offsets@[j]));
                }
            }
        }
        k = k + 1;
    }
    let ghost table = out@;
    out.append(&mut entries);
    proof {
        let b = out@;
        assert(b =~= table + entv);
        assert(b.len() == total as int);
        assert(table.len() == strings_start as int);
        assert(b.subrange(0, 28) =~= header.subrange(0, 28));
        assert(b.subrange(0, 28) =~= header);
        assert(b.subrange(0, 2) =~= header.subrange(0, 2));
        assert(b.subrange(2, 4) =~= header.subrange(2, 4));
        assert(b.subrange(4, 8) =~= header.subrange(4, 8));
        assert(b.subrange(8, 12) =~= header.subrange(8, 12));
        assert(b.subrange(16, 20) =~= header.subrange(16, 20));
        assert(b.subrange(20, 24) =~= header.subrange(20, 24));
        lemma_le16_bytes_at(b, 0, crate::chunk::CHUNK_TYPE_STRING_POOL);
        lemma_le16_bytes_at(b, 2, 28);
        lemma_le32_bytes_at(b, 4, total);
        lemma_le32_bytes_at(b, 8, count as u32);
        lemma_le32_bytes_at(b, 16, crate::pool::UTF8_FLAG);
        lemma_le32_bytes_at(b, 20, strings_start);
        assert forall|j: int| 0 <= j < count implies le32_at(b, 28 + 4 * j) == offsets@[j] by {
            assert(table.subrange(28 + 4 * j, 28 + 4 * j + 4) == le32_bytes(offsets@[j]));
            assert(b.subrange(28 + 4 * j, 28 + 4 * j + 4) =~= table.subrange(
                28 + 4 * j,
                28 + 4 * j + 4,
            ));
            lemma_le32_bytes_at(b, 28 + 4 * j, offsets@[j]);
        }
        lemma_offsets_round_trip(b, 28, offsets@);
        assert forall|j: int| 0 <= j < count implies entry_placed(
            b,
            strings_start + offsets@[j],
            dv[j],
        ) by {
            let o = offsets@[j] as int;
            let l = spec_encode_utf8_entry(dv[j]).len() as int;
            assert(entry_placed(entv, o, dv[j]));
            assert(b.subrange(strings_start + o, strings_start + o + l) =~= entv.subrange(
                o,
                o + l,
            ));
        }
        lemma_texts_round_trip(b, strings_start as int, offsets@, dv);
        assert(crate::pool::UTF8_FLAG & crate::pool::UTF8_FLAG != 0) by (bit_vector);
        assert(dv.len() == count as nat);
        assert(offsets@.len() == count as u32 as nat);
    }
    Some(out)
}

/// The pool round trip at the chunk level: dispatching an encoded string
/// pool as a chunk, against any pool already loaded, succeeds, appends
/// exactly the encoded texts in order, yields no elements, and ends at the
/// chunk's end.
pub proof fn lemma_pool_chunk_round_trip(b: Seq<u8>, pool: Seq<Seq<char>>, ts: Seq<Seq<char>>)
    requires
        crate::pool::spec_string_pool(b, 0) == Ok::<Seq<Seq<char>>, DecodeError>(ts),
        le16_at(b, 0) == crate::chunk::CHUNK_TYPE_STRING_POOL,
        le16_at(b, 2) == 28,
        le32_at(b, 4) as int == b.len(),
        b.len() >= 28,
    ensures
        crate::chunk::spec_chunk(b, 0, pool) == Ok::<crate::chunk::ChunkOut, DecodeError>(
            crate::chunk::ChunkOut { strings: pool + ts, elems: Seq::empty(), end: b.len() as int },
        ),
{
}

} // verus!


