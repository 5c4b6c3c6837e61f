//! The string pool decoder.
//!
//! A `STRING_POOL` chunk interns every piece of text of the document. Its
//! header counts the strings and locates an offset table; each offset, taken
//! relative to the pool's string data region, locates one entry. An entry
//! carries its text either as UTF-8 (a character count and a byte count, each
//! in a two-tier short/long scheme over 32-bit fields, then that many bytes)
//! or as UTF-16 (a unit count in a two-tier scheme over 16-bit fields, then
//! that many 16-bit units).
use vstd::prelude::*;
use vstd::utf8::valid_utf8;
use vstd::utf8::decode_utf8;

use crate::cursor::ChunkCursor;
use crate::cursor::le16_at;
use crate::cursor::le32_at;
use crate::error::DecodeError;
use crate::utf16::valid_utf16;
use crate::utf16::decode_utf16;
use crate::utf16::utf16_to_string;

verus! {

/// The string pool's header flag marking UTF-8 entries.
pub const UTF8_FLAG: u32 = 0x100;

/// A two-tier length field of the UTF-8 scheme, read at `p`: one 32-bit
/// little-endian field, or two when bit 15 of the first marks a continuation,
/// combined as `(first & 0x7FFF) << 8 | (second & 0xFFFF)`. Yields the value
/// and the position just past the field.
pub open spec fn spec_len_utf8(b: Seq<u8>, p: int) -> Result<(u32, int), DecodeError>
    recommends
        0 <= p,
{
    if p + 4 > b.len() {
        Err(DecodeError::Truncated)
    } else {
        let l = le32_at(b, p);
        if l & 0x8000 != 0 {
            if p + 8 > b.len() {
                Err(DecodeError::Truncated)
            } else {
                Ok((((l & 0x7FFF) << 8) | (le32_at(b, p + 4) & 0xFFFF), p + 8))
            }
        } else {
            Ok((l, p + 4))
        }
    }
}

/// A two-tier length field of the UTF-16 scheme, read at `p`: one 16-bit
/// little-endian field, or two combined as `(first & 0x7FFF) << 16 | second`
/// when bit 15 of the first is set.
pub open spec fn spec_len_utf16(b: Seq<u8>, p: int) -> Result<(u32, int), DecodeError>
    recommends
        0 <= p,
{
    if p + 2 > b.len() {
        Err(DecodeError::Truncated)
    } else {
        let l = le16_at(b, p) as u32;
        if l & 0x8000 != 0 {
            if p + 4 > b.len() {
                Err(DecodeError::Truncated)
            } else {
                Ok((((l & 0x7FFF) << 16) | (le16_at(b, p + 2) as u32), p + 4))
            }
        } else {
            Ok((l, p + 2))
        }
    }
}

/// One UTF-8 pool entry at `p`: a character count (only used for
/// pre-allocation, so discarded), a byte count, then that many bytes of
/// UTF-8 text.
pub open spec fn spec_utf8_entry(b: Seq<u8>, p: int) -> Result<Seq<char>, DecodeError>
    recommends
        0 <= p,
{
    match spec_len_utf8(b, p) {
        Err(e) => Err(e),
        Ok((char_count, p1)) => match spec_len_utf8(b, p1) {
            Err(e) => Err(e),
            Ok((byte_len, p2)) => {
                if p2 + byte_len > b.len() {
                    Err(DecodeError::OutOfBounds)
                } else {
                    let payload = b.subrange(p2, p2 + byte_len);
                    if valid_utf8(payload) {
                        Ok(decode_utf8(payload))
                    } else {
                        Err(DecodeError::InvalidEncoding)
                    }
                }
            },
        },
    }
}

/// One UTF-16 pool entry at `p`: a unit count, then that many 16-bit
/// little-endian code units.
pub open spec fn spec_utf16_entry(b: Seq<u8>, p: int) -> Result<Seq<char>, DecodeError>
    recommends
        0 <= p,
{
    match spec_len_utf16(b, p) {
        Err(e) => Err(e),
        Ok((unit_count, p1)) => {
            if p1 + 2 * unit_count > b.len() {
                Err(DecodeError::OutOfBounds)
            } else {
                let units = Seq::new(unit_count as nat, |k: int| le16_at(b, p1 + 2 * k));
                if valid_utf16(units) {
                    Ok(decode_utf16(units))
                } else {
                    Err(DecodeError::InvalidEncoding)
                }
            }
        },
    }
}

/// The `n` 32-bit entry offsets read consecutively from `p`.
pub open spec fn spec_offsets(b: Seq<u8>, p: int, n: nat) -> Result<Seq<u32>, DecodeError>
    decreases n,
{
    if n == 0 {
        Ok(Seq::empty())
    } else if p + 4 > b.len() {
        Err(DecodeError::Truncated)
    } else {
        match spec_offsets(b, p + 4, (n - 1) as nat) {
            Err(e) => Err(e),
            Ok(rest) => Ok(seq![le32_at(b, p)] + rest),
        }
    }
}

/// The texts of the entries located by `offs`, each offset relative to
/// `base`, in table order.
pub open spec fn spec_texts(b: Seq<u8>, base: int, offs: Seq<u32>, is_utf8: bool) -> Result<
    Seq<Seq<char>>,
    DecodeError,
>
    decreases offs.len(),
{
    if offs.len() == 0 {
        Ok(Seq::empty())
    } else {
        let off = base + offs[0];
        if off > b.len() {
            Err(DecodeError::OutOfBounds)
        } else {
            let entry = if is_utf8 {
                spec_utf8_entry(b, off)
            } else {
                spec_utf16_entry(b, off)
            };
            match entry {
                Err(e) => Err(e),
                Ok(t) => match spec_texts(b, base, offs.skip(1), is_utf8) {
                    Err(e) => Err(e),
                    Ok(rest) => Ok(seq![t] + rest),
                },
            }
        }
    }
}

/// The whole `STRING_POOL` chunk at `off`: the five header fields after the
/// 8-byte chunk header, the offset table, then every entry, in table order.
pub open spec fn spec_string_pool(b: Seq<u8>, off: int) -> Result<Seq<Seq<char>>, DecodeError>
    recommends
        0 <= off,
{
    if off + 28 > b.len() {
        Err(DecodeError::Truncated)
    } else {
        let string_count = le32_at(b, off + 8);
        let flags = le32_at(b, off + 16);
        let strings_start = le32_at(b, off + 20);
        let is_utf8 = flags & UTF8_FLAG != 0;
        match spec_offsets(b, off + 28, string_count as nat) {
            Err(e) => Err(e),
            Ok(offs) => spec_texts(b, off + strings_start, offs, is_utf8),
        }
    }
}

/// Relies on `String::from_utf8`: it succeeds exactly on valid UTF-8 input
/// and yields the characters that input encodes.
#[verifier::external_body]
fn utf8_to_string(bytes: Vec<u8>) -> (r: Option<String>)
    ensures
        r is Some <==> valid_utf8(bytes@),
        r is Some ==> r->0@ == decode_utf8(bytes@),
{
    match String::from_utf8(bytes) {
        Ok(s) => Some(s),
        Err(_) => None,
    }
}

/// Reads a two-tier UTF-8-scheme length field at the cursor.
pub fn read_len_utf8(cursor: &mut ChunkCursor) -> (r: Result<u32, DecodeError>)
    requires
        old(cursor).wf(),
    ensures
        final(cursor).bytes() == old(cursor).bytes(),
        final(cursor).wf(),
        r is Ok ==> spec_len_utf8(old(cursor).bytes(), old(cursor).pos()) == Ok::<
            (u32, int),
            DecodeError,
        >((r->Ok_0, final(cursor).pos())),
        r is Err ==> spec_len_utf8(old(cursor).bytes(), old(cursor).pos()) == Err::<
            (u32, int),
            DecodeError,
        >(r->Err_0),
{
    let l = cursor.read_u32_le()?;
    if l & 0x8000 != 0 {
        let l2 = cursor.read_u32_le()?;
        Ok(((l & 0x7FFF) << 8) | (l2 & 0xFFFF))
    } else {
        Ok(l)
    }
}

/// Reads a two-tier UTF-16-scheme length field at the cursor.
pub fn read_len_utf16(cursor: &mut ChunkCursor) -> (r: Result<u32, DecodeError>)
    requires
        old(cursor).wf(),
    ensures
        final(cursor).bytes() == old(cursor).bytes(),
        final(cursor).wf(),
        r is Ok ==> spec_len_utf16(old(cursor).bytes(), old(cursor).pos()) == Ok::<
            (u32, int),
            DecodeError,
        >((r->Ok_0, final(cursor).pos())),
        r is Err ==> spec_len_utf16(old(cursor).bytes(), old(cursor).pos()) == Err::<
            (u32, int),
            DecodeError,
        >(r->Err_0),
{
    let l16 = cursor.read_u16_le()?;
    let l = l16 as u32;
    if l & 0x8000 != 0 {
        let l2 = cursor.read_u16_le()?;
        Ok(((l & 0x7FFF) << 16) | (l2 as u32))
    } else {
        Ok(l)
    }
}

/// Decodes one UTF-8 pool entry at the cursor.
pub fn read_utf8_entry(cursor: &mut ChunkCursor) -> (r: Result<String, DecodeError>)
    requires
        old(cursor).wf(),
    ensures
        final(cursor).bytes() == old(cursor).bytes(),
        final(cursor).wf(),
        r is Ok ==> spec_utf8_entry(old(cursor).bytes(), old(cursor).pos()) == Ok::<
            Seq<char>,
            DecodeError,
        >(r->Ok_0@),
        r is Err ==> spec_utf8_entry(old(cursor).bytes(), old(cursor).pos()) == Err::<
            Seq<char>,
            DecodeError,
        >(r->Err_0),
{
    let _char_count = read_len_utf8(cursor)?;
    let byte_len = read_len_utf8(cursor)?;
    let here = cursor.position();
    if (byte_len as u64) > (cursor.len() as u64) - (here as u64) {
        return Err(DecodeError::OutOfBounds);
    }
    let payload = cursor.read_exact(byte_len as usize)?;
    match utf8_to_string(payload) {
        Some(s) => Ok(s),
        None => Err(DecodeError::InvalidEncoding),
    }
}

/// Decodes one UTF-16 pool entry at the cursor.
pub fn read_utf16_entry(cursor: &mut ChunkCursor) -> (r: Result<String, DecodeError>)
    requires
        old(cursor).wf(),
    ensures
        final(cursor).bytes() == old(cursor).bytes(),
        final(cursor).wf(),
        r is Ok ==> spec_utf16_entry(old(cursor).bytes(), old(cursor).pos()) == Ok::<
            Seq<char>,
            DecodeError,
        >(r->Ok_0@),
        r is Err ==> spec_utf16_entry(old(cursor).bytes(), old(cursor).pos()) == Err::<
            Seq<char>,
            DecodeError,
        >(r->Err_0),
{
    let unit_count = read_len_utf16(cursor)?;
    let here = cursor.position();
    let ghost b = cursor.bytes();
    let ghost p1 = cursor.pos();
    if 2 * (unit_count as u64) > (cursor.len() as u64) - (here as u64) {
        return Err(DecodeError::OutOfBounds);
    }
    let mut units: Vec<u16> = Vec::new();
    let mut i: u32 = 0;
    while i < unit_count
        invariant
            cursor.wf(),
            cursor.bytes() == b,
            i <= unit_count,
            cursor.pos() == p1 + 2 * i,
            p1 + 2 * unit_count <= b.len(),
            units@.len() == i as nat,
            forall|k: int| 0 <= k < i ==> units@[k] == le16_at(b, p1 + 2 * k),
        decreases unit_count - i,
    {
        let u = match cursor.read_u16_le() {
            Ok(u) => u,
            Err(_) => {
                proof {
                    assert(false);
                }
                return Err(DecodeError::Truncated);
            },
        };
        units.push(u);
        i = i + 1;
    }
    proof {
        assert(units@ =~= Seq::new(unit_count as nat, |k: int| le16_at(b, p1 + 2 * k)));
    }
    utf16_to_string(&units)
}


/// Decodes one `STRING_POOL` chunk whose header the dispatcher has already
/// read and validated, appending every decoded text to `pool` in table
/// order and leaving the cursor at the chunk's end.
#[verifier::rlimit(100)]
#[verifier::loop_isolation(false)]
pub fn read_string_pool_chunk(
    pool: &mut Vec<String>,
    cursor: &mut ChunkCursor,
    chunk_offset: usize,
    chunk_size: u32,
) -> (r: Result<(), DecodeError>)
    requires
        old(cursor).wf(),
        old(cursor).pos() == chunk_offset + 8,
        chunk_offset + chunk_size <= old(cursor).bytes().len(),
    ensures
        final(cursor).bytes() == old(cursor).bytes(),
        final(cursor).wf(),
        r is Ok ==> spec_string_pool(old(cursor).bytes(), chunk_offset as int) is Ok && final(
            pool).deep_view() == old(pool).deep_view() + spec_string_pool(
            old(cursor).bytes(),
            chunk_offset as int,
        )->Ok_0 && final(cursor).pos() == chunk_offset + chunk_size,
        r is Err ==> spec_string_pool(old(cursor).bytes(), chunk_offset as int) == Err::<
            Seq<Seq<char>>,
            DecodeError,
        >(r->Err_0) && final(pool)@ == old(pool)@,
{
    let ghost b = old(cursor).bytes();
    let ghost off = chunk_offset as int;
    let string_count = cursor.read_u32_le()?;
    let _style_count = cursor.read_u32_le()?;
    let flags = cursor.read_u32_le()?;
    let strings_start = cursor.read_u32_le()?;
    let _styles_start = cursor.read_u32_le()?;
    let is_utf8 = flags & UTF8_FLAG != 0;
    let mut offs: Vec<u32> = Vec::new();
    let mut i: u32 = 0;
    proof {
        if spec_offsets(b, off + 28, string_count as nat) is Ok {
            assert(offs@ + spec_offsets(b, off + 28, string_count as nat)->Ok_0 =~= spec_offsets(
                b,
                off + 28,
                string_count as nat,
            )->Ok_0);
        }
    }
    while i < string_count
        invariant
            cursor.wf(),
            cursor.bytes() == b,
            i <= string_count,
            cursor.pos() == off + 28 + 4 * i,
            offs@.len() == i as nat,
            ({
                let whole = spec_offsets(b, off + 28, string_count as nat);
                match spec_offsets(b, off + 28 + 4 * i, (string_count - i) as nat) {
                    Ok(rest) => whole == Ok::<Seq<u32>, DecodeError>(offs@ + rest),
                    Err(e) => whole == Err::<Seq<u32>, DecodeError>(e),
                }
            }),
        decreases string_count - i,
    {
        let ghost offs0 = offs@;
        let ghost rp = cursor.pos();
        let o = cursor.read_u32_le()?;
        offs.push(o);
        proof {
            if spec_offsets(b, rp + 4, (string_count - i - 1) as nat) is Ok {
                let rest1 = spec_offsets(b, rp + 4, (string_count - i - 1) as nat)->Ok_0;
                assert(offs0 + (seq![o] + rest1) =~= offs0.push(o) + rest1);
            }
            assert(offs@ =~= offs0.push(o));
        }
        i = i + 1;
    }
    proof {
        assert(spec_offsets(b, off + 28 + 4 * i, (string_count - i) as nat) == Ok::<
            Seq<u32>,
            DecodeError,
        >(Seq::empty()));
        assert(offs@ + Seq::<u32>::empty() =~= offs@);
    }
    let ghost base = off + strings_start;
    let mut texts: Vec<String> = Vec::new();
    let mut k: usize = 0;
    proof {
        assert(offs@.skip(0) =~= offs@);
        if spec_texts(b, base, offs@, is_utf8) is Ok {
            assert(texts.deep_view() + spec_texts(b, base, offs@, is_utf8)->Ok_0 =~= spec_texts(
                b,
                base,
                offs@,
                is_utf8,
            )->Ok_0);
        }
    }
    while k < offs.len()
        invariant
            cursor.wf(),
            cursor.bytes() == b,
            k <= offs@.len(),
            ({
                let whole = spec_texts(b, base, offs@, is_utf8);
                match spec_texts(b, base, offs@.skip(k as int), is_utf8) {
                    Ok(rest) => whole == Ok::<Seq<Seq<char>>, DecodeError>(
                        texts.deep_view() + rest,
                    ),
                    Err(e) => whole == Err::<Seq<Seq<char>>, DecodeError>(e),
                }
            }),
        decreases offs@.len() - k,
    {
        let ghost restoffs = offs@.skip(k as int);
        let ghost texts0 = texts.deep_view();
        let o = offs[k];
        assert(restoffs[0] == o);
        let abs128 = chunk_offset as u128 + strings_start as u128 + o as u128;
        if abs128 > cursor.len() as u128 {
            return Err(DecodeError::OutOfBounds);
        }
        cursor.seek(abs128 as usize)?;
        let entry = if is_utf8 {
            read_utf8_entry(cursor)
        } else {
            read_utf16_entry(cursor)
        };
        match entry {
            Err(e) => {
                return Err(e);
            },
            Ok(s) => {
                proof {
                    assert(restoffs.skip(1) =~= offs@.skip(k as int + 1));
                }
                texts.push(s);
                proof {
                    assert(texts.deep_view() =~= texts0.push(s@));
                    if spec_texts(b, base, offs@.skip(k as int + 1), is_utf8) is Ok {
                        let rest1 = spec_texts(b, base, offs@.skip(k as int + 1), is_utf8)->Ok_0;
                        assert(texts0 + (seq![s@] + rest1) =~= texts0.push(s@) + rest1);
                    }
                }
                k = k + 1;
            },
        }
    }
    proof {
        assert(offs@.skip(k as int) =~= Seq::<u32>::empty());
        assert(texts.deep_view() + Seq::<Seq<char>>::empty() =~= texts.deep_view());
    }
    let limit = cursor.len();
    proof {
        assert(chunk_offset + chunk_size <= limit);
    }
    let end = chunk_offset + chunk_size as usize;
    cursor.seek(end)?;
    let ghost pool0 = pool.deep_view();
    let ghost added = texts.deep_view();
    pool.append(&mut texts);
    proof {
        assert(pool.deep_view() =~= pool0 + added);
    }
    Ok(())
}

} // verus!

