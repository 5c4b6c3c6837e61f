//! The chunk dispatcher.
//!
//! Every chunk starts with an 8-byte header: a 16-bit type code, a 16-bit
//! header size and a 32-bit total size, all little-endian. The dispatcher
//! reads the header, validates `8 <= header_size <= total_size` and that the
//! chunk's region lies within the buffer, and routes: an `XML` chunk is a
//! container whose children are dispatched recursively; a `STRING_POOL`
//! chunk extends the string pool; an `XML_START_ELEMENT` chunk yields one
//! element; every other type is skipped to its end offset.
use vstd::prelude::*;

use crate::cursor::ChunkCursor;
use crate::cursor::le16_at;
use crate::cursor::le32_at;
use crate::element::Element;
use crate::element::ElementModel;
use crate::element::read_xml_start_element_chunk;
use crate::element::spec_element;
use crate::error::DecodeError;
use crate::pool::read_string_pool_chunk;
use crate::pool::spec_string_pool;

verus! {

/// Chunk type code: the document-root container.
pub const CHUNK_TYPE_XML: u16 = 0x0003;

/// Chunk type code: a string pool.
pub const CHUNK_TYPE_STRING_POOL: u16 = 0x0001;

/// Chunk type code: a start element.
pub const CHUNK_TYPE_XML_START_ELEMENT: u16 = 0x0102;

/// The decode state of one document: the interned strings, in pool order,
/// and every decoded start element, in document order.
#[derive(Debug)]
pub struct Context {
    pub strings_pool: Vec<String>,
    pub elements: Vec<Element>,
}

impl Context {
    /// A fresh decode state with an empty pool and no elements.
    pub fn new() -> (c: Context)
        ensures
            c.strings_pool@ == Seq::<String>::empty(),
            c.elements@ == Seq::<Element>::empty(),
    {
        Context { strings_pool: Vec::new(), elements: Vec::new() }
    }
}

/// What decoding one chunk produces: the whole string pool afterwards, the
/// elements the chunk contributed, and the cursor position afterwards.
pub ghost struct ChunkOut {
    pub strings: Seq<Seq<char>>,
    pub elems: Seq<ElementModel>,
    pub end: int,
}

/// One chunk decoded at `p` against the pool `pool`. The chunk ends, and
/// leaves the position, at exactly `p` plus its declared total size.
pub open spec fn spec_chunk(b: Seq<u8>, p: int, pool: Seq<Seq<char>>) -> Result<
    ChunkOut,
    DecodeError,
>
    decreases b.len() - p, 1int,
{
    if p < 0 || p + 8 > b.len() {
        Err(DecodeError::Truncated)
    } else {
        let ctype = le16_at(b, p);
        let hs = le16_at(b, p + 2);
        let total = le32_at(b, p + 4);
        if hs < 8 || total < hs as u32 || p + total > b.len() {
            Err(DecodeError::Malformed)
        } else if ctype == CHUNK_TYPE_XML {
            match spec_children(b, p + 8, p + total, pool) {
                Err(e) => Err(e),
                Ok(out) => Ok(ChunkOut { strings: out.strings, elems: out.elems, end: p + total }),
            }
        } else if ctype == CHUNK_TYPE_STRING_POOL {
            match spec_string_pool(b, p) {
                Err(e) => Err(e),
                Ok(ts) => Ok(
                    ChunkOut { strings: pool + ts, elems: Seq::empty(), end: p + total },
                ),
            }
        } else if ctype == CHUNK_TYPE_XML_START_ELEMENT {
            match spec_element(b, p, hs, pool) {
                Err(e) => Err(e),
                Ok(el) => Ok(ChunkOut { strings: pool, elems: seq![el], end: p + total }),
            }
        } else {
            Ok(ChunkOut { strings: pool, elems: Seq::empty(), end: p + total })
        }
    }
}

/// The chunks decoded one after another from `p` while the position stays
/// below `end`, each starting where the previous one ended.
pub open spec fn spec_children(b: Seq<u8>, p: int, end: int, pool: Seq<Seq<char>>) -> Result<
    ChunkOut,
    DecodeError,
>
    decreases b.len() - p, 2int,
{
    if p >= end {
        Ok(ChunkOut { strings: pool, elems: Seq::empty(), end: p })
    } else if p < 0 || p + 8 > b.len() {
        Err(DecodeError::Truncated)
    } else {
        let hs = le16_at(b, p + 2);
        let total = le32_at(b, p + 4);
        if hs < 8 || total < hs as u32 || p + total > b.len() {
            Err(DecodeError::Malformed)
        } else {
            match spec_chunk(b, p, pool) {
                Err(e) => Err(e),
                Ok(out) => match spec_children(b, p + total, end, out.strings) {
                    Err(e) => Err(e),
                    Ok(rest) => Ok(
                        ChunkOut {
                            strings: rest.strings,
                            elems: out.elems + rest.elems,
                            end: rest.end,
                        },
                    ),
                },
            }
        }
    }
}

/// Reads one chunk at the cursor and dispatches on its type, extending the
/// context's pool and element list exactly as `spec_chunk` describes and
/// leaving the cursor at the chunk's declared end.
#[verifier::rlimit(100)]
#[verifier::loop_isolation(false)]
pub fn read_chunk(context: &mut Context, cursor: &mut ChunkCursor) -> (r: Result<(), DecodeError>)
    requires
        old(cursor).wf(),
    ensures
        final(cursor).bytes() == old(cursor).bytes(),
        final(cursor).wf(),
        r is Ok ==> ({
            let out = spec_chunk(
                old(cursor).bytes(),
                old(cursor).pos(),
                old(context).strings_pool.deep_view(),
            );
            out is Ok && final(context).strings_pool.deep_view() == out->Ok_0.strings && final(
                context).elements.deep_view() == old(context).elements.deep_view()
                + out->Ok_0.elems && final(cursor).pos() == out->Ok_0.end
        }),
        r is Err ==> spec_chunk(
            old(cursor).bytes(),
            old(cursor).pos(),
            old(context).strings_pool.deep_view(),
        ) == Err::<ChunkOut, DecodeError>(r->Err_0),
    decreases old(cursor).bytes().len() - old(cursor).pos(), 1int,
{
    let ghost b = old(cursor).bytes();
    let ghost p = old(cursor).pos();
    let ghost pool0 = old(context).strings_pool.deep_view();
    let ghost el0 = old(context).elements.deep_view();
    let chunk_offset = cursor.position();
    let chunk_type = cursor.read_u16_le()?;
    let header_size = cursor.read_u16_le()?;
    let chunk_size = cursor.read_u32_le()?;
    let limit = cursor.len();
    if header_size < 8 || chunk_size < header_size as u32 || chunk_size as u64 > (limit as u64
        - chunk_offset as u64) {
        return Err(DecodeError::Malformed);
    }
    let end = chunk_offset + chunk_size as usize;
    if chunk_type == CHUNK_TYPE_XML {
        read_children(context, cursor, end)?;
        cursor.seek(end)?;
        Ok(())
    } else if chunk_type == CHUNK_TYPE_STRING_POOL {
        read_string_pool_chunk(&mut context.strings_pool, cursor, chunk_offset, chunk_size)?;
        proof {
            assert(el0 + Seq::<ElementModel>::empty() =~= el0);
        }
        Ok(())
    } else if chunk_type == CHUNK_TYPE_XML_START_ELEMENT {
        read_xml_start_element_chunk(
            &context.strings_pool,
            &mut context.elements,
            cursor,
            chunk_offset,
            header_size,
            chunk_size,
        )?;
        proof {
            let el = spec_element(b, p, header_size, pool0)->Ok_0;
            assert(el0 + seq![el] =~= el0.push(el));
        }
        Ok(())
    } else {
        cursor.seek(end)?;
        proof {
            assert(el0 + Seq::<ElementModel>::empty() =~= el0);
        }
        Ok(())
    }
}

/// Decodes consecutive child chunks until the position reaches `end`.
#[verifier::rlimit(100)]
#[verifier::loop_isolation(false)]
fn read_children(context: &mut Context, cursor: &mut ChunkCursor, end: usize) -> (r: Result<
    (),
    DecodeError,
>)
    requires
        old(cursor).wf(),
        end <= old(cursor).bytes().len(),
    ensures
        final(cursor).bytes() == old(cursor).bytes(),
        final(cursor).wf(),
        r is Ok ==> ({
            let out = spec_children(
                old(cursor).bytes(),
                old(cursor).pos(),
                end as int,
                old(context).strings_pool.deep_view(),
            );
            out is Ok && final(context).strings_pool.deep_view() == out->Ok_0.strings && final(
                context).elements.deep_view() == old(context).elements.deep_view()
                + out->Ok_0.elems && final(cursor).pos() == out->Ok_0.end
        }),
        r is Err ==> spec_children(
            old(cursor).bytes(),
            old(cursor).pos(),
            end as int,
            old(context).strings_pool.deep_view(),
        ) == Err::<ChunkOut, DecodeError>(r->Err_0),
    decreases old(cursor).bytes().len() - old(cursor).pos(), 2int,
{
    let ghost b = old(cursor).bytes();
    let ghost p = old(cursor).pos();
    let ghost pool0 = old(context).strings_pool.deep_view();
    let ghost el0 = old(context).elements.deep_view();
    proof {
        assert(el0 =~= context.elements.deep_view().take(el0.len() as int));
    }
    while cursor.position() < end
        invariant
            cursor.wf(),
            cursor.bytes() == b,
            cursor.pos() >= p,
            el0.len() <= context.elements.deep_view().len(),
            el0 =~= context.elements.deep_view().take(el0.len() as int),
            ({
                let added = context.elements.deep_view().skip(el0.len() as int);
                let whole = spec_children(b, p, end as int, pool0);
                match spec_children(
                    b,
                    cursor.pos(),
                    end as int,
                    context.strings_pool.deep_view(),
                ) {
                    Ok(rest) => whole == Ok::<ChunkOut, DecodeError>(
                        ChunkOut {
                            strings: rest.strings,
                            elems: added + rest.elems,
                            end: rest.end,
                        },
                    ),
                    Err(e) => whole == Err::<ChunkOut, DecodeError>(e),
                }
            }),
        decreases b.len() - cursor.pos(),
    {
        let ghost cp = cursor.pos();
        let ghost poolc = context.strings_pool.deep_view();
        let ghost elc = context.elements.deep_view();
        let ghost addedc = elc.skip(el0.len() as int);
        match read_chunk(context, cursor) {
            Err(e) => {
                return Err(e);
            },
            Ok(()) => {},
        }
        proof {
            let out = spec_chunk(b, cp, poolc)->Ok_0;
            assert(out.end == cp + le32_at(b, cp + 4) && le32_at(b, cp + 4) >= 8);
            assert(cursor.pos() > cp);
            let added2 = context.elements.deep_view().skip(el0.len() as int);
            assert(context.elements.deep_view() =~= elc + out.elems);
            assert(added2 =~= addedc + out.elems);
            assert(el0 =~= context.elements.deep_view().take(el0.len() as int));
            if spec_children(b, cursor.pos(), end as int, context.strings_pool.deep_view()) is Ok {
                let rest = spec_children(
                    b,
                    cursor.pos(),
                    end as int,
                    context.strings_pool.deep_view(),
                )->Ok_0;
                assert(addedc + (out.elems + rest.elems) =~= added2 + rest.elems);
            }
        }
    }
    proof {
        let added = context.elements.deep_view().skip(el0.len() as int);
        assert(added + Seq::<ElementModel>::empty() =~= added);
        assert(el0 + added =~= context.elements.deep_view());
    }
    Ok(())
}

/// Decodes one whole document from `buf`: dispatches the root chunk and
/// hands back the resulting pool and elements.
pub fn decode_document(buf: Vec<u8>) -> (r: Result<Context, DecodeError>)
    ensures
        r is Ok ==> ({
            let out = spec_chunk(buf@, 0, Seq::empty());
            out is Ok && r->Ok_0.strings_pool.deep_view() == out->Ok_0.strings
                && r->Ok_0.elements.deep_view() == out->Ok_0.elems
        }),
        r is Err ==> spec_chunk(buf@, 0, Seq::empty()) == Err::<ChunkOut, DecodeError>(r->Err_0),
{
    let mut context = Context::new();
    let mut cursor = ChunkCursor::new(buf);
    proof {
        assert(context.strings_pool.deep_view() =~= Seq::<Seq<char>>::empty());
        assert(context.elements.deep_view() =~= Seq::<ElementModel>::empty());
    }
    match read_chunk(&mut context, &mut cursor) {
        Ok(()) => {
            proof {
                let out = spec_chunk(cursor.bytes(), 0, Seq::empty())->Ok_0;
                assert(Seq::<ElementModel>::empty() + out.elems =~= out.elems);
            }
            Ok(context)
        },
        Err(e) => Err(e),
    }
}

/// The dispatcher's position invariant: decoding any chunk that succeeds
/// leaves the position exactly at the chunk's offset plus its declared
/// total size, so the next sibling's header is read right there.
pub proof fn lemma_chunk_end_position(b: Seq<u8>, p: int, pool: Seq<Seq<char>>)
    requires
        spec_chunk(b, p, pool) is Ok,
    ensures
        spec_chunk(b, p, pool)->Ok_0.end == p + le32_at(b, p + 4),
        p + 8 <= b.len(),
        8 <= le32_at(b, p + 4),
        p + le32_at(b, p + 4) <= b.len(),
{
}

/// An unknown chunk type is skipped to its end offset: it contributes no
/// strings and no elements, so the siblings after it decode exactly as they
/// would without it.
pub proof fn lemma_unknown_chunk_skipped(b: Seq<u8>, p: int, pool: Seq<Seq<char>>)
    requires
        0 <= p,
        p + 8 <= b.len(),
        le16_at(b, p) != CHUNK_TYPE_XML,
        le16_at(b, p) != CHUNK_TYPE_STRING_POOL,
        le16_at(b, p) != CHUNK_TYPE_XML_START_ELEMENT,
        8 <= le16_at(b, p + 2),
        le16_at(b, p + 2) as u32 <= le32_at(b, p + 4),
        p + le32_at(b, p + 4) <= b.len(),
    ensures
        spec_chunk(b, p, pool) == Ok::<ChunkOut, DecodeError>(
            ChunkOut { strings: pool, elems: Seq::empty(), end: p + le32_at(b, p + 4) },
        ),
{
}

/// A chunk whose declared total size would place its end past the buffer is
/// rejected as `Malformed`, whatever its type: no partial output exists.
pub proof fn lemma_oversized_chunk_rejected(b: Seq<u8>, p: int, pool: Seq<Seq<char>>)
    requires
        0 <= p,
        p + 8 <= b.len(),
        p + le32_at(b, p + 4) > b.len(),
    ensures
        spec_chunk(b, p, pool) == Err::<ChunkOut, DecodeError>(DecodeError::Malformed),
{
}

} // verus!


