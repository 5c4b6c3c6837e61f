//! The element/attribute decoder.
//!
//! An `XML_START_ELEMENT` chunk carries the tag name as a string-pool index
//! and a variable-length array of attribute records. Each record names the
//! attribute through the pool and carries a typed value union; string-typed
//! values resolve through the pool, integer and boolean values are taken
//! from the union's data word, and any other type is exposed opaquely.
use vstd::prelude::*;

use crate::cursor::ChunkCursor;
use crate::cursor::le16_at;
use crate::cursor::le32_at;
use crate::error::DecodeError;

verus! {

/// Typed-value code for a string resolved through the pool.
pub const VALUE_TYPE_STRING: u8 = 0x03;

/// Typed-value code for a decimal integer.
pub const VALUE_TYPE_INT_DEC: u8 = 0x10;

/// Typed-value code for a boolean (any nonzero data word is true).
pub const VALUE_TYPE_INT_BOOLEAN: u8 = 0x12;

/// One attribute's resolved value.
#[derive(Debug, Clone, PartialEq, Eq)]
pub enum AttributeValue {
    /// A string-typed value, resolved through the string pool.
    Text(String),
    /// A decimal integer; the raw 32-bit data word.
    Integer(u32),
    /// A boolean: true exactly when the data word is nonzero.
    Boolean(bool),
    /// Any other typed value, exposed as its raw type code and data word.
    Opaque(u8, u32),
}

/// One decoded attribute: its name resolved through the string pool, and its
/// value.
#[derive(Debug, Clone, PartialEq, Eq)]
pub struct Attribute {
    pub name: String,
    pub value: AttributeValue,
}

/// One decoded start element: its tag name and its attributes, in record
/// order.
#[derive(Debug, Clone, PartialEq, Eq)]
pub struct Element {
    pub tag: String,
    pub attributes: Vec<Attribute>,
}

/// The mathematical shape of an attribute value.
pub ghost enum ValueModel {
    Text(Seq<char>),
    Integer(u32),
    Boolean(bool),
    Opaque(u8, u32),
}

/// The mathematical shape of an attribute.
pub ghost struct AttributeModel {
    pub name: Seq<char>,
    pub value: ValueModel,
}

/// The mathematical shape of an element.
pub ghost struct ElementModel {
    pub tag: Seq<char>,
    pub attributes: Seq<AttributeModel>,
}

impl View for AttributeValue {
    type V = ValueModel;

    open spec fn view(&self) -> ValueModel {
        match self {
            AttributeValue::Text(s) => ValueModel::Text(s@),
            AttributeValue::Integer(x) => ValueModel::Integer(*x),
            AttributeValue::Boolean(v) => ValueModel::Boolean(*v),
            AttributeValue::Opaque(t, d) => ValueModel::Opaque(*t, *d),
        }
    }
}

impl DeepView for AttributeValue {
    type V = ValueModel;

    open spec fn deep_view(&self) -> ValueModel {
        self.view()
    }
}

impl View for Attribute {
    type V = AttributeModel;

    open spec fn view(&self) -> AttributeModel {
        AttributeModel { name: self.name@, value: self.value@ }
    }
}

impl DeepView for Attribute {
    type V = AttributeModel;

    open spec fn deep_view(&self) -> AttributeModel {
        self.view()
    }
}

impl View for Element {
    type V = ElementModel;

    open spec fn view(&self) -> ElementModel {
        ElementModel { tag: self.tag@, attributes: self.attributes.deep_view() }
    }
}

impl DeepView for Element {
    type V = ElementModel;

    open spec fn deep_view(&self) -> ElementModel {
        self.view()
    }
}

/// The `n` attribute records read consecutively from `p`, resolved against
/// `pool`.
pub open spec fn spec_attrs(b: Seq<u8>, p: int, n: nat, pool: Seq<Seq<char>>) -> Result<
    Seq<AttributeModel>,
    DecodeError,
>
    decreases n,
{
    if n == 0 {
        Ok(Seq::empty())
    } else if p + 20 > b.len() {
        Err(DecodeError::Truncated)
    } else {
        let name = le32_at(b, p + 4);
        let raw_value = le32_at(b, p + 8);
        let vtype = b[p + 15];
        let data = le32_at(b, p + 16);
        if name as nat >= pool.len() {
            Err(DecodeError::Malformed)
        } else if vtype == VALUE_TYPE_STRING && raw_value as nat >= pool.len() {
            Err(DecodeError::Malformed)
        } else {
            let value = if vtype == VALUE_TYPE_STRING {
                ValueModel::Text(pool[raw_value as int])
            } else if vtype == VALUE_TYPE_INT_DEC {
                ValueModel::Integer(data)
            } else if vtype == VALUE_TYPE_INT_BOOLEAN {
                ValueModel::Boolean(data != 0)
            } else {
                ValueModel::Opaque(vtype, data)
            };
            match spec_attrs(b, p + 20, (n - 1) as nat, pool) {
                Err(e) => Err(e),
                Ok(rest) => Ok(seq![AttributeModel { name: pool[name as int], value }] + rest),
            }
        }
    }
}

/// One `XML_START_ELEMENT` chunk at `off`, resolved against `pool`: the tag
/// name index and the six 16-bit layout fields follow the four informational
/// 32-bit fields; the attribute records live at
/// `off + header_size + attribute_start`.
pub open spec fn spec_element(b: Seq<u8>, off: int, header_size: u16, pool: Seq<Seq<char>>) -> Result<
    ElementModel,
    DecodeError,
>
    recommends
        0 <= off,
{
    if off + 36 > b.len() {
        Err(DecodeError::Truncated)
    } else {
        let name = le32_at(b, off + 20);
        if name as nat >= pool.len() {
            Err(DecodeError::Malformed)
        } else {
            let attribute_start = le16_at(b, off + 24);
            let attribute_count = le16_at(b, off + 28);
            let astart = off + header_size + attribute_start;
            if astart > b.len() {
                Err(DecodeError::OutOfBounds)
            } else {
                match spec_attrs(b, astart, attribute_count as nat, pool) {
                    Err(e) => Err(e),
                    Ok(attrs) => Ok(ElementModel { tag: pool[name as int], attributes: attrs }),
                }
            }
        }
    }
}

/// Decodes one `XML_START_ELEMENT` chunk whose header the dispatcher has
/// already read and validated, appending the element to `elements` and
/// leaving the cursor at the chunk's end.
#[verifier::loop_isolation(false)]
pub fn read_xml_start_element_chunk(
    pool: &Vec<String>,
    elements: &mut Vec<Element>,
    cursor: &mut ChunkCursor,
    chunk_offset: usize,
    header_size: u16,
    chunk_size: u32,
) -> (r: Result<(), DecodeError>)
    requires
        old(cursor).wf(),
        old(cursor).pos() == chunk_offset + 8,
        chunk_offset + chunk_size <= old(cursor).bytes().len(),
    ensures
        final(cursor).bytes() == old(cursor).bytes(),
        final(cursor).wf(),
        r is Ok ==> spec_element(
            old(cursor).bytes(),
            chunk_offset as int,
            header_size,
            pool.deep_view(),
        ) is Ok && final(elements).deep_view() == old(elements).deep_view().push(
            spec_element(
                old(cursor).bytes(),
                chunk_offset as int,
                header_size,
                pool.deep_view(),
            )->Ok_0,
        ) && final(cursor).pos() == chunk_offset + chunk_size,
        r is Err ==> spec_element(
            old(cursor).bytes(),
            chunk_offset as int,
            header_size,
            pool.deep_view(),
        ) == Err::<ElementModel, DecodeError>(r->Err_0) && final(elements)@ == old(elements)@,
{
    let ghost b = old(cursor).bytes();
    let ghost off = chunk_offset as int;
    let ghost poolv = pool.deep_view();
    let _line_number = cursor.read_u32_le()?;
    let _comment = cursor.read_u32_le()?;
    let _namespace = cursor.read_u32_le()?;
    let name = cursor.read_u32_le()?;
    let attribute_start = cursor.read_u16_le()?;
    let _attribute_size = cursor.read_u16_le()?;
    let attribute_count = cursor.read_u16_le()?;
    let _id_index = cursor.read_u16_le()?;
    let _class_index = cursor.read_u16_le()?;
    let _style_index = cursor.read_u16_le()?;
    if name as usize >= pool.len() {
        return Err(DecodeError::Malformed);
    }
    let tag = pool[name as usize].clone();
    let limit = cursor.len();
    let rem = limit - chunk_offset;
    if header_size as usize > rem || attribute_start as usize > rem - header_size as usize {
        return Err(DecodeError::OutOfBounds);
    }
    let astart = chunk_offset + header_size as usize + attribute_start as usize;
    cursor.seek(astart)?;
    let ghost ap = astart as int;
    let mut attrs: Vec<Attribute> = Vec::new();
    let mut j: u16 = 0;
    proof {
        if spec_attrs(b, ap, attribute_count as nat, poolv) is Ok {
            assert(attrs.deep_view() + spec_attrs(b, ap, attribute_count as nat, poolv)->Ok_0
                =~= spec_attrs(b, ap, attribute_count as nat, poolv)->Ok_0);
        }
    }
    while j < attribute_count
        invariant
            cursor.wf(),
            cursor.bytes() == b,
            j <= attribute_count,
            cursor.pos() == ap + 20 * j,
            ap == chunk_offset + header_size + attribute_start,
            poolv == pool.deep_view(),
            elements@ == old(elements)@,
            ({
                let whole = spec_attrs(b, ap, attribute_count as nat, poolv);
                match spec_attrs(b, ap + 20 * j, (attribute_count - j) as nat, poolv) {
                    Ok(rest) => whole == Ok::<Seq<AttributeModel>, DecodeError>(
                        attrs.deep_view() + rest,
                    ),
                    Err(e) => whole == Err::<Seq<AttributeModel>, DecodeError>(e),
                }
            }),
        decreases attribute_count - j,
    {
        let ghost rp = cursor.pos();
        let ghost attrs0 = attrs.deep_view();
        let _attr_namespace = cursor.read_u32_le()?;
        let attr_name = cursor.read_u32_le()?;
        let raw_value = cursor.read_u32_le()?;
        let _value_size = cursor.read_u16_le()?;
        let _reserved = cursor.read_u8()?;
        let vtype = cursor.read_u8()?;
        let data = cursor.read_u32_le()?;
        if attr_name as usize >= pool.len() {
            return Err(DecodeError::Malformed);
        }
        let name_text = pool[attr_name as usize].clone();
        let value = if vtype == VALUE_TYPE_STRING {
            if raw_value as usize >= pool.len() {
                return Err(DecodeError::Malformed);
            }
            AttributeValue::Text(pool[raw_value as usize].clone())
        } else if vtype == VALUE_TYPE_INT_DEC {
            AttributeValue::Integer(data)
        } else if vtype == VALUE_TYPE_INT_BOOLEAN {
            AttributeValue::Boolean(data != 0)
        } else {
            AttributeValue::Opaque(vtype, data)
        };
        let attribute = Attribute { name: name_text, value };
        proof {
            assert(attribute@.name == poolv[attr_name as int]);
        }
        attrs.push(attribute);
        proof {
            assert(attrs.deep_view() =~= attrs0.push(attribute@));
            if spec_attrs(b, rp + 20, (attribute_count - j - 1) as nat, poolv) is Ok {
                let rest1 = spec_attrs(b, rp + 20, (attribute_count - j - 1) as nat, poolv)->Ok_0;
                assert(attrs0 + (seq![attribute@] + rest1) =~= attrs0.push(attribute@) + rest1);
            }
        }
        j = j + 1;
    }
    proof {
        assert(spec_attrs(b, ap + 20 * j, (attribute_count - j) as nat, poolv) == Ok::<
            Seq<AttributeModel>,
            DecodeError,
        >(Seq::empty()));
        assert(attrs.deep_view() + Seq::<AttributeModel>::empty() =~= attrs.deep_view());
    }
    let end64 = chunk_offset as u64 + chunk_size as u64;
    cursor.seek(end64 as usize)?;
    let element = Element { tag, attributes: attrs };
    let ghost el0 = elements.deep_view();
    elements.push(element);
    proof {
        assert(elements.deep_view() =~= el0.push(element@));
    }
    Ok(())
}

} // verus!
