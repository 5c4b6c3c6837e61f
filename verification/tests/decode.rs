//! End-to-end tests of the chunk decoder: hand-built buffers, the encoder's
//! round trip, the two queries, and every error variant.
use axml::chunk::{decode_document, read_chunk, Context};
use axml::cursor::ChunkCursor;
use axml::element::AttributeValue;
use axml::encode::encode_string_pool;
use axml::error::DecodeError;
use axml::query::{debuggable_flag, package_name};

fn push_u16(out: &mut Vec<u8>, x: u16) {
    out.extend_from_slice(&x.to_le_bytes());
}

fn push_u32(out: &mut Vec<u8>, x: u32) {
    out.extend_from_slice(&x.to_le_bytes());
}

/// Builds a UTF-8 string pool chunk, short-form lengths only.
fn utf8_pool(strings: &[&str]) -> Vec<u8> {
    let mut entries: Vec<u8> = Vec::new();
    let mut offsets: Vec<u32> = Vec::new();
    for s in strings {
        offsets.push(entries.len() as u32);
        push_u32(&mut entries, s.chars().count() as u32);
        push_u32(&mut entries, s.len() as u32);
        entries.extend_from_slice(s.as_bytes());
    }
    let strings_start = 28 + 4 * strings.len() as u32;
    let total = strings_start + entries.len() as u32;
    let mut out: Vec<u8> = Vec::new();
    push_u16(&mut out, 0x0001);
    push_u16(&mut out, 28);
    push_u32(&mut out, total);
    push_u32(&mut out, strings.len() as u32);
    push_u32(&mut out, 0);
    push_u32(&mut out, 0x100);
    push_u32(&mut out, strings_start);
    push_u32(&mut out, 0);
    for o in &offsets {
        push_u32(&mut out, *o);
    }
    out.extend_from_slice(&entries);
    out
}

/// Builds a UTF-16 string pool chunk from raw code-unit entries.
fn utf16_pool_raw(entries_units: &[Vec<u16>]) -> Vec<u8> {
    let mut entries: Vec<u8> = Vec::new();
    let mut offsets: Vec<u32> = Vec::new();
    for units in entries_units {
        offsets.push(entries.len() as u32);
        push_u16(&mut entries, units.len() as u16);
        for u in units {
            push_u16(&mut entries, *u);
        }
    }
    let strings_start = 28 + 4 * entries_units.len() as u32;
    let total = strings_start + entries.len() as u32;
    let mut out: Vec<u8> = Vec::new();
    push_u16(&mut out, 0x0001);
    push_u16(&mut out, 28);
    push_u32(&mut out, total);
    push_u32(&mut out, entries_units.len() as u32);
    push_u32(&mut out, 0);
    push_u32(&mut out, 0);
    push_u32(&mut out, strings_start);
    push_u32(&mut out, 0);
    for o in &offsets {
        push_u32(&mut out, *o);
    }
    out.extend_from_slice(&entries);
    out
}

/// One attribute record: `(name_index, type_code, raw_value, data)`.
type AttrSpec = (u32, u8, u32, u32);

/// Builds an `XML_START_ELEMENT` chunk with header size 16 and the
/// attribute region 20 bytes past the header's end.
fn element_chunk(name_index: u32, attrs: &[AttrSpec]) -> Vec<u8> {
    let total = 36 + 20 * attrs.len() as u32;
    let mut out: Vec<u8> = Vec::new();
    push_u16(&mut out, 0x0102);
    push_u16(&mut out, 16);
    push_u32(&mut out, total);
    push_u32(&mut out, 1); // line number
    push_u32(&mut out, 0xFFFFFFFF); // comment
    push_u32(&mut out, 0xFFFFFFFF); // namespace
    push_u32(&mut out, name_index);
    push_u16(&mut out, 20); // attribute_start
    push_u16(&mut out, 20); // attribute_size
    push_u16(&mut out, attrs.len() as u16);
    push_u16(&mut out, 0); // id_index
    push_u16(&mut out, 0); // class_index
    push_u16(&mut out, 0); // style_index
    for (name, vtype, raw, data) in attrs {
        push_u32(&mut out, 0xFFFFFFFF); // attribute namespace
        push_u32(&mut out, *name);
        push_u32(&mut out, *raw);
        push_u16(&mut out, 8); // value size
        out.push(0); // reserved
        out.push(*vtype);
        push_u32(&mut out, *data);
    }
    out
}

/// Wraps child chunks in one `XML` document chunk.
fn xml_document(children: &[Vec<u8>]) -> Vec<u8> {
    let inner: usize = children.iter().map(|c| c.len()).sum();
    let mut out: Vec<u8> = Vec::new();
    push_u16(&mut out, 0x0003);
    push_u16(&mut out, 8);
    push_u32(&mut out, (8 + inner) as u32);
    for c in children {
        out.extend_from_slice(c);
    }
    out
}

#[test]
fn cursor_little_endian_reads() {
    let mut c = ChunkCursor::new(vec![0x01, 0x02, 0x03, 0x04, 0xFF]);
    assert_eq!(c.read_u16_le(), Ok(0x0201));
    assert_eq!(c.position(), 2);
    assert_eq!(c.read_u16_le(), Ok(0x0403));
    assert_eq!(c.read_u32_le(), Err(DecodeError::Truncated));
    assert_eq!(c.position(), 4);
    assert_eq!(c.read_u8(), Ok(0xFF));
    assert_eq!(c.read_u8(), Err(DecodeError::Truncated));
}

#[test]
fn cursor_seek_bounds() {
    let mut c = ChunkCursor::new(vec![0; 4]);
    assert_eq!(c.seek(4), Ok(()));
    assert_eq!(c.seek(5), Err(DecodeError::OutOfBounds));
    assert_eq!(c.position(), 4);
    assert_eq!(c.seek(0), Ok(()));
    assert_eq!(c.read_u32_le(), Ok(0));
}

#[test]
fn utf8_pool_decodes_text_and_order() {
    let pool = utf8_pool(&["hello", "wörld", ""]);
    let doc = xml_document(&[pool]);
    let ctx = decode_document(doc).unwrap();
    assert_eq!(ctx.strings_pool, vec!["hello", "wörld", ""]);
    assert!(ctx.elements.is_empty());
}

#[test]
fn utf8_invalid_bytes_rejected() {
    // A single entry of two bytes that are not valid UTF-8.
    let mut pool = utf8_pool(&["ab"]);
    let n = pool.len();
    pool[n - 2] = 0xC0;
    pool[n - 1] = 0xC0;
    let doc = xml_document(&[pool]);
    assert_eq!(decode_document(doc).unwrap_err(), DecodeError::InvalidEncoding);
}

#[test]
fn encoder_round_trip() {
    let texts = vec![
        String::from("manifest"),
        String::from("päckage"),
        String::from(""),
        String::from("день"),
    ];
    let chunk = encode_string_pool(&texts).unwrap();
    let doc = xml_document(&[chunk]);
    let ctx = decode_document(doc).unwrap();
    assert_eq!(ctx.strings_pool, texts);
}

#[test]
fn encoder_round_trip_length_boundaries() {
    // 0x7FFF stays in the short form; 0x8000 forces the long form.
    let short = "a".repeat(0x7FFF);
    let long = "b".repeat(0x8000);
    let texts = vec![short.clone(), long.clone(), String::from("tail")];
    let chunk = encode_string_pool(&texts).unwrap();
    let doc = xml_document(&[chunk]);
    let ctx = decode_document(doc).unwrap();
    assert_eq!(ctx.strings_pool, vec![short, long, String::from("tail")]);
}

#[test]
fn long_form_length_hand_built() {
    // A hand-built long-form byte length: first field 0x8000 | (n >> 8),
    // second field n & 0xFF, for n = 0x8000.
    let n = 0x8000usize;
    let text = "c".repeat(n);
    let mut entries: Vec<u8> = Vec::new();
    push_u32(&mut entries, 0x8080);
    push_u32(&mut entries, 0x00);
    push_u32(&mut entries, 0x8080);
    push_u32(&mut entries, 0x00);
    entries.extend_from_slice(text.as_bytes());
    let strings_start = 28 + 4u32;
    let total = strings_start + entries.len() as u32;
    let mut pool: Vec<u8> = Vec::new();
    push_u16(&mut pool, 0x0001);
    push_u16(&mut pool, 28);
    push_u32(&mut pool, total);
    push_u32(&mut pool, 1);
    push_u32(&mut pool, 0);
    push_u32(&mut pool, 0x100);
    push_u32(&mut pool, strings_start);
    push_u32(&mut pool, 0);
    push_u32(&mut pool, 0);
    pool.extend_from_slice(&entries);
    let doc = xml_document(&[pool]);
    let ctx = decode_document(doc).unwrap();
    assert_eq!(ctx.strings_pool, vec![text]);
}

#[test]
fn utf16_pool_decodes_bmp_and_surrogate_pair() {
    // "a€" needs one unit each; the emoji needs a surrogate pair.
    let mut units: Vec<u16> = Vec::new();
    units.extend("a€😀".encode_utf16());
    let pool = utf16_pool_raw(&[units]);
    let doc = xml_document(&[pool]);
    let ctx = decode_document(doc).unwrap();
    assert_eq!(ctx.strings_pool, vec!["a€😀"]);
}

#[test]
fn utf16_unpaired_surrogate_rejected() {
    let pool = utf16_pool_raw(&[vec![0x0061, 0xD800, 0x0062]]);
    let doc = xml_document(&[pool]);
    assert_eq!(decode_document(doc).unwrap_err(), DecodeError::InvalidEncoding);
}

#[test]
fn utf16_lone_low_surrogate_rejected() {
    let pool = utf16_pool_raw(&[vec![0xDC00]]);
    let doc = xml_document(&[pool]);
    assert_eq!(decode_document(doc).unwrap_err(), DecodeError::InvalidEncoding);
}

#[test]
fn package_name_resolved() {
    let pool = utf8_pool(&["manifest", "package", "com.example.app"]);
    let element = element_chunk(0, &[(1, 0x03, 2, 2)]);
    let doc = xml_document(&[pool, element]);
    let ctx = decode_document(doc).unwrap();
    assert_eq!(ctx.elements.len(), 1);
    assert_eq!(ctx.elements[0].tag, "manifest");
    assert_eq!(ctx.elements[0].attributes[0].name, "package");
    assert_eq!(
        ctx.elements[0].attributes[0].value,
        AttributeValue::Text(String::from("com.example.app"))
    );
    assert_eq!(package_name(&ctx), Some(String::from("com.example.app")));
}

#[test]
fn debuggable_nonzero_is_true() {
    let pool = utf8_pool(&["application", "debuggable"]);
    let element = element_chunk(0, &[(1, 0x12, 0xFFFFFFFF, 0xFFFFFFFF)]);
    let doc = xml_document(&[pool, element]);
    let ctx = decode_document(doc).unwrap();
    assert_eq!(debuggable_flag(&ctx), Some(true));
}

#[test]
fn debuggable_zero_is_false() {
    let pool = utf8_pool(&["application", "debuggable"]);
    let element = element_chunk(0, &[(1, 0x12, 0, 0)]);
    let doc = xml_document(&[pool, element]);
    let ctx = decode_document(doc).unwrap();
    assert_eq!(debuggable_flag(&ctx), Some(false));
}

#[test]
fn debuggable_absent_is_false() {
    let pool = utf8_pool(&["application", "other"]);
    let element = element_chunk(0, &[(1, 0x10, 0, 7)]);
    let doc = xml_document(&[pool, element]);
    let ctx = decode_document(doc).unwrap();
    assert_eq!(debuggable_flag(&ctx), Some(false));
}

#[test]
fn debuggable_without_application_is_none() {
    let pool = utf8_pool(&["manifest"]);
    let element = element_chunk(0, &[]);
    let doc = xml_document(&[pool, element]);
    let ctx = decode_document(doc).unwrap();
    assert_eq!(debuggable_flag(&ctx), None);
}

#[test]
fn integer_and_opaque_values_exposed() {
    let pool = utf8_pool(&["tag", "count", "other"]);
    let element = element_chunk(0, &[(1, 0x10, 0, 42), (2, 0x1D, 5, 9)]);
    let doc = xml_document(&[pool, element]);
    let ctx = decode_document(doc).unwrap();
    let attrs = &ctx.elements[0].attributes;
    assert_eq!(attrs[0].value, AttributeValue::Integer(42));
    assert_eq!(attrs[1].value, AttributeValue::Opaque(0x1D, 9));
}

#[test]
fn unknown_chunk_skipped_between_siblings() {
    // An XML_RESOURCE_MAP chunk sits between the pool and the element; the
    // element after it must still decode, its header read exactly at the
    // skipped chunk's end offset.
    let pool = utf8_pool(&["manifest", "package", "com.example.app"]);
    let mut resource_map: Vec<u8> = Vec::new();
    push_u16(&mut resource_map, 0x0180);
    push_u16(&mut resource_map, 8);
    push_u32(&mut resource_map, 16);
    push_u32(&mut resource_map, 0x7F000000);
    push_u32(&mut resource_map, 0x7F000001);
    let element = element_chunk(0, &[(1, 0x03, 2, 2)]);
    let doc = xml_document(&[pool, resource_map, element]);
    let ctx = decode_document(doc).unwrap();
    assert_eq!(package_name(&ctx), Some(String::from("com.example.app")));
}

#[test]
fn dispatcher_leaves_cursor_at_chunk_end() {
    // Two sibling chunks: decoding the first leaves the position exactly at
    // its declared total size, where the second chunk's header begins.
    let pool = utf8_pool(&["only"]);
    let pool_len = pool.len();
    let element = element_chunk(0, &[]);
    let mut buf = pool;
    buf.extend_from_slice(&element);
    let mut ctx = Context::new();
    let mut cursor = ChunkCursor::new(buf);
    read_chunk(&mut ctx, &mut cursor).unwrap();
    assert_eq!(cursor.position(), pool_len);
    read_chunk(&mut ctx, &mut cursor).unwrap();
    assert_eq!(cursor.position(), pool_len + element.len());
    assert_eq!(ctx.elements[0].tag, "only");
}

#[test]
fn oversized_chunk_rejected() {
    let mut buf: Vec<u8> = Vec::new();
    push_u16(&mut buf, 0x0001);
    push_u16(&mut buf, 28);
    push_u32(&mut buf, 1000); // declared size beyond the buffer
    buf.extend_from_slice(&[0; 32]);
    assert_eq!(decode_document(buf).unwrap_err(), DecodeError::Malformed);
}

#[test]
fn header_size_below_minimum_rejected() {
    let mut buf: Vec<u8> = Vec::new();
    push_u16(&mut buf, 0x0001);
    push_u16(&mut buf, 4); // header size below the 8-byte minimum
    push_u32(&mut buf, 8);
    assert_eq!(decode_document(buf).unwrap_err(), DecodeError::Malformed);
}

#[test]
fn truncated_header_rejected() {
    let buf = vec![0x03, 0x00, 0x08, 0x00];
    assert_eq!(decode_document(buf).unwrap_err(), DecodeError::Truncated);
}

#[test]
fn tag_name_index_out_of_range_rejected() {
    let pool = utf8_pool(&["manifest"]);
    let element = element_chunk(7, &[]);
    let doc = xml_document(&[pool, element]);
    assert_eq!(decode_document(doc).unwrap_err(), DecodeError::Malformed);
}

#[test]
fn attribute_name_index_out_of_range_rejected() {
    let pool = utf8_pool(&["manifest"]);
    let element = element_chunk(0, &[(9, 0x10, 0, 1)]);
    let doc = xml_document(&[pool, element]);
    assert_eq!(decode_document(doc).unwrap_err(), DecodeError::Malformed);
}

#[test]
fn string_value_index_out_of_range_rejected() {
    let pool = utf8_pool(&["manifest", "package"]);
    let element = element_chunk(0, &[(1, 0x03, 9, 9)]);
    let doc = xml_document(&[pool, element]);
    assert_eq!(decode_document(doc).unwrap_err(), DecodeError::Malformed);
}

#[test]
fn pool_entry_offset_out_of_bounds_rejected() {
    // One entry whose table offset points past the buffer.
    let mut pool: Vec<u8> = Vec::new();
    push_u16(&mut pool, 0x0001);
    push_u16(&mut pool, 28);
    push_u32(&mut pool, 36);
    push_u32(&mut pool, 1);
    push_u32(&mut pool, 0);
    push_u32(&mut pool, 0x100);
    push_u32(&mut pool, 32);
    push_u32(&mut pool, 0);
    push_u32(&mut pool, 5000);
    push_u32(&mut pool, 0);
    let doc = xml_document(&[pool]);
    assert_eq!(decode_document(doc).unwrap_err(), DecodeError::OutOfBounds);
}

#[test]
fn nested_xml_containers() {
    // A container within a container: both levels dispatch correctly.
    let pool = utf8_pool(&["inner"]);
    let element = element_chunk(0, &[]);
    let inner_doc = xml_document(&[element]);
    let doc = xml_document(&[pool, inner_doc]);
    let ctx = decode_document(doc).unwrap();
    assert_eq!(ctx.elements.len(), 1);
    assert_eq!(ctx.elements[0].tag, "inner");
}

#[test]
fn empty_pool_and_no_elements() {
    let pool = utf8_pool(&[]);
    let doc = xml_document(&[pool]);
    let ctx = decode_document(doc).unwrap();
    assert!(ctx.strings_pool.is_empty());
    assert!(ctx.elements.is_empty());
    assert_eq!(package_name(&ctx), None);
    assert_eq!(debuggable_flag(&ctx), None);
}

#[test]
fn package_on_non_manifest_tag_not_matched() {
    let pool = utf8_pool(&["uses-sdk", "package", "com.example.app", "manifest"]);
    let wrong = element_chunk(0, &[(1, 0x03, 2, 2)]);
    let right = element_chunk(3, &[(1, 0x03, 2, 2)]);
    let doc = xml_document(&[pool, wrong, right]);
    let ctx = decode_document(doc).unwrap();
    assert_eq!(package_name(&ctx), Some(String::from("com.example.app")));
    assert_eq!(ctx.elements.len(), 2);
}

#[test]
fn read_len_utf8_short_and_long_forms() {
    let mut buf: Vec<u8> = Vec::new();
    push_u32(&mut buf, 0x7FFF); // short form, largest value
    push_u32(&mut buf, 0x8080); // long form for 0x8000 ...
    push_u32(&mut buf, 0x00); // ... with its continuation field
    let mut c = ChunkCursor::new(buf);
    assert_eq!(axml::pool::read_len_utf8(&mut c), Ok(0x7FFF));
    assert_eq!(axml::pool::read_len_utf8(&mut c), Ok(0x8000));
    assert_eq!(axml::pool::read_len_utf8(&mut c), Err(DecodeError::Truncated));
}

#[test]
fn encoder_refuses_oversized_text() {
    let texts = vec!["x".repeat(0x800000)];
    assert!(encode_string_pool(&texts).is_none());
    let fits = vec!["y".repeat(16)];
    assert!(encode_string_pool(&fits).is_some());
}
