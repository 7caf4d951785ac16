use flate2::write::{GzEncoder, ZlibEncoder};
use flate2::Compression;
use rnbt::generic_bin::{CompressionType, GenericBinFile};
use rnbt::world::{source_format, BinaryFormat, SourceFormat};
use rnbt::{
    parse_bytes, CompressionError, FormatError, NbtError, NbtTag, NbtTagByte, NbtTagByteArray,
    NbtTagCompound, NbtTagDouble, NbtTagFloat, NbtTagInt, NbtTagIntArray, NbtTagList, NbtTagLong,
    NbtTagLongArray, NbtTagShort, NbtTagString, NbtTagType,
};
use std::io::Write;

fn header(buf: &mut Vec<u8>, id: u8, name: &str) {
    buf.push(id);
    buf.extend_from_slice(&(name.len() as i16).to_be_bytes());
    buf.extend_from_slice(name.as_bytes());
}

/// A document "root" holding one value of kind `id` named "v" with payload `payload`.
fn one_value(id: u8, payload: &[u8]) -> Vec<u8> {
    let mut buf = Vec::new();
    header(&mut buf, 10, "root");
    header(&mut buf, id, "v");
    buf.extend_from_slice(payload);
    buf.push(0);
    buf
}

fn compound_of(t: NbtTag) -> NbtTagCompound {
    match t {
        NbtTag::Compound(c) => c,
        _ => panic!("not a compound"),
    }
}

fn encode(c: &NbtTagCompound) -> Vec<u8> {
    let mut out = Vec::new();
    rnbt::encode::write(&mut out, c);
    out
}

fn s(x: &str) -> String {
    x.to_string()
}

fn every_kind() -> NbtTagCompound {
    let mut c = NbtTagCompound::new("all");
    c.values.push(NbtTag::Byte(NbtTagByte { name: s("b"), value: -3 }));
    c.values.push(NbtTag::Short(NbtTagShort { name: s("s"), value: -30000 }));
    c.values.push(NbtTag::Int(NbtTagInt { name: s("i"), value: i32::MIN }));
    c.values.push(NbtTag::Long(NbtTagLong { name: s("l"), value: i64::MIN + 5 }));
    c.values.push(NbtTag::Float(NbtTagFloat { name: s("f"), bits: 1.5f32.to_bits() }));
    c.values.push(NbtTag::Double(NbtTagDouble { name: s("d"), bits: (-2.25f64).to_bits() }));
    c.values.push(NbtTag::ByteArray(NbtTagByteArray { name: s("ba"), values: vec![-128, 0, 127] }));
    c.values.push(NbtTag::String(NbtTagString { name: s("str"), value: s("h\u{e9}llo") }));
    c.values.push(NbtTag::List(NbtTagList {
        name: s("li"),
        ty: NbtTagType::Int,
        values: vec![
            NbtTag::Int(NbtTagInt { name: s(""), value: 1 }),
            NbtTag::Int(NbtTagInt { name: s(""), value: -1 }),
        ],
    }));
    c.values.push(NbtTag::List(NbtTagList { name: s("empty"), ty: NbtTagType::End, values: vec![] }));
    let mut inner = NbtTagCompound::new("nested");
    inner.values.push(NbtTag::IntArray(NbtTagIntArray { name: s("ia"), values: vec![i32::MAX, -7] }));
    c.values.push(NbtTag::Compound(inner));
    c.values.push(NbtTag::LongArray(NbtTagLongArray { name: s("la"), values: vec![i64::MAX, 0] }));
    c
}

#[test]
fn round_trip_every_kind() {
    let original = every_kind();
    let bytes = encode(&original);
    let decoded = compound_of(parse_bytes(&bytes).unwrap());
    assert_eq!(decoded, original);
    assert_eq!(encode(&decoded), bytes);
}

#[test]
fn decoding_twice_gives_equal_trees() {
    let bytes = encode(&every_kind());
    assert_eq!(parse_bytes(&bytes).unwrap(), parse_bytes(&bytes).unwrap());
}

#[test]
fn encode_exact_bytes() {
    let mut c = NbtTagCompound::new("r");
    c.values.push(NbtTag::Short(NbtTagShort { name: s("x"), value: 258 }));
    c.values.push(NbtTag::ByteArray(NbtTagByteArray { name: s("a"), values: vec![1, -1] }));
    assert_eq!(
        encode(&c),
        vec![10, 0, 1, b'r', 2, 0, 1, b'x', 1, 2, 7, 0, 1, b'a', 0, 0, 0, 2, 1, 255, 0]
    );
}

#[test]
fn list_elements_have_no_type_or_name() {
    let mut c = NbtTagCompound::new("");
    c.values.push(NbtTag::List(NbtTagList {
        name: s("l"),
        ty: NbtTagType::Byte,
        values: vec![NbtTag::Byte(NbtTagByte { name: s(""), value: 9 })],
    }));
    assert_eq!(encode(&c), vec![10, 0, 0, 9, 0, 1, b'l', 1, 0, 0, 0, 1, 9, 0]);
}

#[test]
fn names_are_read_one_byte_per_character() {
    let mut buf = Vec::new();
    header(&mut buf, 10, "");
    buf.extend_from_slice(&[8, 0, 1, 0xc9, 0, 2, 0xe9, b'a', 0]);
    let c = compound_of(parse_bytes(&buf).unwrap());
    let t = c.get("\u{c9}").unwrap().string().unwrap();
    assert_eq!(t.value, "\u{e9}a");
    assert_eq!(encode(&c), buf);
}

#[test]
fn later_duplicate_name_wins() {
    let mut buf = Vec::new();
    header(&mut buf, 10, "");
    header(&mut buf, 1, "k");
    buf.push(1);
    header(&mut buf, 1, "j");
    buf.push(2);
    header(&mut buf, 3, "k");
    buf.extend_from_slice(&5i32.to_be_bytes());
    buf.push(0);
    let c = compound_of(parse_bytes(&buf).unwrap());
    assert_eq!(c.values.len(), 2);
    assert_eq!(c.get("k").unwrap().int_tag().unwrap().value, 5);
    assert_eq!(c.values[0].ty(), NbtTagType::Int);
}

#[test]
fn list_size_guard() {
    let mut payload = vec![1u8];
    payload.extend_from_slice(&65537i32.to_be_bytes());
    assert_eq!(parse_bytes(&one_value(9, &payload)), Err(FormatError::SizeLimitExceeded));
    let mut bad_kind = vec![200u8];
    bad_kind.extend_from_slice(&70000i32.to_be_bytes());
    assert_eq!(parse_bytes(&one_value(9, &bad_kind)), Err(FormatError::SizeLimitExceeded));
}

#[test]
fn array_size_guard() {
    let big = 65537i32.to_be_bytes();
    for id in [7u8, 11, 12] {
        assert_eq!(parse_bytes(&one_value(id, &big)), Err(FormatError::SizeLimitExceeded));
    }
    let mut exact = 65536i32.to_be_bytes().to_vec();
    exact.extend(std::iter::repeat(0u8).take(65536));
    let c = compound_of(parse_bytes(&one_value(7, &exact)).unwrap());
    assert_eq!(c.get("v").unwrap().byte_array().unwrap().values.len(), 65536);
}

#[test]
fn negative_lengths() {
    assert_eq!(parse_bytes(&one_value(7, &(-1i32).to_be_bytes())), Err(FormatError::NegativeLength));
    assert_eq!(parse_bytes(&[10, 0xff, 0xff, 0]), Err(FormatError::NegativeLength));
}

#[test]
fn invalid_root() {
    assert_eq!(parse_bytes(&[1, 0, 0, 5]), Err(FormatError::InvalidRoot));
    assert_eq!(parse_bytes(&[200]), Err(FormatError::InvalidRoot));
}

#[test]
fn truncated_input() {
    assert_eq!(parse_bytes(&[]), Err(FormatError::UnexpectedEnd));
    assert_eq!(parse_bytes(&[10, 0, 0]), Err(FormatError::UnexpectedEnd));
    assert_eq!(parse_bytes(&one_value(3, &[0, 0])[..12]), Err(FormatError::UnexpectedEnd));
}

#[test]
fn invalid_type_ids() {
    assert_eq!(parse_bytes(&[10, 0, 0, 13]), Err(FormatError::InvalidTypeId));
    let mut payload = vec![0u8];
    payload.extend_from_slice(&1i32.to_be_bytes());
    assert_eq!(parse_bytes(&one_value(9, &payload)), Err(FormatError::InvalidTypeId));
}

#[test]
fn trailing_bytes_are_ignored() {
    let mut bytes = encode(&every_kind());
    bytes.extend_from_slice(&[1, 2, 3]);
    assert_eq!(compound_of(parse_bytes(&bytes).unwrap()), every_kind());
}

fn gzip(data: &[u8]) -> Vec<u8> {
    let mut e = GzEncoder::new(Vec::new(), Compression::default());
    e.write_all(data).unwrap();
    e.finish().unwrap()
}

fn zlib(data: &[u8]) -> Vec<u8> {
    let mut e = ZlibEncoder::new(Vec::new(), Compression::default());
    e.write_all(data).unwrap();
    e.finish().unwrap()
}

#[test]
fn resolver_recovers_each_encoding() {
    let raw = encode(&every_kind());
    for packed in [gzip(&raw), zlib(&raw), raw.clone()] {
        let file = GenericBinFile::new(packed);
        assert_eq!(file.try_decode_data().unwrap(), raw);
        let list = file.to_compounds_list().unwrap();
        assert_eq!(list, vec![every_kind()]);
    }
}

#[test]
fn resolver_tries_candidates_in_order() {
    let raw = b"plain bytes".to_vec();
    let g = gzip(&raw);
    let only_raw = rnbt::generic_bin::resolve_compression(&g, &[CompressionType::Uncompressed]);
    assert_eq!(only_raw.unwrap(), g);
    let gz_first = rnbt::generic_bin::resolve_compression(
        &g,
        &[CompressionType::Gzip, CompressionType::Uncompressed],
    );
    assert_eq!(gz_first.unwrap(), raw);
    let none = rnbt::generic_bin::resolve_compression(&raw, &[CompressionType::Gzip, CompressionType::Zlib]);
    assert_eq!(none, Err(NbtError::Compression(CompressionError::NoCodecMatched)));
}

#[test]
fn decode_binary_data_by_method() {
    let file = GenericBinFile::new(Vec::new());
    let raw = b"chunk".to_vec();
    assert_eq!(file.decode_binary_data(&raw, &[0]).unwrap(), raw);
    assert_eq!(file.decode_binary_data(&gzip(&raw), &[1]).unwrap(), raw);
    assert_eq!(file.decode_binary_data(&zlib(&raw), &[2]).unwrap(), raw);
    assert_eq!(
        file.decode_binary_data(&raw, &[3]),
        Err(NbtError::Compression(CompressionError::UnknownMethod(3)))
    );
    assert_eq!(
        file.decode_binary_data(&raw, &[2]),
        Err(NbtError::Compression(CompressionError::NoCodecMatched))
    );
}

#[test]
fn compression_ids() {
    assert_eq!(CompressionType::from_u8(0), Some(CompressionType::Uncompressed));
    assert_eq!(CompressionType::from_u8(1), Some(CompressionType::Gzip));
    assert_eq!(CompressionType::from_u8(2), Some(CompressionType::Zlib));
    assert_eq!(CompressionType::from_u8(3), None);
    assert_eq!(CompressionType::Zlib.to_u8(), 2);
}

#[test]
fn flat_file_with_bad_document() {
    let file = GenericBinFile::new(vec![10, 0, 0]);
    assert_eq!(file.to_compounds_list(), Err(NbtError::Format(FormatError::UnexpectedEnd)));
}

#[test]
fn extension_dispatch() {
    assert_eq!(source_format("mca"), Ok(SourceFormat::Binary(BinaryFormat::Region)));
    assert_eq!(source_format("mcr"), Ok(SourceFormat::Binary(BinaryFormat::Region)));
    assert_eq!(source_format("nbt"), Ok(SourceFormat::Binary(BinaryFormat::Nbt)));
    assert_eq!(source_format("litematic"), Ok(SourceFormat::Binary(BinaryFormat::Nbt)));
    assert_eq!(source_format("json"), Ok(SourceFormat::Json));
    assert_eq!(source_format("txt"), Err(NbtError::UnsupportedExtension));
    assert_eq!(source_format(""), Err(NbtError::UnsupportedExtension));
}
