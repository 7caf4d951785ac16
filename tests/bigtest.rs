//! Tests on a document laid out like the canonical `bigtest.nbt` sample,
//! built here byte by byte, read flat and from a region container.
use flate2::write::{GzEncoder, ZlibEncoder};
use flate2::Compression;
use rnbt::world::BinaryFormat;
use rnbt::{McWorldDescriptor, NbtError, NbtTagCompound};
use std::io::Write;
use std::path::PathBuf;

struct Doc {
    bytes: Vec<u8>,
}

impl Doc {
    fn head(&mut self, id: u8, name: &str) {
        self.bytes.push(id);
        self.bytes.extend_from_slice(&(name.len() as i16).to_be_bytes());
        self.bytes.extend_from_slice(name.as_bytes());
    }
}

fn bigtest_bytes() -> Vec<u8> {
    let mut d = Doc { bytes: Vec::new() };
    d.head(10, "Level");
    d.head(4, "longTest");
    d.bytes.extend_from_slice(&9223372036854775807i64.to_be_bytes());
    d.head(2, "shortTest");
    d.bytes.extend_from_slice(&32767i16.to_be_bytes());
    d.head(8, "stringTest");
    let s = "HELLO WORLD THIS IS A TEST STRING!";
    d.bytes.extend_from_slice(&(s.len() as u16).to_be_bytes());
    d.bytes.extend_from_slice(s.as_bytes());
    d.head(5, "floatTest");
    d.bytes.extend_from_slice(&0.49823147058486938f32.to_be_bytes());
    d.head(3, "intTest");
    d.bytes.extend_from_slice(&2147483647i32.to_be_bytes());
    d.head(10, "nested compound test");
    d.head(10, "ham");
    d.head(8, "name");
    d.bytes.extend_from_slice(&6u16.to_be_bytes());
    d.bytes.extend_from_slice(b"Hampus");
    d.head(5, "value");
    d.bytes.extend_from_slice(&0.75f32.to_be_bytes());
    d.bytes.push(0);
    d.head(10, "egg");
    d.head(8, "name");
    d.bytes.extend_from_slice(&7u16.to_be_bytes());
    d.bytes.extend_from_slice(b"Eggbert");
    d.head(5, "value");
    d.bytes.extend_from_slice(&0.5f32.to_be_bytes());
    d.bytes.push(0);
    d.bytes.push(0);
    d.head(9, "listTest (long)");
    d.bytes.push(4);
    d.bytes.extend_from_slice(&5i32.to_be_bytes());
    for v in 11i64..16 {
        d.bytes.extend_from_slice(&v.to_be_bytes());
    }
    d.head(9, "listTest (compound)");
    d.bytes.push(10);
    d.bytes.extend_from_slice(&2i32.to_be_bytes());
    for k in 0..2 {
        let name = format!("Compound tag #{}", k);
        d.head(8, "name");
        d.bytes.extend_from_slice(&(name.len() as u16).to_be_bytes());
        d.bytes.extend_from_slice(name.as_bytes());
        d.head(4, "created-on");
        d.bytes.extend_from_slice(&1264099775885i64.to_be_bytes());
        d.bytes.push(0);
    }
    d.head(1, "byteTest");
    d.bytes.push(127);
    d.head(7, "byteArrayTest");
    d.bytes.extend_from_slice(&1000i32.to_be_bytes());
    for n in 0u32..1000 {
        d.bytes.push(((n * n * 255 + n * 7) % 100) as u8);
    }
    d.head(6, "doubleTest");
    d.bytes.extend_from_slice(&0.49312871321823148f64.to_be_bytes());
    d.bytes.push(0);
    d.bytes
}

fn gzip(data: &[u8]) -> Vec<u8> {
    let mut e = GzEncoder::new(Vec::new(), Compression::default());
    e.write_all(data).unwrap();
    e.finish().unwrap()
}

fn zlib(data: &[u8]) -> Vec<u8> {
    let mut e = ZlibEncoder::new(Vec::new(), Compression::default());
    e.write_all(data).unwrap();
    e.finish().unwrap()
}

/// A container whose listed slots hold the given (method, payload) chunks,
/// each in its own run of sectors after the table.
fn region_with(chunks: &[(usize, u8, Vec<u8>)]) -> Vec<u8> {
    let mut data = vec![0u8; 4096];
    for (slot, method, payload) in chunks {
        let sector = data.len() / 4096;
        let mut chunk = Vec::new();
        chunk.extend_from_slice(&(payload.len() as u32).to_be_bytes());
        chunk.push(*method);
        chunk.extend_from_slice(payload);
        let sectors = (chunk.len() + 4095) / 4096;
        chunk.resize(sectors * 4096, 0);
        data[4 * slot] = (sector >> 16) as u8;
        data[4 * slot + 1] = (sector >> 8) as u8;
        data[4 * slot + 2] = sector as u8;
        data[4 * slot + 3] = sectors as u8;
        data.extend_from_slice(&chunk);
    }
    data
}

fn check_bigtest_values(c: &NbtTagCompound) {
    assert_eq!(c.get("intTest").unwrap().int_tag().unwrap().value, 2147483647);
    assert_eq!(c.get("byteTest").unwrap().byte().unwrap().value, 127);
    assert_eq!(
        f64::from_bits(c.get("doubleTest").unwrap().double().unwrap().bits),
        0.49312871321823148
    );
    assert_eq!(
        f32::from_bits(c.get("floatTest").unwrap().float().unwrap().bits),
        0.49823147058486938
    );
    assert_eq!(c.get("longTest").unwrap().long().unwrap().value, 9223372036854775807);
    assert_eq!(c.get("shortTest").unwrap().short().unwrap().value, 32767);
}

#[test]
fn bigtest() {
    let path = PathBuf::from("tests/resources/bigtest.nbt");
    let mc_world = McWorldDescriptor::new(path, BinaryFormat::Nbt, gzip(&bigtest_bytes()));
    let mc_world = mc_world.unwrap();
    assert_eq!(mc_world.tag_compounds_list.len(), 1);
    let c = mc_world.tag_compounds_list.get(0).unwrap();
    assert_eq!(c.name, "Level");
    assert_eq!(c.values.len(), 11);
    check_bigtest_values(c);
    let list = c.get("listTest (compound)").unwrap().list().unwrap();
    assert_eq!(list.values.len(), 2);
    let arr = c.get("byteArrayTest").unwrap().byte_array().unwrap();
    assert_eq!(arr.values.len(), 1000);
    assert_eq!(arr.values[1], 62);
    assert_eq!(mc_world.get_mc_version(), "0.0.0");
}

#[test]
fn read_region_file() {
    let data = region_with(&[(0, 2, zlib(&bigtest_bytes()))]);
    let mc_world = McWorldDescriptor::new(PathBuf::from("r.0.0.mca"), BinaryFormat::Region, data).unwrap();
    assert_eq!(mc_world.tag_compounds_list.len(), 1);
    let c = mc_world.tag_compounds_list.get(0).unwrap();
    check_bigtest_values(c);
}

#[test]
fn region_skips_absent_slots_and_keeps_slot_order() {
    let a = vec![10, 0, 1, b'a', 0];
    let b = vec![10, 0, 1, b'b', 0];
    let data = region_with(&[(7, 0, b.clone()), (3, 1, gzip(&a))]);
    let mc = McWorldDescriptor::new(PathBuf::from("x.mca"), BinaryFormat::Region, data).unwrap();
    let names: Vec<String> = mc.tag_compounds_list.iter().map(|c| c.name.clone()).collect();
    assert_eq!(names, vec!["a".to_string(), "b".to_string()]);
}

#[test]
fn region_chunk_matches_flat_decoding() {
    let doc = bigtest_bytes();
    let data = region_with(&[(0, 0, doc.clone())]);
    let from_region = McWorldDescriptor::new(PathBuf::from("x.mca"), BinaryFormat::Region, data).unwrap();
    let flat = McWorldDescriptor::new(PathBuf::from("x.nbt"), BinaryFormat::Nbt, doc).unwrap();
    assert_eq!(from_region.tag_compounds_list, flat.tag_compounds_list);
}

#[test]
fn region_empty_table_has_no_chunks() {
    let region = rnbt::region::RegionFile::new(vec![0u8; 4096]).unwrap();
    assert_eq!(region.get_chunks_num(), 1024);
    assert_eq!(region.to_compounds_list().unwrap().len(), 0);
}

#[test]
fn region_too_short_for_table() {
    let r = rnbt::region::RegionFile::new(vec![0u8; 4095]);
    assert!(matches!(r, Err(NbtError::HeaderTooShort)));
}

#[test]
fn region_chunk_out_of_bounds() {
    let mut data = vec![0u8; 4096];
    data[2] = 1;
    data[3] = 1;
    let region = rnbt::region::RegionFile::new(data).unwrap();
    assert_eq!(region.to_compounds_list(), Err(NbtError::Bounds));
}

#[test]
fn region_payload_longer_than_chunk() {
    let mut data = region_with(&[(0, 0, vec![10, 0, 0, 0])]);
    data[4096] = 0x7f;
    let region = rnbt::region::RegionFile::new(data).unwrap();
    assert_eq!(region.to_compounds_list(), Err(NbtError::Bounds));
}

#[test]
fn region_unknown_method() {
    let data = region_with(&[(0, 7, vec![10, 0, 0, 0])]);
    let region = rnbt::region::RegionFile::new(data).unwrap();
    assert_eq!(
        region.to_compounds_list(),
        Err(NbtError::Compression(rnbt::CompressionError::UnknownMethod(7)))
    );
}

#[test]
fn region_corrupt_zlib_chunk() {
    let data = region_with(&[(0, 2, vec![1, 2, 3, 4, 5])]);
    let region = rnbt::region::RegionFile::new(data).unwrap();
    assert_eq!(
        region.to_compounds_list(),
        Err(NbtError::Compression(rnbt::CompressionError::NoCodecMatched))
    );
}

#[test]
fn region_chunk_with_bad_document() {
    let data = region_with(&[(0, 0, vec![3, 0, 0, 0])]);
    let region = rnbt::region::RegionFile::new(data).unwrap();
    assert_eq!(region.to_compounds_list(), Err(NbtError::Format(rnbt::FormatError::InvalidRoot)));
}
