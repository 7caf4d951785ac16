use rnbt::file_parser::{FileParser, FileType, ReadMode};
use rnbt::generic_bin::GenericBinFile;
use rnbt::{parse_bytes, NbtError, NbtTag};
use std::path::PathBuf;

fn small_document() -> Vec<u8> {
    // Compound "" { Byte "b" = 5 }
    vec![10, 0, 0, 1, 0, 1, b'b', 5, 0]
}

#[test]
fn test_new_file_parser() {
    let file_path = PathBuf::from("path/to/file");
    let file_parser = FileParser::new(file_path.clone(), ReadMode::EntireFile, FileType::Nbt);
    assert_eq!(file_parser.file_path(), &file_path);
    assert_eq!(matches!(file_parser.read_mode(), ReadMode::EntireFile), true);
}

#[test]
fn test_parse_function() {
    let file = GenericBinFile::new(small_document());
    let list = file.to_compounds_list().unwrap();
    assert_eq!(list.len(), 1);
    assert_eq!(list[0].get("b").unwrap().byte().unwrap().value, 5);
}

#[test]
fn test_read_entire_file() {
    let bytes = small_document();
    let file = GenericBinFile::new(bytes.clone());
    assert_eq!(file.get_raw_data(), &bytes);
}

#[test]
fn test_read_stream() {
    let file_parser = FileParser::new(PathBuf::from("path/to/file"), ReadMode::Stream, FileType::Nbt);
    assert!(file_parser.read_stream().is_err());
    assert_eq!(file_parser.read_stream(), Err(NbtError::StreamingUnsupported));
}

#[test]
fn test_parse_bytes() {
    let root = parse_bytes(&small_document()).unwrap();
    match root {
        NbtTag::Compound(c) => {
            assert_eq!(c.name, "");
            assert_eq!(c.values.len(), 1);
            assert_eq!(c.get("b").unwrap().byte().unwrap().value, 5);
        }
        _ => panic!("root is not a compound"),
    }
}
