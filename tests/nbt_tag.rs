use rnbt::nbt_tag::NbtTagType;
use rnbt::{NbtTag, NbtTagCompound, NbtTagInt, NbtTagLong, NbtTagLongArray};

#[test]
fn test_nbt_tag_type_ids() {
    assert_eq!(NbtTagType::End.id(), 0);
    assert_eq!(NbtTagType::Byte.id(), 1);
    assert_eq!(NbtTagType::Short.id(), 2);
    assert_eq!(NbtTagType::Int.id(), 3);
    assert_eq!(NbtTagType::Long.id(), 4);
    assert_eq!(NbtTagType::Float.id(), 5);
    assert_eq!(NbtTagType::Double.id(), 6);
    assert_eq!(NbtTagType::ByteArray.id(), 7);
    assert_eq!(NbtTagType::String.id(), 8);
    assert_eq!(NbtTagType::List.id(), 9);
    assert_eq!(NbtTagType::Compound.id(), 10);
    assert_eq!(NbtTagType::IntArray.id(), 11);
    assert_eq!(NbtTagType::LongArray.id(), 12);
}

#[test]
fn test_nbt_tag_type_from_id() {
    assert_eq!(NbtTagType::from_id(0), Some(NbtTagType::End));
    assert_eq!(NbtTagType::from_id(1), Some(NbtTagType::Byte));
    assert_eq!(NbtTagType::from_id(2), Some(NbtTagType::Short));
    assert_eq!(NbtTagType::from_id(3), Some(NbtTagType::Int));
    assert_eq!(NbtTagType::from_id(4), Some(NbtTagType::Long));
    assert_eq!(NbtTagType::from_id(5), Some(NbtTagType::Float));
    assert_eq!(NbtTagType::from_id(6), Some(NbtTagType::Double));
    assert_eq!(NbtTagType::from_id(7), Some(NbtTagType::ByteArray));
    assert_eq!(NbtTagType::from_id(8), Some(NbtTagType::String));
    assert_eq!(NbtTagType::from_id(9), Some(NbtTagType::List));
    assert_eq!(NbtTagType::from_id(10), Some(NbtTagType::Compound));
    assert_eq!(NbtTagType::from_id(11), Some(NbtTagType::IntArray));
    assert_eq!(NbtTagType::from_id(12), Some(NbtTagType::LongArray));
    assert_eq!(NbtTagType::from_id(255), None);
}

#[test]
fn kind_of_each_tag() {
    let long = NbtTag::Long(NbtTagLong { name: "l".to_string(), value: 1 });
    assert_eq!(long.ty(), NbtTagType::Long);
    let arr = NbtTag::LongArray(NbtTagLongArray { name: "a".to_string(), values: vec![1, 2] });
    assert_eq!(arr.ty(), NbtTagType::LongArray);
    assert_eq!(NbtTag::End.ty(), NbtTagType::End);
    assert_eq!(NbtTag::default(), NbtTag::End);
    assert_eq!(NbtTagType::default(), NbtTagType::End);
}

#[test]
fn accessors_answer_only_their_kind() {
    let t = NbtTag::Int(NbtTagInt { name: "x".to_string(), value: 7 });
    assert_eq!(t.int_tag().unwrap().value, 7);
    assert!(t.byte().is_none());
    assert!(t.long().is_none());
    assert!(t.compound().is_none());
    assert!(t.string().is_none());
}

#[test]
fn compound_get_finds_by_name() {
    let mut c = NbtTagCompound::new("root");
    assert_eq!(c.name, "root");
    assert!(c.values.is_empty());
    c.values.push(NbtTag::Int(NbtTagInt { name: "a".to_string(), value: 1 }));
    c.values.push(NbtTag::Int(NbtTagInt { name: "b".to_string(), value: 2 }));
    assert_eq!(c.get("b").unwrap().int_tag().unwrap().value, 2);
    assert_eq!(c.get("a").unwrap().int_tag().unwrap().value, 1);
    assert!(c.get("c").is_none());
}
