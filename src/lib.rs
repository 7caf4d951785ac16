//! Decoding and encoding of NBT (named binary tag) documents, and reading of
//! region containers that pack many compressed NBT documents in one buffer.

pub mod decode;
pub mod encode;
pub mod error;
pub mod file_parser;
pub mod generic_bin;
pub mod nbt_tag;
pub mod region;
pub mod round_trip;
pub mod wire;
pub mod world;

pub use decode::parse_bytes;
pub use error::{CompressionError, FormatError, NbtError};
pub use nbt_tag::{
    NbtTag, NbtTagByte, NbtTagByteArray, NbtTagCompound, NbtTagDouble, NbtTagFloat, NbtTagInt,
    NbtTagIntArray, NbtTagList, NbtTagLong, NbtTagLongArray, NbtTagShort, NbtTagString, NbtTagType,
};
pub use world::McWorldDescriptor;
