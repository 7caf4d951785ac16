use vstd::prelude::*;

use crate::decode::{decode_document, parse_bytes};
use crate::error::{CompressionError, NbtError};
use crate::nbt_tag::{NbtTag, NbtTagCompound, Tag};
use flate2::read::{GzDecoder, ZlibDecoder};
use std::io::Read;
use vstd::slice::slice_to_vec;

pub use crate::file_parser::FileType;

verus! {

#[verifier::external_type_specification]
#[verifier::external_body]
pub struct ExIoError(std::io::Error);

/// What gzip decoding of `data` gives: the bytes of its first member, or
/// `None` where `data` does not start with a valid gzip member.
pub uninterp spec fn gzip_decoded(data: Seq<u8>) -> Option<Seq<u8>>;

/// What zlib decoding of `data` gives: the inflated bytes, or `None` where
/// `data` does not start with a valid zlib stream.
pub uninterp spec fn zlib_decoded(data: Seq<u8>) -> Option<Seq<u8>>;

/// Relies on `flate2::read::GzDecoder` read to its end: the outcome depends
/// on the bytes of `data` alone.
#[verifier::external_body]
fn gunzip(data: &[u8]) -> (r: Result<Vec<u8>, std::io::Error>)
    ensures
        match r {
            Ok(v) => gzip_decoded(data@) == Some(v@),
            Err(_) => gzip_decoded(data@) is None,
        },
{
    let mut out = Vec::new();
    match GzDecoder::new(data).read_to_end(&mut out) {
        Ok(_) => Ok(out),
        Err(e) => Err(e),
    }
}

/// Relies on `flate2::read::ZlibDecoder` read to its end: the outcome
/// depends on the bytes of `data` alone.
#[verifier::external_body]
fn inflate(data: &[u8]) -> (r: Result<Vec<u8>, std::io::Error>)
    ensures
        match r {
            Ok(v) => zlib_decoded(data@) == Some(v@),
            Err(_) => zlib_decoded(data@) is None,
        },
{
    let mut out = Vec::new();
    match ZlibDecoder::new(data).read_to_end(&mut out) {
        Ok(_) => Ok(out),
        Err(e) => Err(e),
    }
}

/// The ways a byte stream may be packed, with their one-byte method ids.
#[derive(Clone, Copy, Debug, PartialEq, Eq, Structural)]
pub enum CompressionType {
    Uncompressed,
    Gzip,
    Zlib,
}

pub open spec fn compression_id(c: CompressionType) -> u8 {
    match c {
        CompressionType::Uncompressed => 0,
        CompressionType::Gzip => 1,
        CompressionType::Zlib => 2,
    }
}

pub open spec fn compression_of_id(id: u8) -> Option<CompressionType> {
    if id == 0 {
        Some(CompressionType::Uncompressed)
    } else if id == 1 {
        Some(CompressionType::Gzip)
    } else if id == 2 {
        Some(CompressionType::Zlib)
    } else {
        None
    }
}

impl CompressionType {
    /// The method with id `value` (0 uncompressed, 1 gzip, 2 zlib).
    pub fn from_u8(value: u8) -> (r: Option<CompressionType>)
        ensures
            r == compression_of_id(value),
    {
        match value {
            0 => Some(CompressionType::Uncompressed),
            1 => Some(CompressionType::Gzip),
            2 => Some(CompressionType::Zlib),
            _ => None,
        }
    }

    /// The id of this method.
    pub fn to_u8(self) -> (r: u8)
        ensures
            r == compression_id(self),
            compression_of_id(r) == Some(self),
    {
        match self {
            CompressionType::Uncompressed => 0,
            CompressionType::Gzip => 1,
            CompressionType::Zlib => 2,
        }
    }
}

/// What unpacking `data` with `method` gives, if it succeeds.
pub open spec fn unpacked(method: CompressionType, data: Seq<u8>) -> Option<Seq<u8>> {
    match method {
        CompressionType::Uncompressed => Some(data),
        CompressionType::Gzip => gzip_decoded(data),
        CompressionType::Zlib => zlib_decoded(data),
    }
}

/// What the first of `candidates` that unpacks `data` gives; `None` if
/// none does.
pub open spec fn resolve(data: Seq<u8>, candidates: Seq<CompressionType>) -> Option<Seq<u8>>
    decreases candidates.len(),
{
    if candidates.len() == 0 {
        None
    } else {
        match unpacked(candidates[0], data) {
            Some(v) => Some(v),
            None => resolve(data, candidates.subrange(1, candidates.len() as int)),
        }
    }
}

/// The trial order for files that do not say how they are packed.
pub open spec fn flat_candidates() -> Seq<CompressionType> {
    seq![CompressionType::Gzip, CompressionType::Zlib, CompressionType::Uncompressed]
}

/// What a file that does not say how it is packed holds: its gzip decoding
/// if there is one, else its zlib decoding if there is one, else its bytes.
pub open spec fn flat_unpacked(data: Seq<u8>) -> Seq<u8> {
    match gzip_decoded(data) {
        Some(v) => v,
        None => match zlib_decoded(data) {
            Some(v) => v,
            None => data,
        },
    }
}

/// Unpacks `data` with one method.
pub fn unpack(data: &[u8], method: CompressionType) -> (r: Result<Vec<u8>, NbtError>)
    ensures
        match r {
            Ok(v) => unpacked(method, data@) == Some(v@),
            Err(e) => unpacked(method, data@) is None && e == NbtError::Compression(
                CompressionError::NoCodecMatched,
            ),
        },
{
    let out = match method {
        CompressionType::Uncompressed => Ok(slice_to_vec(data)),
        CompressionType::Gzip => gunzip(data),
        CompressionType::Zlib => inflate(data),
    };
    match out {
        Ok(v) => Ok(v),
        Err(_) => Err(NbtError::Compression(CompressionError::NoCodecMatched)),
    }
}

/// Tries each candidate in order and gives what the first that succeeds
/// unpacks; fails only when none does.
pub fn resolve_compression(data: &[u8], candidates: &[CompressionType]) -> (r: Result<
    Vec<u8>,
    NbtError,
>)
    ensures
        match r {
            Ok(v) => resolve(data@, candidates@) == Some(v@),
            Err(e) => resolve(data@, candidates@) is None && e == NbtError::Compression(
                CompressionError::NoCodecMatched,
            ),
        },
{
    let mut i: usize = 0;
    assert(candidates@.subrange(0, candidates@.len() as int) =~= candidates@);
    while i < candidates.len()
        invariant
            i <= candidates@.len(),
            resolve(data@, candidates@) == resolve(
                data@,
                candidates@.subrange(i as int, candidates@.len() as int),
            ),
        decreases candidates.len() - i,
    {
        let ghost rest = candidates@.subrange(i as int, candidates@.len() as int);
        assert(rest.subrange(1, rest.len() as int) =~= candidates@.subrange(
            i + 1,
            candidates@.len() as int,
        ));
        match unpack(data, candidates[i]) {
            Ok(v) => return Ok(v),
            Err(_) => {},
        }
        i = i + 1;
    }
    Err(NbtError::Compression(CompressionError::NoCodecMatched))
}

/// The bytes of a file whose packing is not stored with it.
pub struct GenericBinFile {
    raw_data: Vec<u8>,
}

impl View for GenericBinFile {
    type V = Seq<u8>;

    closed spec fn view(&self) -> Seq<u8> {
        self.raw_data@
    }
}

/// What a file that does not say how it is packed decodes to: the one
/// tree of its unpacked bytes.
pub open spec fn flat_trees(data: Seq<u8>) -> Result<Seq<Tag>, NbtError> {
    match decode_document(flat_unpacked(data)) {
        Ok(t) => Ok(seq![t]),
        Err(f) => Err(NbtError::Format(f)),
    }
}

/// The value of a list of compounds.
pub open spec fn compounds_view(v: Seq<NbtTagCompound>) -> Seq<Tag> {
    v.map(|i: int, c: NbtTagCompound| c@)
}

impl GenericBinFile {
    /// Holds the bytes of a file.
    pub fn new(raw_data: Vec<u8>) -> (r: GenericBinFile)
        ensures
            r@ == raw_data@,
    {
        GenericBinFile { raw_data }
    }

    pub fn get_raw_data(&self) -> (r: &Vec<u8>)
        ensures
            r@ == self@,
    {
        &self.raw_data
    }

    /// Unpacks the file by trying gzip, then zlib, then taking the bytes as
    /// they are; the last always succeeds.
    pub fn try_decode_data(&self) -> (r: Result<Vec<u8>, NbtError>)
        ensures
            resolve(self@, flat_candidates()) == Some(flat_unpacked(self@)),
            match r {
                Ok(v) => v@ == flat_unpacked(self@),
                Err(_) => false,
            },
    {
        let methods = vec![CompressionType::Gzip, CompressionType::Zlib, CompressionType::Uncompressed];
        proof {
            assert(methods@ =~= flat_candidates());
            reveal_with_fuel(resolve, 4);
        }
        resolve_compression(self.raw_data.as_slice(), methods.as_slice())
    }

    /// Unpacks a chunk payload with the method that its one-byte id names.
    pub fn decode_binary_data(&self, chunk_payload: &[u8], chunk_compression_method: &[u8]) -> (r:
        Result<Vec<u8>, NbtError>)
        requires
            chunk_compression_method@.len() >= 1,
        ensures
            match compression_of_id(chunk_compression_method@[0]) {
                None => r == Err::<Vec<u8>, NbtError>(
                    NbtError::Compression(CompressionError::UnknownMethod(chunk_compression_method@[0])),
                ),
                Some(c) => match unpacked(c, chunk_payload@) {
                    Some(v) => r matches Ok(b) && b@ == v,
                    None => r == Err::<Vec<u8>, NbtError>(
                        NbtError::Compression(CompressionError::NoCodecMatched),
                    ),
                },
            },
    {
        match CompressionType::from_u8(chunk_compression_method[0]) {
            Some(c) => unpack(chunk_payload, c),
            None => Err(NbtError::Compression(CompressionError::UnknownMethod(chunk_compression_method[0]))),
        }
    }

    /// Unpacks the file and decodes the one document it holds.
    pub fn to_compounds_list(&self) -> (r: Result<Vec<NbtTagCompound>, NbtError>)
        ensures
            match r {
                Ok(v) => flat_trees(self@) == Ok::<Seq<Tag>, NbtError>(compounds_view(v@)),
                Err(e) => flat_trees(self@) == Err::<Seq<Tag>, NbtError>(e),
            },
    {
        let data = match self.try_decode_data() {
            Ok(d) => d,
            Err(e) => return Err(e),
        };
        let root = match parse_bytes(data.as_slice()) {
            Ok(t) => t,
            Err(f) => return Err(NbtError::Format(f)),
        };
        match root {
            NbtTag::Compound(c) => {
                let mut list: Vec<NbtTagCompound> = Vec::new();
                list.push(c);
                assert(compounds_view(list@) =~= seq![list@[0]@]);
                Ok(list)
            },
            _ => {
                proof {
                    crate::decode::lemma_document_is_compound(data@);
                }
                Err(NbtError::Format(crate::error::FormatError::InvalidRoot))
            },
        }
    }
}

} // verus!
