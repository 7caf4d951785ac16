use vstd::prelude::*;

use crate::error::NbtError;
use crate::generic_bin::{compounds_view, flat_trees, GenericBinFile};
use crate::nbt_tag::{NbtTagCompound, Tag};
use crate::region::{region_trees, RegionFile, HEADER_LENGTH};
use std::path::PathBuf;

verus! {

/// Binary sources: a region container, or one NBT document that may be
/// packed with gzip or zlib.
#[derive(Clone, Copy, Debug, PartialEq, Eq, Structural)]
pub enum BinaryFormat {
    Region,
    Nbt,
}

/// What a file holds, as its extension says.
#[derive(Clone, Copy, Debug, PartialEq, Eq, Structural)]
pub enum SourceFormat {
    Binary(BinaryFormat),
    /// A tree exported as JSON earlier; reading it is left to the caller.
    Json,
}

/// The format that a file extension names: `mca` and `mcr` are region
/// containers, `nbt` and `litematic` single documents, `json` an exported
/// tree; any other fails with `UnsupportedExtension`.
pub open spec fn format_of_extension(ext: Seq<char>) -> Result<SourceFormat, NbtError> {
    if ext == "mca"@ || ext == "mcr"@ {
        Ok(SourceFormat::Binary(BinaryFormat::Region))
    } else if ext == "nbt"@ || ext == "litematic"@ {
        Ok(SourceFormat::Binary(BinaryFormat::Nbt))
    } else if ext == "json"@ {
        Ok(SourceFormat::Json)
    } else {
        Err(NbtError::UnsupportedExtension)
    }
}

/// Chooses the format by file extension.
pub fn source_format(ext: &str) -> (r: Result<SourceFormat, NbtError>)
    ensures
        r == format_of_extension(ext@),
{
    let e: String = ext.to_owned();
    if e.eq(&"mca".to_owned()) || e.eq(&"mcr".to_owned()) {
        Ok(SourceFormat::Binary(BinaryFormat::Region))
    } else if e.eq(&"nbt".to_owned()) || e.eq(&"litematic".to_owned()) {
        Ok(SourceFormat::Binary(BinaryFormat::Nbt))
    } else if e.eq(&"json".to_owned()) {
        Ok(SourceFormat::Json)
    } else {
        Err(NbtError::UnsupportedExtension)
    }
}

/// The trees that a binary source holds: every present chunk of a region
/// container, or the one document of an NBT file.
pub open spec fn binary_trees(format: BinaryFormat, data: Seq<u8>) -> Result<Seq<Tag>, NbtError> {
    match format {
        BinaryFormat::Region => if data.len() < HEADER_LENGTH {
            Err(NbtError::HeaderTooShort)
        } else {
            region_trees(data)
        },
        BinaryFormat::Nbt => flat_trees(data),
    }
}

/// A loaded file: where it came from and the compounds it holds.
pub struct McWorldDescriptor {
    pub input_path: PathBuf,
    pub version: String,
    pub tag_compounds_list: Vec<NbtTagCompound>,
}

impl McWorldDescriptor {
    /// Decodes the bytes of a binary source.
    pub fn new(input_path: PathBuf, format: BinaryFormat, data: Vec<u8>) -> (r: Result<
        McWorldDescriptor,
        NbtError,
    >)
        ensures
            match r {
                Ok(w) => binary_trees(format, data@) == Ok::<Seq<Tag>, NbtError>(
                    compounds_view(w.tag_compounds_list@),
                ) && w.input_path == input_path && w.version@ == "0.0.0"@,
                Err(e) => binary_trees(format, data@) == Err::<Seq<Tag>, NbtError>(e),
            },
    {
        let ghost d = data@;
        let list = match format {
            BinaryFormat::Region => {
                let region = match RegionFile::new(data) {
                    Ok(f) => f,
                    Err(e) => return Err(e),
                };
                region.to_compounds_list()
            },
            BinaryFormat::Nbt => GenericBinFile::new(data).to_compounds_list(),
        };
        match list {
            Ok(v) => Ok(McWorldDescriptor::from_compounds(input_path, v)),
            Err(e) => Err(e),
        }
    }

    /// A descriptor for compounds read by other means (an exported tree).
    pub fn from_compounds(input_path: PathBuf, list: Vec<NbtTagCompound>) -> (r: McWorldDescriptor)
        ensures
            r.input_path == input_path,
            r.tag_compounds_list@ == list@,
            r.version@ == "0.0.0"@,
    {
        McWorldDescriptor { input_path, version: "0.0.0".to_owned(), tag_compounds_list: list }
    }

    pub fn get_mc_version(&self) -> (r: String)
        ensures
            r@ == self.version@,
    {
        self.version.clone()
    }
}

} // verus!
