use vstd::prelude::*;

use crate::error::NbtError;
use std::path::PathBuf;

verus! {

#[verifier::external_type_specification]
#[verifier::external_body]
pub struct ExPathBuf(std::path::PathBuf);

/// The two kinds of file this library reads.
#[derive(Clone, Copy, Debug, PartialEq, Eq, Structural)]
pub enum FileType {
    Nbt,
    Region,
}

/// How a file is to be read: whole, or as a stream.
#[derive(Clone, Copy, Debug, PartialEq, Eq, Structural)]
pub enum ReadMode {
    EntireFile,
    Stream,
}

/// Where a file is, how it is to be read, and what it holds. Reading the
/// file is left to the caller; this records the request.
pub struct FileParser {
    file_path: PathBuf,
    read_mode: ReadMode,
    file_type: FileType,
}

impl FileParser {
    pub closed spec fn spec_file_path(&self) -> PathBuf {
        self.file_path
    }

    pub closed spec fn spec_read_mode(&self) -> ReadMode {
        self.read_mode
    }

    pub closed spec fn spec_file_type(&self) -> FileType {
        self.file_type
    }

    pub fn new(file_path: PathBuf, read_mode: ReadMode, file_type: FileType) -> (r: FileParser)
        ensures
            r.spec_file_path() == file_path,
            r.spec_read_mode() == read_mode,
            r.spec_file_type() == file_type,
    {
        FileParser { file_path, read_mode, file_type }
    }

    pub fn file_path(&self) -> (r: &PathBuf)
        ensures
            *r == self.spec_file_path(),
    {
        &self.file_path
    }

    pub fn read_mode(&self) -> (r: ReadMode)
        ensures
            r == self.spec_read_mode(),
    {
        self.read_mode
    }

    pub fn file_type(&self) -> (r: FileType)
        ensures
            r == self.spec_file_type(),
    {
        self.file_type
    }

    /// Streaming reads are not offered: whole buffers are decoded in memory.
    pub fn read_stream(&self) -> (r: Result<Vec<u8>, NbtError>)
        ensures
            r == Err::<Vec<u8>, NbtError>(NbtError::StreamingUnsupported),
    {
        Err(NbtError::StreamingUnsupported)
    }
}

} // verus!
