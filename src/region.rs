use vstd::prelude::*;

use crate::decode::{decode_document, parse_bytes};
use crate::error::{FormatError, NbtError};
use crate::generic_bin::{compounds_view, compression_of_id, unpacked, GenericBinFile};
use crate::nbt_tag::{NbtTag, NbtTagCompound, Tag};
use crate::wire::{read_uint, uint_at};
use vstd::slice::slice_subrange;

pub use crate::generic_bin::CompressionType;

verus! {

/// Bytes of the offset table at the start of a container.
pub const HEADER_LENGTH: usize = 4096;

/// Number of slots in the offset table.
pub const CHUNK_SLOTS: usize = 1024;

const CHUNK_HEADER_LENGTH: usize = 4;

const CHUNK_HEADER_COMPRESSION: usize = 5;

/// The (byte offset, byte size) of slot `i` of the table at the start of
/// `d`. The first three bytes of the slot are read as the high bytes of a
/// big-endian 32-bit number and shifted left by 4 more bits, which makes
/// the sector number times 4096 in 32-bit arithmetic; the fourth byte is
/// the sector count, times 4096.
pub open spec fn slot_entry(d: Seq<u8>, i: int) -> (u32, u32) {
    let sector = uint_at(d, 4 * i, 3);
    (((sector * 4096) % 0x1_0000_0000) as u32, (d[4 * i + 3] * 4096) as u32)
}

/// The whole offset table of a container.
pub open spec fn offset_table(d: Seq<u8>) -> Seq<(u32, u32)> {
    Seq::new(CHUNK_SLOTS as nat, |i: int| slot_entry(d, i))
}

/// The unpacked bytes of the chunk at slot `i`: its range
/// `[offset, offset + size)` must lie in `d`; it starts with a 4-byte
/// big-endian payload length and a 1-byte method id, and that many payload
/// bytes follow inside the range.
pub open spec fn chunk_bytes(d: Seq<u8>, i: int) -> Result<Seq<u8>, NbtError> {
    let o = slot_entry(d, i).0 as int;
    let size = slot_entry(d, i).1 as int;
    if !(o < d.len() && o + size <= d.len()) || size < 5 {
        Err(NbtError::Bounds)
    } else {
        let n = uint_at(d, o, 4) as int;
        if 5 + n > size {
            Err(NbtError::Bounds)
        } else {
            match compression_of_id(d[o + 4]) {
                None => Err(NbtError::Compression(crate::error::CompressionError::UnknownMethod(d[o + 4]))),
                Some(c) => match unpacked(c, d.subrange(o + 5, o + 5 + n)) {
                    Some(v) => Ok(v),
                    None => Err(NbtError::Compression(crate::error::CompressionError::NoCodecMatched)),
                },
            }
        }
    }
}

/// The tree that the chunk at slot `i` holds.
#[verifier::opaque]
pub open spec fn chunk_tree(d: Seq<u8>, i: int) -> Result<Tag, NbtError> {
    match chunk_bytes(d, i) {
        Err(e) => Err(e),
        Ok(b) => match decode_document(b) {
            Ok(t) => Ok(t),
            Err(f) => Err(NbtError::Format(f)),
        },
    }
}

/// The trees of the present chunks from slot `i` on, after those in `acc`;
/// a slot with offset 0 is absent and adds nothing; the first chunk that
/// fails fails the whole.
pub open spec fn chunks_from(d: Seq<u8>, i: int, acc: Seq<Tag>) -> Result<Seq<Tag>, NbtError>
    decreases CHUNK_SLOTS - i,
{
    if !(0 <= i < CHUNK_SLOTS) {
        Ok(acc)
    } else if slot_entry(d, i).0 == 0 {
        chunks_from(d, i + 1, acc)
    } else {
        match chunk_tree(d, i) {
            Err(e) => Err(e),
            Ok(t) => chunks_from(d, i + 1, acc.push(t)),
        }
    }
}

/// The trees of all present chunks of a container, in slot order.
pub open spec fn region_trees(d: Seq<u8>) -> Result<Seq<Tag>, NbtError> {
    chunks_from(d, 0, Seq::empty())
}

/// The number of present slots (offset not 0) before slot `i`.
pub open spec fn present_before(d: Seq<u8>, i: int) -> nat
    decreases i,
{
    if i <= 0 {
        0
    } else {
        present_before(d, i - 1) + if slot_entry(d, i - 1).0 != 0 {
            1nat
        } else {
            0nat
        }
    }
}

proof fn lemma_present_before_monotonic(d: Seq<u8>, i: int, j: int)
    requires
        i <= j,
    ensures
        present_before(d, i) <= present_before(d, j),
    decreases j - i,
{
    if i < j {
        lemma_present_before_monotonic(d, i, j - 1);
    }
}

proof fn lemma_chunks_from_shape(d: Seq<u8>, i: int, acc: Seq<Tag>, ts: Seq<Tag>)
    requires
        0 <= i <= CHUNK_SLOTS,
        chunks_from(d, i, acc) == Ok::<Seq<Tag>, NbtError>(ts),
    ensures
        ts.len() == acc.len() + present_before(d, CHUNK_SLOTS as int) - present_before(d, i),
        ts.subrange(0, acc.len() as int) == acc,
        forall|j: int|
            i <= j < CHUNK_SLOTS && slot_entry(d, j).0 != 0 ==> #[trigger] chunk_tree(d, j) == Ok::<
                Tag,
                NbtError,
            >(ts[acc.len() + present_before(d, j) - present_before(d, i)]),
    decreases CHUNK_SLOTS - i,
{
    lemma_present_before_monotonic(d, i, CHUNK_SLOTS as int);
    if i == CHUNK_SLOTS {
        assert(ts.subrange(0, acc.len() as int) =~= acc);
    } else {
        assert(present_before(d, i + 1) == present_before(d, i) + if slot_entry(d, i).0 != 0 {
            1nat
        } else {
            0nat
        });
        if slot_entry(d, i).0 == 0 {
            lemma_chunks_from_shape(d, i + 1, acc, ts);
            assert forall|j: int|
                i <= j < CHUNK_SLOTS && slot_entry(d, j).0 != 0 implies #[trigger] chunk_tree(d, j) == Ok::<
                Tag,
                NbtError,
            >(ts[acc.len() + present_before(d, j) - present_before(d, i)]) by {
                assert(j != i);
            }
        } else {
            let t = chunk_tree(d, i)->Ok_0;
            let acc2 = acc.push(t);
            lemma_chunks_from_shape(d, i + 1, acc2, ts);
            lemma_present_before_monotonic(d, i + 1, CHUNK_SLOTS as int);
            assert(ts.subrange(0, acc2.len() as int).subrange(0, acc.len() as int) =~= ts.subrange(
                0,
                acc.len() as int,
            ));
            assert(acc2.subrange(0, acc.len() as int) =~= acc);
            assert(ts[acc.len() as int] == ts.subrange(0, acc2.len() as int)[acc.len() as int]);
            assert forall|j: int|
                i <= j < CHUNK_SLOTS && slot_entry(d, j).0 != 0 implies #[trigger] chunk_tree(d, j) == Ok::<
                Tag,
                NbtError,
            >(ts[acc.len() + present_before(d, j) - present_before(d, i)]) by {
                if j > i {
                    lemma_present_before_monotonic(d, i + 1, j);
                }
            }
        }
    }
}

/// Region law: a container's trees are those of its present slots in slot
/// order. A slot whose offset is 0 adds no tree; the tree that present
/// slot `i` adds is what decoding its payload as a document gives, once
/// the payload is unpacked with the chunk's method (for an uncompressed
/// chunk, the payload itself).
pub proof fn lemma_region_trees(d: Seq<u8>, ts: Seq<Tag>, i: int)
    requires
        region_trees(d) == Ok::<Seq<Tag>, NbtError>(ts),
        0 <= i < CHUNK_SLOTS,
    ensures
        ts.len() == present_before(d, CHUNK_SLOTS as int),
        slot_entry(d, i).0 == 0 ==> present_before(d, i + 1) == present_before(d, i),
        slot_entry(d, i).0 != 0 ==> present_before(d, i) < ts.len() && chunk_tree(d, i) == Ok::<
            Tag,
            NbtError,
        >(ts[present_before(d, i) as int]),
        slot_entry(d, i).0 != 0 ==> (match chunk_bytes(d, i) {
            Ok(b) => decode_document(b) == Ok::<Tag, FormatError>(ts[present_before(d, i) as int]),
            Err(_) => false,
        }),
        slot_entry(d, i).0 != 0 && d[slot_entry(d, i).0 + 4] == 0 ==> decode_document(
            d.subrange(
                slot_entry(d, i).0 + 5,
                slot_entry(d, i).0 + 5 + uint_at(d, slot_entry(d, i).0 as int, 4),
            ),
        ) == Ok::<Tag, FormatError>(ts[present_before(d, i) as int]),
{
    reveal(chunk_tree);
    lemma_chunks_from_shape(d, 0, Seq::empty(), ts);
    lemma_present_before_monotonic(d, i + 1, CHUNK_SLOTS as int);
    assert(present_before(d, i + 1) == present_before(d, i) + if slot_entry(d, i).0 != 0 {
        1nat
    } else {
        0nat
    });
}

/// A container of chunks with its offset table.
pub struct RegionFile {
    bin_content: GenericBinFile,
    num_chunks: usize,
    chunk_offsets: Vec<(u32, u32)>,
}

impl RegionFile {
    /// The bytes of the container.
    pub closed spec fn data(&self) -> Seq<u8> {
        self.bin_content@
    }

    #[verifier::type_invariant]
    closed spec fn table_matches(&self) -> bool {
        &&& self.bin_content@.len() >= HEADER_LENGTH
        &&& self.chunk_offsets@ == offset_table(self.bin_content@)
        &&& self.num_chunks == CHUNK_SLOTS
    }

    /// Reads the offset table of a container; fails if it is shorter than
    /// the table.
    pub fn new(raw_data: Vec<u8>) -> (r: Result<RegionFile, NbtError>)
        ensures
            match r {
                Ok(f) => f.data() == raw_data@ && raw_data@.len() >= HEADER_LENGTH,
                Err(e) => e == NbtError::HeaderTooShort && raw_data@.len() < HEADER_LENGTH,
            },
    {
        let header = match Self::read_header(&raw_data) {
            Ok(h) => h,
            Err(e) => return Err(e),
        };
        let offsets = Self::parse_chunk_offsets(header);
        let num_chunks = offsets.len();
        proof {
            assert forall|i: int| 0 <= i < CHUNK_SLOTS implies #[trigger] slot_entry(header@, i)
                == slot_entry(raw_data@, i) by {
                assert(header@.subrange(4 * i, 4 * i + 3) =~= raw_data@.subrange(4 * i, 4 * i + 3));
            }
            assert(offsets@ =~= offset_table(raw_data@));
        }
        Ok(RegionFile { bin_content: GenericBinFile::new(raw_data), num_chunks, chunk_offsets: offsets })
    }

    /// The number of slots of the offset table.
    pub fn get_chunks_num(&self) -> (r: usize)
        ensures
            r == CHUNK_SLOTS,
    {
        proof {
            use_type_invariant(self);
        }
        self.num_chunks
    }

    /// Decodes every present chunk, in slot order.
    pub fn to_compounds_list(&self) -> (r: Result<Vec<NbtTagCompound>, NbtError>)
        ensures
            match r {
                Ok(v) => region_trees(self.data()) == Ok::<Seq<Tag>, NbtError>(compounds_view(v@)),
                Err(e) => region_trees(self.data()) == Err::<Seq<Tag>, NbtError>(e),
            },
    {
        self.process_all_chunks()
    }

    fn process_all_chunks(&self) -> (r: Result<Vec<NbtTagCompound>, NbtError>)
        ensures
            match r {
                Ok(v) => region_trees(self.data()) == Ok::<Seq<Tag>, NbtError>(compounds_view(v@)),
                Err(e) => region_trees(self.data()) == Err::<Seq<Tag>, NbtError>(e),
            },
    {
        proof {
            use_type_invariant(self);
        }
        let ghost d = self.data();
        let mut list: Vec<NbtTagCompound> = Vec::new();
        let mut index: usize = 0;
        assert(compounds_view(list@) =~= Seq::<Tag>::empty());
        while index < self.num_chunks
            invariant
                d == self.data(),
                self.num_chunks == CHUNK_SLOTS,
                self.chunk_offsets@ == offset_table(d),
                index <= CHUNK_SLOTS,
                region_trees(d) == chunks_from(d, index as int, compounds_view(list@)),
            decreases CHUNK_SLOTS - index,
        {
            proof {
                reveal(chunk_tree);
            }
            let (offset, _) = self.chunk_offsets[index];
            if offset != 0 {
                let chunk_data = match self.read_and_decompress_chunk(index) {
                    Ok(b) => b,
                    Err(e) => return Err(e),
                };
                let root = match parse_bytes(chunk_data.as_slice()) {
                    Ok(t) => t,
                    Err(f) => return Err(NbtError::Format(f)),
                };
                match root {
                    NbtTag::Compound(c) => {
                        proof {
                            assert(compounds_view(list@.push(c)) =~= compounds_view(list@).push(c@));
                        }
                        list.push(c);
                    },
                    _ => {
                        proof {
                            crate::decode::lemma_document_is_compound(chunk_data@);
                        }
                        return Err(NbtError::Format(FormatError::InvalidRoot));
                    },
                }
            }
            index = index + 1;
        }
        Ok(list)
    }

    /// Unpacks the chunk at slot `index`.
    fn read_and_decompress_chunk(&self, index: usize) -> (r: Result<Vec<u8>, NbtError>)
        ensures
            index < CHUNK_SLOTS ==> match r {
                Ok(v) => chunk_bytes(self.data(), index as int) == Ok::<Seq<u8>, NbtError>(v@),
                Err(e) => chunk_bytes(self.data(), index as int) == Err::<Seq<u8>, NbtError>(e),
            },
            index >= CHUNK_SLOTS ==> r == Err::<Vec<u8>, NbtError>(NbtError::InvalidChunkIndex),
    {
        proof {
            use_type_invariant(self);
        }
        if index >= self.chunk_offsets.len() {
            return Err(NbtError::InvalidChunkIndex);
        }
        let (offset, size) = self.chunk_offsets[index];
        let raw_data = self.bin_content.get_raw_data();
        let offset = offset as usize;
        let size = size as usize;
        if !(offset < raw_data.len() && size <= raw_data.len() - offset) || size < CHUNK_HEADER_COMPRESSION {
            return Err(NbtError::Bounds);
        }
        proof {
            crate::wire::lemma_pow256_values();
        }
        let n = read_uint(raw_data.as_slice(), offset, CHUNK_HEADER_LENGTH) as usize;
        if n > size - CHUNK_HEADER_COMPRESSION {
            return Err(NbtError::Bounds);
        }
        let start = offset + CHUNK_HEADER_COMPRESSION;
        let payload = slice_subrange(raw_data.as_slice(), start, start + n);
        let method = slice_subrange(raw_data.as_slice(), offset + CHUNK_HEADER_LENGTH, start);
        assert(method@[0] == raw_data@[offset + 4]);
        self.bin_content.decode_binary_data(payload, method)
    }

    /// The first 4096 bytes of a container; fails if it is shorter.
    fn read_header(region_content: &Vec<u8>) -> (r: Result<&[u8], NbtError>)
        ensures
            match r {
                Ok(h) => region_content@.len() >= HEADER_LENGTH && h@ == region_content@.subrange(
                    0,
                    HEADER_LENGTH as int,
                ),
                Err(e) => region_content@.len() < HEADER_LENGTH && e == NbtError::HeaderTooShort,
            },
    {
        if region_content.len() >= HEADER_LENGTH {
            Ok(slice_subrange(region_content.as_slice(), 0, HEADER_LENGTH))
        } else {
            Err(NbtError::HeaderTooShort)
        }
    }

    /// Splits the table into its 1024 slots.
    fn parse_chunk_offsets(header: &[u8]) -> (r: Vec<(u32, u32)>)
        requires
            header@.len() == HEADER_LENGTH,
        ensures
            r@ == offset_table(header@),
    {
        let mut offsets: Vec<(u32, u32)> = Vec::with_capacity(CHUNK_SLOTS);
        let mut i: usize = 0;
        while i < CHUNK_SLOTS
            invariant
                i <= CHUNK_SLOTS,
                header@.len() == HEADER_LENGTH,
                offsets@ == Seq::new(i as nat, |k: int| slot_entry(header@, k)),
            decreases CHUNK_SLOTS - i,
        {
            let sector = read_uint(header, 4 * i, 3);
            proof {
                crate::wire::lemma_pow256_values();
                reveal_with_fuel(crate::wire::pow256, 4);
            }
            let offset = ((sector * 4096) % 0x1_0000_0000) as u32;
            let size = header[4 * i + 3] as u32 * 4096;
            offsets.push((offset, size));
            i = i + 1;
            assert(offsets@ =~= Seq::new(i as nat, |k: int| slot_entry(header@, k)));
        }
        offsets
    }
}

} // verus!
