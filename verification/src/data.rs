//! SqPack data files: the header of a stored file, the frame tables that
//! say where its blocks lie, and how the blocks read from disk are cut.
use vstd::prelude::*;

use vstd::string::StringExecFns;

use crate::bulk::{push_digits, spec_digits};
use crate::provider::lemma_digits_ascii;
use crate::util::{ascii_chars, ascii_string, read_u16_le, read_u32_le, spec_u16_le, spec_u32_le};

verus! {

/// How a stored file is laid out.
#[derive(Clone, Copy, PartialEq, Eq, Debug, Structural)]
pub enum FileType {
    Default,
    Model,
    Image,
}

impl FileType {
    /// The layout of a stored file's type number (2, 3 or 4).
    pub fn from_raw(raw: u32) -> (r: FileType)
        requires
            2 <= raw <= 4,
        ensures
            r == (if raw == 2 {
                FileType::Default
            } else if raw == 3 {
                FileType::Model
            } else {
                FileType::Image
            }),
    {
        match raw {
            2 => FileType::Default,
            3 => FileType::Model,
            _ => FileType::Image,
        }
    }
}

/// Bytes of a file header.
pub const FILE_HEADER_SIZE: usize = 24;

/// The header before a stored file.
#[derive(Clone, Copy, PartialEq, Eq, Debug, Structural)]
pub struct FileHeader {
    pub header_length: u32,
    pub file_type: u32,
    pub uncompressed_size: u32,
    pub frame_count: u32,
}

pub open spec fn spec_file_header(d: Seq<u8>) -> FileHeader {
    FileHeader {
        header_length: spec_u32_le(d, 0) as u32,
        file_type: spec_u32_le(d, 4) as u32,
        uncompressed_size: spec_u32_le(d, 8) as u32,
        frame_count: spec_u32_le(d, 20) as u32,
    }
}

impl FileHeader {
    /// The header at the start of `d`, which must hold it.
    pub fn parse(d: &[u8]) -> (r: FileHeader)
        requires
            d@.len() >= 24,
        ensures
            r == spec_file_header(d@),
    {
        FileHeader {
            header_length: read_u32_le(d, 0),
            file_type: read_u32_le(d, 4),
            uncompressed_size: read_u32_le(d, 8),
            frame_count: read_u32_le(d, 20),
        }
    }
}

/// Bytes of one frame of a default file.
pub const DEFAULT_FRAME_INFO_SIZE: usize = 8;

/// Where one block of a default file lies.
#[derive(Clone, Copy, PartialEq, Eq, Debug, Structural)]
pub struct DefaultFrameInfo {
    pub block_offset: u32,
    pub block_size: u16,
    pub uncompressed_size: u16,
}

pub open spec fn spec_default_frame(d: Seq<u8>, at: int) -> DefaultFrameInfo {
    DefaultFrameInfo {
        block_offset: spec_u32_le(d, at) as u32,
        block_size: spec_u16_le(d, at + 4) as u16,
        uncompressed_size: spec_u16_le(d, at + 6) as u16,
    }
}

impl DefaultFrameInfo {
    /// The `count` frames at the start of `d`, which must hold them.
    pub fn parse_many(d: &[u8], count: usize) -> (r: Vec<DefaultFrameInfo>)
        requires
            d@.len() >= 8 * count,
        ensures
            r@.len() == count,
            forall|k: int| 0 <= k < count ==> #[trigger] r@[k] == spec_default_frame(d@, 8 * k),
    {
        let mut v: Vec<DefaultFrameInfo> = Vec::new();
        let mut k: usize = 0;
        let len = d.len();
        while k < count
            invariant
                k <= count,
                len == d@.len(),
                8 * count <= d@.len(),
                v@.len() == k,
                forall|j: int| 0 <= j < k ==> #[trigger] v@[j] == spec_default_frame(d@, 8 * j),
            decreases count - k,
        {
            let at = DEFAULT_FRAME_INFO_SIZE * k;
            v.push(
                DefaultFrameInfo {
                    block_offset: read_u32_le(d, at),
                    block_size: read_u16_le(d, at + 4),
                    uncompressed_size: read_u16_le(d, at + 6),
                },
            );
            k += 1;
        }
        v
    }
}

/// Bytes of one frame of an image file.
pub const IMAGE_FRAME_INFO_SIZE: usize = 20;

/// Where the blocks of one image frame lie.
#[derive(Clone, Copy, PartialEq, Eq, Debug, Structural)]
pub struct ImageFrameInfo {
    pub block_offset: u32,
    pub block_size: u32,
    pub sizes_table_offset: u32,
    pub block_count: u32,
}

pub open spec fn spec_image_frame(d: Seq<u8>, at: int) -> ImageFrameInfo {
    ImageFrameInfo {
        block_offset: spec_u32_le(d, at) as u32,
        block_size: spec_u32_le(d, at + 4) as u32,
        sizes_table_offset: spec_u32_le(d, at + 12) as u32,
        block_count: spec_u32_le(d, at + 16) as u32,
    }
}

/// The little-endian 32-bit word at byte `i` of `d`, byte by byte.
pub open spec fn word_at(d: Seq<u8>, i: int) -> int {
    d[i] + 256 * d[i + 1] + 65536 * d[i + 2] + 16777216 * d[i + 3]
}

/// A data file entry's header is six little-endian 32-bit words: the
/// header length (bytes 0 to 3), the file type (4 to 7), the uncompressed
/// size (8 to 11), two unused words, and the frame count (20 to 23).
pub proof fn lemma_file_header_layout(d: Seq<u8>)
    requires
        24 <= d.len(),
    ensures
        spec_file_header(d).header_length == word_at(d, 0),
        spec_file_header(d).file_type == word_at(d, 4),
        spec_file_header(d).uncompressed_size == word_at(d, 8),
        spec_file_header(d).frame_count == word_at(d, 20),
{
    assert(word_at(d, 0) < 0x1_0000_0000);
    assert(word_at(d, 4) < 0x1_0000_0000);
    assert(word_at(d, 8) < 0x1_0000_0000);
    assert(word_at(d, 20) < 0x1_0000_0000);
}

/// An image frame entry is five little-endian 32-bit words: the block
/// offset (bytes 0 to 3), the block size (4 to 7), an unused word (8 to 11),
/// the offset of its block size table (12 to 15) and its block count (16 to
/// 19); each frame read by `ImageFrameInfo::parse_many` is the entry at its
/// index.
pub proof fn lemma_image_frame_layout(d: Seq<u8>, count: int, k: int)
    requires
        0 <= k < count,
        20 * count <= d.len(),
    ensures
        spec_image_frame(d, 20 * k).block_offset == word_at(d, 20 * k),
        spec_image_frame(d, 20 * k).block_size == word_at(d, 20 * k + 4),
        spec_image_frame(d, 20 * k).sizes_table_offset == word_at(d, 20 * k + 12),
        spec_image_frame(d, 20 * k).block_count == word_at(d, 20 * k + 16),
{
    assert(20 * k + 20 <= 20 * count) by (nonlinear_arith)
        requires
            k < count,
    ;
    let e = 20 * k;
    assert(word_at(d, e) < 0x1_0000_0000);
    assert(word_at(d, e + 4) < 0x1_0000_0000);
    assert(word_at(d, e + 12) < 0x1_0000_0000);
    assert(word_at(d, e + 16) < 0x1_0000_0000);
}

/// A default frame entry is a little-endian 32-bit block offset (bytes 0 to
/// 3), then the 16-bit block size (4 and 5) and uncompressed size (6 and 7).
pub proof fn lemma_default_frame_layout(d: Seq<u8>, count: int, k: int)
    requires
        0 <= k < count,
        8 * count <= d.len(),
    ensures
        spec_default_frame(d, 8 * k).block_offset == word_at(d, 8 * k),
        spec_default_frame(d, 8 * k).block_size == d[8 * k + 4] + 256 * d[8 * k + 5],
        spec_default_frame(d, 8 * k).uncompressed_size == d[8 * k + 6] + 256 * d[8 * k + 7],
{
    assert(8 * k + 8 <= 8 * count) by (nonlinear_arith)
        requires
            k < count,
    ;
    assert(word_at(d, 8 * k) < 0x1_0000_0000);
}

impl ImageFrameInfo {
    /// The `count` frames at the start of `d`, which must hold them.
    pub fn parse_many(d: &[u8], count: usize) -> (r: Vec<ImageFrameInfo>)
        requires
            d@.len() >= 20 * count,
        ensures
            r@.len() == count,
            forall|k: int| 0 <= k < count ==> #[trigger] r@[k] == spec_image_frame(d@, 20 * k),
    {
        let mut v: Vec<ImageFrameInfo> = Vec::new();
        let mut k: usize = 0;
        let len = d.len();
        while k < count
            invariant
                k <= count,
                len == d@.len(),
                20 * count <= d@.len(),
                v@.len() == k,
                forall|j: int| 0 <= j < k ==> #[trigger] v@[j] == spec_image_frame(d@, 20 * j),
            decreases count - k,
        {
            let at = IMAGE_FRAME_INFO_SIZE * k;
            v.push(
                ImageFrameInfo {
                    block_offset: read_u32_le(d, at),
                    block_size: read_u32_le(d, at + 4),
                    sizes_table_offset: read_u32_le(d, at + 12),
                    block_count: read_u32_le(d, at + 16),
                },
            );
            k += 1;
        }
        v
    }
}

/// Number of chunks of a model file.
pub const MODEL_CHUNK_COUNT: usize = 11;

/// Bytes of the frame of a model file.
pub const MODEL_FRAME_INFO_SIZE: usize = 184;

/// Where the chunks of a model file lie.
pub struct ModelFrameInfo {
    pub uncompressed_chunk_sizes: Vec<u32>,
    pub sizes: Vec<u32>,
    pub offsets: Vec<u32>,
    pub start_block_indices: Vec<u16>,
    pub block_counts: Vec<u16>,
    pub number_of_meshes: u16,
    pub number_of_materials: u16,
}

/// `count` little-endian 32-bit numbers at `at`.
pub open spec fn spec_u32s(d: Seq<u8>, at: int, count: int) -> Seq<u32> {
    Seq::new(count as nat, |k: int| spec_u32_le(d, at + 4 * k) as u32)
}

/// `count` little-endian 16-bit numbers at `at`.
pub open spec fn spec_u16s(d: Seq<u8>, at: int, count: int) -> Seq<u16> {
    Seq::new(count as nat, |k: int| spec_u16_le(d, at + 2 * k) as u16)
}

/// Reads `count` little-endian 32-bit numbers at `at`.
fn read_u32s(d: &[u8], at: usize, count: usize) -> (r: Vec<u32>)
    requires
        at + 4 * count <= d@.len(),
    ensures
        r@ == spec_u32s(d@, at as int, count as int),
{
    let mut r: Vec<u32> = Vec::new();
    let mut k: usize = 0;
    let len = d.len();
    while k < count
        invariant
            k <= count,
            len == d@.len(),
            at + 4 * count <= d@.len(),
            r@ == spec_u32s(d@, at as int, k as int),
        decreases count - k,
    {
        r.push(read_u32_le(d, at + 4 * k));
        k += 1;
        assert(r@ =~= spec_u32s(d@, at as int, k as int));
    }
    r
}

/// Reads `count` little-endian 16-bit numbers at `at`.
fn read_u16s(d: &[u8], at: usize, count: usize) -> (r: Vec<u16>)
    requires
        at + 2 * count <= d@.len(),
    ensures
        r@ == spec_u16s(d@, at as int, count as int),
{
    let mut r: Vec<u16> = Vec::new();
    let mut k: usize = 0;
    let len = d.len();
    while k < count
        invariant
            k <= count,
            len == d@.len(),
            at + 2 * count <= d@.len(),
            r@ == spec_u16s(d@, at as int, k as int),
        decreases count - k,
    {
        r.push(read_u16_le(d, at + 2 * k));
        k += 1;
        assert(r@ =~= spec_u16s(d@, at as int, k as int));
    }
    r
}

impl ModelFrameInfo {
    /// The frame at the start of `d`, which must hold it.
    pub fn parse(d: &[u8]) -> (r: ModelFrameInfo)
        requires
            d@.len() >= 184,
        ensures
            r.uncompressed_chunk_sizes@ == spec_u32s(d@, 0, 11),
            r.sizes@ == spec_u32s(d@, 44, 11),
            r.offsets@ == spec_u32s(d@, 88, 11),
            r.start_block_indices@ == spec_u16s(d@, 132, 11),
            r.block_counts@ == spec_u16s(d@, 154, 11),
            r.number_of_meshes == spec_u16_le(d@, 176),
            r.number_of_materials == spec_u16_le(d@, 178),
    {
        ModelFrameInfo {
            uncompressed_chunk_sizes: read_u32s(d, 0, MODEL_CHUNK_COUNT),
            sizes: read_u32s(d, 44, MODEL_CHUNK_COUNT),
            offsets: read_u32s(d, 88, MODEL_CHUNK_COUNT),
            start_block_indices: read_u16s(d, 132, MODEL_CHUNK_COUNT),
            block_counts: read_u16s(d, 154, MODEL_CHUNK_COUNT),
            number_of_meshes: read_u16_le(d, 176),
            number_of_materials: read_u16_le(d, 178),
        }
    }

    /// The header kept with a model file: its numbers of meshes and of
    /// materials, as little-endian 16-bit numbers.
    pub fn header(&self) -> (r: Vec<u8>)
        ensures
            r@ == seq![
                (self.number_of_meshes % 256) as u8,
                (self.number_of_meshes / 256) as u8,
                (self.number_of_materials % 256) as u8,
                (self.number_of_materials / 256) as u8,
            ],
    {
        let m = self.number_of_meshes;
        let t = self.number_of_materials;
        vec![(m % 256) as u8, (m / 256) as u8, (t % 256) as u8, (t / 256) as u8]
    }

    /// The number of blocks of all chunks; `None` when it does not fit in
    /// 16 bits.
    pub fn total_block_count(&self) -> (r: Option<u16>)
        requires
            self.block_counts@.len() == 11,
        ensures
            r is Some <==> sum_u16(self.block_counts@) <= u16::MAX,
            r matches Some(n) ==> n == sum_u16(self.block_counts@),
    {
        let mut total: u16 = 0;
        let mut k: usize = 0;
        while k < self.block_counts.len()
            invariant
                k <= self.block_counts@.len(),
                total == sum_u16(self.block_counts@.subrange(0, k as int)),
            decreases self.block_counts@.len() - k,
        {
            let ghost s = self.block_counts@.subrange(0, k + 1);
            assert(s.drop_last() =~= self.block_counts@.subrange(0, k as int));
            match total.checked_add(self.block_counts[k]) {
                Some(t) => {
                    total = t;
                },
                None => {
                    proof {
                        lemma_sum_prefix(self.block_counts@, k + 1);
                    }
                    return None;
                },
            }
            k += 1;
        }
        assert(self.block_counts@.subrange(0, k as int) =~= self.block_counts@);
        Some(total)
    }
}

/// The sum of the numbers.
pub open spec fn sum_u16(s: Seq<u16>) -> int
    decreases s.len(),
{
    if s.len() == 0 {
        0
    } else {
        sum_u16(s.drop_last()) + s.last()
    }
}

/// A sum is at least the sum of any prefix.
proof fn lemma_sum_prefix(s: Seq<u16>, k: int)
    requires
        0 <= k <= s.len(),
    ensures
        sum_u16(s.subrange(0, k)) <= sum_u16(s),
    decreases s.len() - k,
{
    if k < s.len() {
        assert(s.subrange(0, k + 1).drop_last() =~= s.subrange(0, k));
        lemma_sum_prefix(s, k + 1);
    } else {
        assert(s.subrange(0, k) =~= s);
    }
}

/// Reads the table of `count` block sizes (little-endian 16-bit numbers).
pub fn parse_block_sizes(d: &[u8], count: usize) -> (r: Vec<u16>)
    requires
        2 * count <= d@.len(),
    ensures
        r@ == spec_u16s(d@, 0, count as int),
{
    read_u16s(d, 0, count)
}

/// Where block `i` starts among blocks read one after the other.
pub open spec fn block_start(sizes: Seq<u16>, i: int) -> int {
    sum_u16(sizes.subrange(0, i))
}

/// Cuts the blocks read one after the other: block `i` is the data from its
/// start to the end (a block's own header says how much of it is its).
pub fn iterate_blocks(block_data: &[u8], block_sizes: &[u16]) -> (r: Vec<Vec<u8>>)
    requires
        forall|i: int| 0 <= i < block_sizes@.len() ==> block_start(block_sizes@, i) <= block_data@.len(),
    ensures
        r@.len() == block_sizes@.len(),
        forall|i: int|
            0 <= i < r@.len() ==> (#[trigger] r@[i])@ == block_data@.subrange(
                block_start(block_sizes@, i),
                block_data@.len() as int,
            ),
{
    let mut r: Vec<Vec<u8>> = Vec::new();
    let mut offset: usize = 0;
    let mut k: usize = 0;
    assert(block_sizes@.subrange(0, 0) =~= Seq::<u16>::empty());
    while k < block_sizes.len()
        invariant
            k <= block_sizes@.len(),
            forall|i: int| 0 <= i < block_sizes@.len() ==> block_start(block_sizes@, i) <= block_data@.len(),
            k < block_sizes@.len() ==> offset == block_start(block_sizes@, k as int),
            offset <= block_data@.len(),
            r@.len() == k,
            forall|i: int|
                0 <= i < k ==> (#[trigger] r@[i])@ == block_data@.subrange(
                    block_start(block_sizes@, i),
                    block_data@.len() as int,
                ),
        decreases block_sizes@.len() - k,
    {
        assert(offset == block_start(block_sizes@, k as int));
        let block = vstd::slice::slice_to_vec(
            vstd::slice::slice_subrange(block_data, offset, block_data.len()),
        );
        r.push(block);
        let ghost s = block_sizes@.subrange(0, k + 1);
        assert(s.drop_last() =~= block_sizes@.subrange(0, k as int));
        if k + 1 < block_sizes.len() {
            assert(block_start(block_sizes@, k + 1) <= block_data@.len());
            offset = offset + block_sizes[k] as usize;
        }
        k += 1;
        assert(r@[k - 1]@ == block_data@.subrange(block_start(block_sizes@, k - 1), block_data@.len() as int));
    }
    r
}

/// A data file of an archive.
pub struct SqPackData {
    pub file_path: String,
}

/// The text `.dat`.
pub open spec fn dat_suffix() -> Seq<u8> {
    seq!['.' as u8, 'd' as u8, 'a' as u8, 't' as u8]
}

impl SqPackData {
    /// The data file number `index` of the archive whose files start with
    /// `base_path`: `<base_path>.dat<index>`.
    pub fn new(base_path: &str, index: u32) -> (r: SqPackData)
        ensures
            r.file_path@ == base_path@ + ascii_chars(dat_suffix() + spec_digits(index as nat, 10)),
    {
        let mut bytes: Vec<u8> = vec!['.' as u8, 'd' as u8, 'a' as u8, 't' as u8];
        push_digits(&mut bytes, index as u64, 10);
        proof {
            let d = spec_digits(index as nat, 10);
            lemma_digits_ascii(index as nat, 10);
            assert(bytes@ =~= dat_suffix() + d);
            assert forall|k: int| 0 <= k < bytes@.len() implies #[trigger] bytes@[k] < 0x80 by {
                if k >= 4 {
                    assert(bytes@[k] == d[k - 4]);
                }
            }
        }
        let suffix = ascii_string(bytes.as_slice());
        let mut file_path = base_path.to_owned();
        file_path.append(suffix.as_str());
        SqPackData { file_path }
    }
}

/// Where a block (or the header bytes, at block offset zero) of the file
/// stored at `base_offset` starts: past the file's header of
/// `header_length` bytes, at `block_offset`.
pub fn file_block_start(base_offset: u64, header_length: u32, block_offset: u32) -> (r: u64)
    requires
        base_offset + header_length + block_offset <= u64::MAX,
    ensures
        r == base_offset + header_length + block_offset,
{
    base_offset + header_length as u64 + block_offset as u64
}

/// Where the frame table of the file stored at `base_offset` starts: just
/// past its 24-byte header.
pub fn frame_table_start(base_offset: u64) -> (r: u64)
    requires
        base_offset + 24 <= u64::MAX,
    ensures
        r == base_offset + 24,
{
    base_offset + FILE_HEADER_SIZE as u64
}

/// Where the block sizes of a model file stored at `base_offset` start:
/// past its header and its frame information.
pub fn model_sizes_start(base_offset: u64) -> (r: u64)
    requires
        base_offset + 24 + 184 <= u64::MAX,
    ensures
        r == base_offset + 24 + 184,
{
    base_offset + FILE_HEADER_SIZE as u64 + MODEL_FRAME_INFO_SIZE as u64
}

/// Where the block size tables of an image file stored at `base_offset`
/// with `frame_count` frames start: past its header and its frame table.
pub fn image_sizes_start(base_offset: u64, frame_count: u32) -> (r: u64)
    requires
        base_offset + 24 + 20 * frame_count <= u64::MAX,
    ensures
        r == base_offset + 24 + 20 * frame_count,
{
    let table_size: u64 = (frame_count as u64) * 20;
    base_offset + 24 + table_size
}

/// The total length of blocks of the given sizes, which must fit in memory.
pub fn total_block_size(sizes: &[u16]) -> (r: usize)
    requires
        sum_u16(sizes@) <= usize::MAX,
    ensures
        r == sum_u16(sizes@),
{
    let mut total: usize = 0;
    let mut k: usize = 0;
    while k < sizes.len()
        invariant
            k <= sizes@.len(),
            total == sum_u16(sizes@.subrange(0, k as int)),
            sum_u16(sizes@) <= usize::MAX,
        decreases sizes@.len() - k,
    {
        assert(sizes@.subrange(0, k + 1).drop_last() =~= sizes@.subrange(0, k as int));
        proof {
            lemma_sum_prefix(sizes@, k + 1);
        }
        total = total + sizes[k] as usize;
        k += 1;
    }
    assert(sizes@.subrange(0, k as int) =~= sizes@);
    total
}

} // verus!
