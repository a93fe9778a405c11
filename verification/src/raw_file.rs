//! The block container that holds one archive file: a 12-byte file header
//! (uncompressed size, header size, block count), the file's own header
//! bytes, then blocks, each padded to four bytes. A block starts with a
//! 16-byte block header (header size, an unused word, compressed length, and
//! uncompressed length); a compressed length of 32000 or more marks a stored
//! block.
use vstd::prelude::*;
use vstd::slice::{slice_subrange, slice_to_vec};

use crate::data::word_at;
use crate::util::{
    le32_bytes, lemma_le32_roundtrip, lemma_round_up, push_u32_le, read_u32_le, round_up,
    spec_round_up, spec_u32_le,
};

verus! {

/// Size of the file header.
pub const FILE_HEADER_SIZE: usize = 12;

/// Size of a block header.
pub const BLOCK_HEADER_SIZE: usize = 16;

/// Compressed lengths from this value on mark a block stored without compression.
pub const STORED_BLOCK_MARK: u32 = 32000;

/// Length of a block: its header size plus its stored length (the
/// uncompressed length of a stored block, else the compressed length).
pub open spec fn spec_block_size(b: Seq<u8>) -> int {
    let header_size = spec_u32_le(b, 0);
    let compressed_length = spec_u32_le(b, 8);
    let uncompressed_length = spec_u32_le(b, 12);
    if compressed_length >= 32000 {
        header_size + uncompressed_length
    } else {
        header_size + compressed_length
    }
}

/// Length of the block that starts `block`, read from its header.
pub fn get_block_size(block: &[u8]) -> (r: usize)
    requires
        block@.len() >= BLOCK_HEADER_SIZE,
        spec_block_size(block@) <= usize::MAX,
    ensures
        r == spec_block_size(block@),
{
    let header_size = read_u32_le(block, 0);
    let compressed_length = read_u32_le(block, 8);
    let uncompressed_length = read_u32_le(block, 12);
    if compressed_length >= STORED_BLOCK_MARK {
        header_size as usize + uncompressed_length as usize
    } else {
        header_size as usize + compressed_length as usize
    }
}

/// The first `i` blocks of a container whose blocks start at `start`, and the
/// offset after them: each block is as long as its header says, and the next
/// one starts at its length rounded up to four.
pub open spec fn spec_blocks(d: Seq<u8>, start: int, i: nat) -> Option<(Seq<Seq<u8>>, int)>
    decreases i,
{
    if i == 0 {
        Some((Seq::empty(), start))
    } else {
        match spec_blocks(d, start, (i - 1) as nat) {
            None => None,
            Some((prev, offset)) => if offset + 16 <= d.len() {
                let size = spec_block_size(d.subrange(offset, offset + 16));
                if offset + size <= d.len() && offset + spec_round_up(size, 4) <= usize::MAX {
                    Some((prev.push(d.subrange(offset, offset + size)), offset + spec_round_up(size, 4)))
                } else {
                    None
                }
            } else {
                None
            },
        }
    }
}

/// Mathematical view of [`SqPackRawFile`].
pub struct SpecRawFile {
    pub uncompressed_size: u32,
    pub header: Seq<u8>,
    pub blocks: Seq<Seq<u8>>,
}

/// A container read from bytes: the file header, the file's own header
/// bytes, and the blocks. `None` when the bytes end early.
pub open spec fn spec_from_compressed_file(d: Seq<u8>) -> Option<SpecRawFile> {
    if d.len() < 12 {
        None
    } else {
        let header_size = spec_u32_le(d, 4);
        let block_count = spec_u32_le(d, 8);
        if 12 + header_size > d.len() {
            None
        } else {
            match spec_blocks(d, 12 + header_size, block_count as nat) {
                None => None,
                Some((blocks, _)) => Some(
                    SpecRawFile {
                        uncompressed_size: spec_u32_le(d, 0) as u32,
                        header: d.subrange(12, 12 + header_size),
                        blocks,
                    },
                ),
            }
        }
    }
}

/// What `miniz_oxide`'s raw-DEFLATE decoder makes of some bytes: the
/// decoded bytes, or `None` when it reports an error.
pub uninterp spec fn deflate_decoded(data: Seq<u8>) -> Option<Seq<u8>>;

/// Decodes raw DEFLATE data with `miniz_oxide::inflate::decompress_to_vec`,
/// turning its error into `None`. The decoder reports malformed data as an
/// error rather than panicking. Nothing is claimed of the decoded bytes
/// beyond their being `deflate_decoded` of the input.
#[verifier::external_body]
fn inflate(data: &[u8]) -> (r: Option<Vec<u8>>)
    ensures
        match r {
            Some(v) => deflate_decoded(data@) == Some(v@),
            None => deflate_decoded(data@) is None,
        },
{
    miniz_oxide::inflate::decompress_to_vec(data).ok()
}

/// The contents of one block: the stored bytes after its header for a
/// stored block, else the deflate-decoded compressed bytes. `None` when the
/// block is shorter than its header or than the lengths it gives, or the
/// compressed bytes do not decode.
pub open spec fn spec_decode_block(b: Seq<u8>) -> Option<Seq<u8>> {
    if b.len() < 16 {
        None
    } else {
        let header_size = spec_u32_le(b, 0);
        let compressed_length = spec_u32_le(b, 8);
        let uncompressed_length = spec_u32_le(b, 12);
        if compressed_length >= 32000 {
            if header_size + uncompressed_length <= b.len() {
                Some(b.subrange(header_size, header_size + uncompressed_length))
            } else {
                None
            }
        } else if header_size + compressed_length <= b.len() {
            deflate_decoded(b.subrange(header_size, header_size + compressed_length))
        } else {
            None
        }
    }
}

/// The contents of the blocks, one after another.
pub open spec fn spec_decode_blocks(bs: Seq<Seq<u8>>) -> Option<Seq<u8>>
    decreases bs.len(),
{
    if bs.len() == 0 {
        Some(Seq::empty())
    } else {
        match (spec_decode_blocks(bs.drop_last()), spec_decode_block(bs.last())) {
            (Some(a), Some(b)) => Some(a + b),
            _ => None,
        }
    }
}

/// The file's contents: its header bytes, then the contents of its blocks.
pub open spec fn spec_into_decoded(f: SpecRawFile) -> Option<Seq<u8>> {
    match spec_decode_blocks(f.blocks) {
        Some(body) => Some(f.header + body),
        None => None,
    }
}

/// A block that can be written out: it holds its whole header and at least
/// as many bytes as the header says.
pub open spec fn block_is_whole(b: Seq<u8>) -> bool {
    &&& b.len() >= 16
    &&& spec_block_size(b) <= b.len()
}

/// A written block: its bytes up to its length, then zeros up to a multiple of four.
pub open spec fn spec_encode_block(b: Seq<u8>) -> Seq<u8> {
    let size = spec_block_size(b);
    b.subrange(0, size) + Seq::new((spec_round_up(size, 4) - size) as nat, |i: int| 0u8)
}

/// The written blocks, one after another.
pub open spec fn spec_encode_blocks(bs: Seq<Seq<u8>>) -> Seq<u8>
    decreases bs.len(),
{
    if bs.len() == 0 {
        Seq::empty()
    } else {
        spec_encode_blocks(bs.drop_last()) + spec_encode_block(bs.last())
    }
}

/// A container written to bytes: the uncompressed size, the header length
/// and the block count (each cut to 32 bits), then the written blocks. The
/// header bytes themselves are not written.
pub open spec fn spec_into_compressed(f: SpecRawFile) -> Seq<u8> {
    le32_bytes(f.uncompressed_size) + le32_bytes((f.header.len() % 0x1_0000_0000) as u32)
        + le32_bytes((f.blocks.len() % 0x1_0000_0000) as u32) + spec_encode_blocks(f.blocks)
}

/// One archive file as a header and a list of (possibly compressed) blocks.
pub struct SqPackRawFile {
    uncompressed_size: u32,
    header: Vec<u8>,
    blocks: Vec<Vec<u8>>,
}

impl SqPackRawFile {
    pub closed spec fn spec_view(&self) -> SpecRawFile {
        SpecRawFile {
            uncompressed_size: self.uncompressed_size,
            header: self.header@,
            blocks: self.blocks@.map_values(|b: Vec<u8>| b@),
        }
    }

    pub fn from_blocks(uncompressed_size: u32, header: Vec<u8>, blocks: Vec<Vec<u8>>) -> (r: Self)
        ensures
            r.spec_view() == (SpecRawFile {
                uncompressed_size,
                header: header@,
                blocks: blocks@.map_values(|b: Vec<u8>| b@),
            }),
    {
        Self { uncompressed_size, header, blocks }
    }

    /// Appends the contents of one block to `result`; `false` (with
    /// `result` left as it was) when the block does not decode.
    fn decode_block_into(block: &[u8], result: &mut Vec<u8>) -> (r: bool)
        ensures
            match spec_decode_block(block@) {
                Some(c) => r && final(result)@ == old(result)@ + c,
                None => !r && final(result)@ == old(result)@,
            },
    {
        if block.len() < BLOCK_HEADER_SIZE {
            return false;
        }
        let header_size = read_u32_le(block, 0) as usize;
        let compressed_length = read_u32_le(block, 8) as usize;
        let uncompressed_length = read_u32_le(block, 12) as usize;
        let length = if compressed_length >= STORED_BLOCK_MARK as usize {
            uncompressed_length
        } else {
            compressed_length
        };
        if header_size > block.len() || length > block.len() - header_size {
            return false;
        }
        let data = slice_subrange(block, header_size, header_size + length);
        if compressed_length >= STORED_BLOCK_MARK as usize {
            let mut i: usize = 0;
            let ghost before = result@;
            while i < data.len()
                invariant
                    i <= data@.len(),
                    result@ == before + data@.subrange(0, i as int),
                decreases data@.len() - i,
            {
                result.push(data[i]);
                i += 1;
                assert(result@ =~= before + data@.subrange(0, i as int));
            }
            assert(data@.subrange(0, i as int) =~= data@);
            true
        } else {
            match inflate(data) {
                Some(mut decoded) => {
                    result.append(&mut decoded);
                    true
                },
                None => false,
            }
        }
    }

    /// The file's contents: its header bytes followed by the contents of
    /// every block. Every block must decode: hold the lengths its header
    /// gives and, when compressed, valid DEFLATE data.
    pub fn into_decoded(self) -> (r: Vec<u8>)
        requires
            spec_into_decoded(self.spec_view()) is Some,
        ensures
            spec_into_decoded(self.spec_view()) == Some(r@),
    {
        self.try_into_decoded().unwrap()
    }

    /// The file's contents as [`Self::into_decoded`] gives them; `None` when
    /// a block does not decode.
    pub fn try_into_decoded(self) -> (r: Option<Vec<u8>>)
        ensures
            match r {
                Some(v) => spec_into_decoded(self.spec_view()) == Some(v@),
                None => spec_into_decoded(self.spec_view()) is None,
            },
    {
        let ghost v = self.spec_view();
        let mut result = self.header;
        let n = self.blocks.len();
        let mut i: usize = 0;
        assert(v.blocks.take(0) =~= Seq::<Seq<u8>>::empty());
        while i < n
            invariant
                n == self.blocks@.len(),
                v == self.spec_view(),
                i <= n,
                spec_decode_blocks(v.blocks.take(i as int)) matches Some(body) && result@ == v.header
                    + body,
            decreases n - i,
        {
            assert(self.blocks[i as int]@ == v.blocks[i as int]);
            assert(v.blocks.take(i + 1).drop_last() =~= v.blocks.take(i as int));
            let ghost before = result@;
            if !Self::decode_block_into(&self.blocks[i], &mut result) {
                proof {
                    lemma_decode_blocks_none(v.blocks, i + 1);
                }
                return None;
            }
            assert(result@ =~= before + spec_decode_block(v.blocks[i as int]).unwrap());
            i += 1;
        }
        assert(v.blocks.take(n as int) =~= v.blocks);
        Some(result)
    }

    /// Writes the container in the form [`Self::from_compressed_file`] reads.
    pub fn into_compressed(self) -> (r: Vec<u8>)
        requires
            forall|i: int|
                0 <= i < self.spec_view().blocks.len() ==> block_is_whole(
                    #[trigger] self.spec_view().blocks[i],
                ),
            spec_into_compressed(self.spec_view()).len() <= usize::MAX,
        ensures
            r@ == spec_into_compressed(self.spec_view()),
    {
        let ghost v = self.spec_view();
        let mut result: Vec<u8> = Vec::new();
        push_u32_le(&mut result, self.uncompressed_size);
        let header_len: usize = self.header.len();
        let block_count: usize = self.blocks.len();
        assert((header_len as u32) as int == header_len as int % 0x1_0000_0000) by (bit_vector);
        assert((block_count as u32) as int == block_count as int % 0x1_0000_0000) by (bit_vector);
        push_u32_le(&mut result, #[verifier::truncate] (header_len as u32));
        push_u32_le(&mut result, #[verifier::truncate] (block_count as u32));
        let ghost head = result@;
        let n = self.blocks.len();
        let mut i: usize = 0;
        proof {
            lemma_encode_blocks_prefix(v.blocks, 0);
            assert(v.blocks.take(0) =~= Seq::<Seq<u8>>::empty());
        }
        while i < n
            invariant
                n == self.blocks@.len(),
                v == self.spec_view(),
                i <= n,
                head.len() == 12,
                spec_into_compressed(v) == head + spec_encode_blocks(v.blocks),
                spec_into_compressed(v).len() <= usize::MAX,
                forall|j: int| 0 <= j < v.blocks.len() ==> block_is_whole(#[trigger] v.blocks[j]),
                result@ == head + spec_encode_blocks(v.blocks.take(i as int)),
            decreases n - i,
        {
            let block = &self.blocks[i];
            assert(block@ == v.blocks[i as int]);
            proof {
                lemma_encode_blocks_prefix(v.blocks, i + 1);
                assert(v.blocks.take(i + 1).drop_last() =~= v.blocks.take(i as int));
                lemma_round_up(spec_block_size(block@), 4);
            }
            let block_size = get_block_size(block);
            let ghost before = result@;
            let mut k: usize = 0;
            while k < block_size
                invariant
                    k <= block_size,
                    block_size <= block@.len(),
                    result@ == before + block@.subrange(0, k as int),
                decreases block_size - k,
            {
                result.push(block[k]);
                k += 1;
                assert(result@ =~= before + block@.subrange(0, k as int));
            }
            let rounded_size = round_up(block_size, 4);
            while k < rounded_size
                invariant
                    block_size <= k <= rounded_size,
                    result@ == before + block@.subrange(0, block_size as int) + Seq::new(
                        (k - block_size) as nat,
                        |j: int| 0u8,
                    ),
                decreases rounded_size - k,
            {
                result.push(0);
                k += 1;
                assert(result@ =~= before + block@.subrange(0, block_size as int) + Seq::new(
                    (k - block_size) as nat,
                    |j: int| 0u8,
                ));
            }
            assert(result@ =~= before + spec_encode_block(block@));
            i += 1;
        }
        assert(v.blocks.take(n as int) =~= v.blocks);
        result
    }

    /// Reads a container from bytes, which must hold everything that the
    /// headers announce.
    pub fn from_compressed_file(data: &[u8]) -> (r: Self)
        requires
            spec_from_compressed_file(data@) is Some,
        ensures
            spec_from_compressed_file(data@) == Some(r.spec_view()),
    {
        Self::try_from_compressed_file(data).unwrap()
    }

    /// Reads a container from bytes as [`Self::from_compressed_file`] does;
    /// `None` where the bytes end before what the headers announce.
    pub fn try_from_compressed_file(data: &[u8]) -> (r: Option<Self>)
        ensures
            match r {
                Some(f) => spec_from_compressed_file(data@) == Some(f.spec_view()),
                None => spec_from_compressed_file(data@) is None,
            },
    {
        let ghost d = data@;
        if data.len() < FILE_HEADER_SIZE {
            return None;
        }
        let uncompressed_size = read_u32_le(data, 0);
        let header_size = read_u32_le(data, 4) as usize;
        let block_count = read_u32_le(data, 8);
        if header_size > data.len() - FILE_HEADER_SIZE {
            return None;
        }
        let header = slice_to_vec(slice_subrange(data, FILE_HEADER_SIZE, FILE_HEADER_SIZE + header_size));
        let begin = FILE_HEADER_SIZE + header_size;
        let mut blocks: Vec<Vec<u8>> = Vec::new();
        let mut offset = begin;
        let mut i: u32 = 0;
        while i < block_count
            invariant
                data@ == d,
                i <= block_count,
                spec_blocks(d, begin as int, block_count as nat) is None ==> spec_from_compressed_file(
                    d,
                ) is None,
                spec_blocks(d, begin as int, i as nat) == Some(
                    (blocks@.map_values(|b: Vec<u8>| b@), offset as int),
                ),
            decreases block_count - i,
        {
            if offset > data.len() || BLOCK_HEADER_SIZE > data.len() - offset {
                proof {
                    lemma_blocks_none(d, begin as int, (i + 1) as nat, block_count as nat);
                }
                return None;
            }
            let block_header = slice_subrange(data, offset, offset + BLOCK_HEADER_SIZE);
            let header_len = read_u32_le(block_header, 0) as u64;
            let compressed_length = read_u32_le(block_header, 8);
            let stored_length = if compressed_length >= STORED_BLOCK_MARK {
                read_u32_le(block_header, 12)
            } else {
                compressed_length
            } as u64;
            if header_len + stored_length > (data.len() - offset) as u64 {
                proof {
                    lemma_blocks_none(d, begin as int, (i + 1) as nat, block_count as nat);
                }
                return None;
            }
            let block_size = get_block_size(block_header);
            proof {
                lemma_round_up(block_size as int, 4);
            }
            let pad = if block_size % 4 == 0 {
                0
            } else {
                4 - block_size % 4
            };
            assert(spec_round_up(block_size as int, 4) == block_size + pad);
            if pad > usize::MAX - (offset + block_size) {
                proof {
                    lemma_blocks_none(d, begin as int, (i + 1) as nat, block_count as nat);
                }
                return None;
            }
            let block = slice_to_vec(slice_subrange(data, offset, offset + block_size));
            let ghost old_blocks = blocks@;
            blocks.push(block);
            assert(blocks@.map_values(|b: Vec<u8>| b@) =~= old_blocks.map_values(|b: Vec<u8>| b@).push(
                block@,
            ));
            offset = offset + round_up(block_size, 4);
            i += 1;
        }
        Some(Self { uncompressed_size, header, blocks })
    }
}

/// The layout of a container, as little-endian 32-bit words: the
/// uncompressed size (bytes 0 to 3), the length of the header bytes (4 to
/// 7) and the block count (8 to 11), then the header bytes; and of a block
/// header: its header size (bytes 0 to 3), an unused word, the compressed
/// length (8 to 11) and the uncompressed length (12 to 15). A block is as
/// long as its header size plus its compressed length, or its uncompressed
/// length when the compressed length is 32000 or more (a stored block).
pub proof fn lemma_container_layout(d: Seq<u8>, b: Seq<u8>)
    requires
        16 <= b.len(),
    ensures
        spec_from_compressed_file(d) matches Some(f) ==> {
            &&& f.uncompressed_size == word_at(d, 0)
            &&& f.header == d.subrange(12, 12 + word_at(d, 4))
            &&& f.blocks.len() == word_at(d, 8)
        },
        spec_block_size(b) == word_at(b, 0) + (if word_at(b, 8) >= 32000 {
            word_at(b, 12)
        } else {
            word_at(b, 8)
        }),
{
    if spec_from_compressed_file(d) is Some {
        let (blocks, _) = spec_blocks(d, 12 + spec_u32_le(d, 4), spec_u32_le(d, 8) as nat).unwrap();
        lemma_blocks_len(d, 12 + spec_u32_le(d, 4), spec_u32_le(d, 8) as nat);
        assert(word_at(d, 0) < 0x1_0000_0000);
    }
}

/// Reading `n` blocks gives `n` blocks.
proof fn lemma_blocks_len(d: Seq<u8>, start: int, n: nat)
    ensures
        spec_blocks(d, start, n) matches Some((bs, _)) ==> bs.len() == n,
    decreases n,
{
    if n > 0 {
        lemma_blocks_len(d, start, (n - 1) as nat);
    }
}

/// A block exactly as long as its header says (as reading produces them).
pub open spec fn block_is_exact(b: Seq<u8>) -> bool {
    &&& b.len() >= 16
    &&& spec_block_size(b) == b.len()
}

/// Reading back a written container gives the same container, when it has no
/// header bytes, fewer than 2^32 blocks, and each block exactly as long as its
/// header says. (Header bytes are not written, so a container with header
/// bytes does not come back.)
pub proof fn lemma_compressed_roundtrip(f: SpecRawFile)
    requires
        f.header.len() == 0,
        f.blocks.len() < 0x1_0000_0000,
        forall|i: int| 0 <= i < f.blocks.len() ==> block_is_exact(#[trigger] f.blocks[i]),
        spec_into_compressed(f).len() <= usize::MAX,
    ensures
        spec_from_compressed_file(spec_into_compressed(f)) == Some(f),
{
    let d = spec_into_compressed(f);
    let e = spec_encode_blocks(f.blocks);
    let n = f.blocks.len();
    lemma_le32_roundtrip(f.uncompressed_size);
    lemma_le32_roundtrip(0);
    lemma_le32_roundtrip(n as u32);
    assert(d.subrange(0, 4) =~= le32_bytes(f.uncompressed_size));
    assert(d.subrange(4, 8) =~= le32_bytes(0));
    assert(d.subrange(8, 12) =~= le32_bytes(n as u32));
    assert(spec_u32_le(d, 0) == spec_u32_le(d.subrange(0, 4), 0));
    assert(spec_u32_le(d, 4) == spec_u32_le(d.subrange(4, 8), 0));
    assert(spec_u32_le(d, 8) == spec_u32_le(d.subrange(8, 12), 0));
    assert(d.subrange(12, d.len() as int) =~= e);
    lemma_parse_encoded(d, f.blocks, n as nat);
    assert(f.blocks.take(n as int) =~= f.blocks);
    assert(d.subrange(12, 12) =~= f.header);
}

/// A block as far as its header says it reaches: what is written of it.
pub open spec fn cut_block(b: Seq<u8>) -> Seq<u8> {
    b.subrange(0, spec_block_size(b))
}

/// Every block cut where its header says it ends.
pub open spec fn cut_blocks(bs: Seq<Seq<u8>>) -> Seq<Seq<u8>> {
    bs.map_values(|b: Seq<u8>| cut_block(b))
}

/// A block at least as long as its header says, which says at least the
/// header's 16 bytes.
pub open spec fn block_is_long_enough(b: Seq<u8>) -> bool {
    16 <= spec_block_size(b) <= b.len()
}

/// Cutting a long-enough block keeps its header and what is written of it.
proof fn lemma_cut_block(b: Seq<u8>)
    requires
        block_is_long_enough(b),
    ensures
        block_is_exact(cut_block(b)),
        spec_encode_block(cut_block(b)) == spec_encode_block(b),
{
    let c = cut_block(b);
    assert(forall|j: int| 0 <= j < 16 ==> c[j] == b[j]);
    assert(spec_u32_le(c, 0) == spec_u32_le(b, 0));
    assert(spec_u32_le(c, 8) == spec_u32_le(b, 8));
    assert(spec_u32_le(c, 12) == spec_u32_le(b, 12));
    assert(c.subrange(0, spec_block_size(c)) =~= b.subrange(0, spec_block_size(b)));
}

/// Cutting every block changes nothing of what is written.
proof fn lemma_encode_cut(bs: Seq<Seq<u8>>)
    requires
        forall|i: int| 0 <= i < bs.len() ==> block_is_long_enough(#[trigger] bs[i]),
    ensures
        spec_encode_blocks(cut_blocks(bs)) == spec_encode_blocks(bs),
        forall|i: int| 0 <= i < bs.len() ==> block_is_exact(#[trigger] cut_blocks(bs)[i]),
    decreases bs.len(),
{
    let cs = cut_blocks(bs);
    if bs.len() > 0 {
        let rest = bs.drop_last();
        assert forall|i: int| 0 <= i < rest.len() implies block_is_long_enough(#[trigger] rest[i]) by {
            assert(rest[i] == bs[i]);
        }
        lemma_encode_cut(rest);
        assert(cs.drop_last() =~= cut_blocks(rest));
        lemma_cut_block(bs.last());
        assert(cs.last() == cut_block(bs.last()));
    }
    assert forall|i: int| 0 <= i < bs.len() implies block_is_exact(#[trigger] cs[i]) by {
        lemma_cut_block(bs[i]);
    }
}

/// Reading back a written container gives the container with each block
/// cut where its header says it ends, when it has no header bytes, fewer
/// than 2^32 blocks, and each block is at least as long as its header says
/// (which says at least the header's 16 bytes).
pub proof fn lemma_compressed_roundtrip_cut(f: SpecRawFile)
    requires
        f.header.len() == 0,
        f.blocks.len() < 0x1_0000_0000,
        forall|i: int| 0 <= i < f.blocks.len() ==> block_is_long_enough(#[trigger] f.blocks[i]),
        spec_into_compressed(f).len() <= usize::MAX,
    ensures
        spec_from_compressed_file(spec_into_compressed(f)) == Some(
            SpecRawFile {
                uncompressed_size: f.uncompressed_size,
                header: f.header,
                blocks: cut_blocks(f.blocks),
            },
        ),
{
    let g = SpecRawFile {
        uncompressed_size: f.uncompressed_size,
        header: f.header,
        blocks: cut_blocks(f.blocks),
    };
    lemma_encode_cut(f.blocks);
    assert(spec_into_compressed(g) == spec_into_compressed(f));
    lemma_compressed_roundtrip(g);
}

/// A long-enough block decodes as its cut does.
proof fn lemma_decode_cut_block(b: Seq<u8>)
    requires
        block_is_long_enough(b),
    ensures
        spec_decode_block(cut_block(b)) == spec_decode_block(b),
{
    let c = cut_block(b);
    lemma_cut_block(b);
    assert(forall|j: int| 0 <= j < 16 ==> c[j] == b[j]);
    assert(spec_u32_le(c, 0) == spec_u32_le(b, 0));
    assert(spec_u32_le(c, 8) == spec_u32_le(b, 8));
    assert(spec_u32_le(c, 12) == spec_u32_le(b, 12));
    let hs = spec_u32_le(b, 0);
    let cl = spec_u32_le(b, 8);
    let ul = spec_u32_le(b, 12);
    if cl >= 32000 {
        assert(c.subrange(hs, hs + ul) =~= b.subrange(hs, hs + ul));
    } else {
        assert(c.subrange(hs, hs + cl) =~= b.subrange(hs, hs + cl));
    }
}

/// Long-enough blocks decode as their cuts do.
proof fn lemma_decode_cut_blocks(bs: Seq<Seq<u8>>)
    requires
        forall|i: int| 0 <= i < bs.len() ==> block_is_long_enough(#[trigger] bs[i]),
    ensures
        spec_decode_blocks(cut_blocks(bs)) == spec_decode_blocks(bs),
    decreases bs.len(),
{
    if bs.len() > 0 {
        let rest = bs.drop_last();
        assert forall|i: int| 0 <= i < rest.len() implies block_is_long_enough(#[trigger] rest[i]) by {
            assert(rest[i] == bs[i]);
        }
        lemma_decode_cut_blocks(rest);
        assert(cut_blocks(bs).drop_last() =~= cut_blocks(rest));
        lemma_decode_cut_block(bs.last());
    }
}

/// A container written and read back decodes to the same bytes as the
/// container itself, when it has no header bytes, fewer than 2^32 blocks,
/// and each block is at least as long as its header says (which says at
/// least the header's 16 bytes).
pub proof fn lemma_compressed_roundtrip_decodes(f: SpecRawFile)
    requires
        f.header.len() == 0,
        f.blocks.len() < 0x1_0000_0000,
        forall|i: int| 0 <= i < f.blocks.len() ==> block_is_long_enough(#[trigger] f.blocks[i]),
        spec_into_compressed(f).len() <= usize::MAX,
    ensures
        spec_from_compressed_file(spec_into_compressed(f)) matches Some(g) && spec_into_decoded(g)
            == spec_into_decoded(f),
{
    lemma_compressed_roundtrip_cut(f);
    lemma_decode_cut_blocks(f.blocks);
}

/// Reading the first `k` blocks of bytes that hold written blocks at 12
/// gives those blocks back.
proof fn lemma_parse_encoded(d: Seq<u8>, bs: Seq<Seq<u8>>, k: nat)
    requires
        k <= bs.len(),
        12 + spec_encode_blocks(bs).len() <= d.len(),
        d.len() <= usize::MAX,
        d.subrange(12, 12 + spec_encode_blocks(bs).len() as int) == spec_encode_blocks(bs),
        forall|i: int| 0 <= i < bs.len() ==> block_is_exact(#[trigger] bs[i]),
    ensures
        spec_blocks(d, 12, k) == Some((bs.take(k as int), 12 + spec_encode_blocks(bs.take(k as int)).len() as int)),
    decreases k,
{
    if k == 0 {
        assert(bs.take(0) =~= Seq::<Seq<u8>>::empty());
    } else {
        lemma_parse_encoded(d, bs, (k - 1) as nat);
        let prev = bs.take(k - 1);
        let cur = bs.take(k as int);
        let b = bs[k - 1];
        assert(block_is_exact(b));
        assert(cur.drop_last() =~= prev);
        assert(cur.last() == b);
        let off: int = 12 + spec_encode_blocks(prev).len() as int;
        let size = spec_block_size(b);
        lemma_round_up(size, 4);
        let enc = spec_encode_block(b);
        assert(enc.len() == spec_round_up(size, 4));
        assert(spec_encode_blocks(cur) == spec_encode_blocks(prev) + enc);
        lemma_encode_blocks_prefix(bs, k as int);
        let ecur = spec_encode_blocks(cur);
        let eall = spec_encode_blocks(bs);
        assert forall|j: int| 0 <= j < enc.len() implies d[off + j] == #[trigger] enc[j] by {
            assert(ecur[spec_encode_blocks(prev).len() + j] == enc[j]);
            assert(eall.subrange(0, ecur.len() as int)[spec_encode_blocks(prev).len() + j] == enc[j]);
            assert(d.subrange(12, 12 + eall.len() as int)[spec_encode_blocks(prev).len() + j] == enc[j]);
        }
        assert forall|j: int| 0 <= j < size implies d[off + j] == #[trigger] b[j] by {
            assert(enc[j] == b[j]);
        }
        let hd = d.subrange(off, off + 16);
        assert(spec_block_size(hd) == size) by {
            assert forall|j: int| 0 <= j < 16 implies hd[j] == #[trigger] b[j] by {
                assert(d[off + j] == b[j]);
            }
        }
        assert(d.subrange(off, off + size) =~= b);
        assert(cur =~= prev.push(b));
    }
}

/// The written first `k` blocks are where the written blocks begin.
proof fn lemma_encode_blocks_prefix(bs: Seq<Seq<u8>>, k: int)
    requires
        0 <= k <= bs.len(),
    ensures
        spec_encode_blocks(bs.take(k)).len() <= spec_encode_blocks(bs).len(),
        spec_encode_blocks(bs).subrange(0, spec_encode_blocks(bs.take(k)).len() as int)
            == spec_encode_blocks(bs.take(k)),
    decreases bs.len(),
{
    if k == bs.len() {
        assert(bs.take(k) =~= bs);
        assert(spec_encode_blocks(bs).subrange(0, spec_encode_blocks(bs).len() as int) =~= spec_encode_blocks(bs));
    } else {
        lemma_encode_blocks_prefix(bs.drop_last(), k);
        assert(bs.drop_last().take(k) =~= bs.take(k));
        let e = spec_encode_blocks(bs.drop_last());
        let p = spec_encode_blocks(bs.take(k));
        assert(spec_encode_blocks(bs) == e + spec_encode_block(bs.last()));
        assert((e + spec_encode_block(bs.last())).subrange(0, p.len() as int) =~= e.subrange(0, p.len() as int));
    }
}

/// Conversion between a raw file and the extracted-file form kept on disk
/// and served in bulk, which has the same layout as the container.
pub trait ExtractedSqPackRawFile: Sized {
    spec fn spec_extracted_view(&self) -> SpecRawFile;

    /// Reads an extracted file, which must hold everything that its headers
    /// announce.
    fn from_extracted_file(data: Vec<u8>) -> (r: Self)
        requires
            spec_from_compressed_file(data@) is Some,
        ensures
            spec_from_compressed_file(data@) == Some(r.spec_extracted_view()),
    ;

    /// Writes the extracted form.
    fn into_extracted(self) -> (r: Vec<u8>)
        requires
            forall|i: int|
                0 <= i < self.spec_extracted_view().blocks.len() ==> block_is_whole(
                    #[trigger] self.spec_extracted_view().blocks[i],
                ),
            spec_into_compressed(self.spec_extracted_view()).len() <= usize::MAX,
        ensures
            r@ == spec_into_compressed(self.spec_extracted_view()),
    ;
}

impl ExtractedSqPackRawFile for SqPackRawFile {
    open spec fn spec_extracted_view(&self) -> SpecRawFile {
        self.spec_view()
    }

    fn from_extracted_file(data: Vec<u8>) -> (r: Self) {
        Self::from_compressed_file(data.as_slice())
    }

    fn into_extracted(self) -> (r: Vec<u8>) {
        self.into_compressed()
    }
}

/// A block that does not decode spoils every longer list of blocks.
proof fn lemma_decode_blocks_none(bs: Seq<Seq<u8>>, k: int)
    requires
        0 <= k <= bs.len(),
        spec_decode_blocks(bs.take(k)) is None,
    ensures
        spec_decode_blocks(bs) is None,
    decreases bs.len() - k,
{
    if k < bs.len() {
        assert(bs.take(k + 1).drop_last() =~= bs.take(k));
        lemma_decode_blocks_none(bs, k + 1);
    } else {
        assert(bs.take(k) =~= bs);
    }
}

/// Once reading some blocks fails, reading more fails too.
proof fn lemma_blocks_none(d: Seq<u8>, start: int, m: nat, n: nat)
    requires
        m <= n,
        spec_blocks(d, start, m) is None,
    ensures
        spec_blocks(d, start, n) is None,
    decreases n - m,
{
    if m < n {
        lemma_blocks_none(d, start, m, (n - 1) as nat);
    }
}

} // verus!
