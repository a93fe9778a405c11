//! SqPack index files: the headers at their start and the sorted tables of
//! folders and files through which a file's data offset is found.
use vstd::prelude::*;

use crate::reference::SqPackReaderError;
use crate::data::word_at;
use crate::util::{read_u32_le, spec_u32_le};

verus! {

/// Bytes of one entry of the folder table or of the file table.
pub const SEGMENT_ENTRY_SIZE: usize = 16;

/// Bytes of the header at the start of every SqPack file.
pub const SQPACK_HEADER_SIZE: usize = 24;

/// Bytes of the index header.
pub const INDEX_HEADER_SIZE: usize = 300;

/// The header at the start of every SqPack file.
#[derive(Clone, Copy, PartialEq, Eq, Debug, Structural)]
pub struct SqPackHeader {
    pub header_length: u32,
    pub file_type: u32,
}

/// Where one table of an index lies.
#[derive(Clone, Copy, PartialEq, Eq, Debug, Structural)]
pub struct SqPackIndexSegment {
    pub offset: u32,
    pub size: u32,
}

/// The header of an index file, after the SqPack header.
#[derive(Clone, Copy, PartialEq, Eq, Debug, Structural)]
pub struct SqPackIndexHeader {
    pub header_length: u32,
    pub file_segment: SqPackIndexSegment,
    pub dat_count: u32,
    pub segment2: SqPackIndexSegment,
    pub segment3: SqPackIndexSegment,
    pub folder_segment: SqPackIndexSegment,
}

/// An entry of the file table.
#[derive(Clone, Copy, PartialEq, Eq, Debug, Structural)]
pub struct FileSegment {
    pub file_hash: u32,
    pub folder_hash: u32,
    pub data_offset: u32,
}

/// An entry of the folder table: the folder's files are the entries of the
/// file table at `file_list_offset`, `file_list_size` bytes of them.
#[derive(Clone, Copy, PartialEq, Eq, Debug, Structural)]
pub struct FolderSegment {
    pub folder_hash: u32,
    pub file_list_offset: u32,
    pub file_list_size: u32,
}

pub open spec fn spec_sqpack_header(d: Seq<u8>) -> SqPackHeader {
    SqPackHeader {
        header_length: spec_u32_le(d, 12) as u32,
        file_type: spec_u32_le(d, 20) as u32,
    }
}

pub open spec fn spec_index_segment(d: Seq<u8>, at: int) -> SqPackIndexSegment {
    SqPackIndexSegment { offset: spec_u32_le(d, at) as u32, size: spec_u32_le(d, at + 4) as u32 }
}

pub open spec fn spec_index_header(d: Seq<u8>, at: int) -> SqPackIndexHeader {
    SqPackIndexHeader {
        header_length: spec_u32_le(d, at) as u32,
        file_segment: spec_index_segment(d, at + 8),
        dat_count: spec_u32_le(d, at + 80) as u32,
        segment2: spec_index_segment(d, at + 84),
        segment3: spec_index_segment(d, at + 156),
        folder_segment: spec_index_segment(d, at + 228),
    }
}

pub open spec fn spec_file_segment(d: Seq<u8>, at: int) -> FileSegment {
    FileSegment {
        file_hash: spec_u32_le(d, at) as u32,
        folder_hash: spec_u32_le(d, at + 4) as u32,
        data_offset: spec_u32_le(d, at + 8) as u32,
    }
}

pub open spec fn spec_folder_segment(d: Seq<u8>, at: int) -> FolderSegment {
    FolderSegment {
        folder_hash: spec_u32_le(d, at) as u32,
        file_list_offset: spec_u32_le(d, at + 4) as u32,
        file_list_size: spec_u32_le(d, at + 8) as u32,
    }
}

/// The layout of an index file's headers and tables, as little-endian
/// 32-bit words: the SqPack header gives its length at byte 12 and the file
/// type at 20; the index header at `at` gives its length at `at`, the file
/// table's offset and size at `at + 8` and `at + 12`, the number of data
/// files at `at + 80`, and the folder table's offset and size at `at + 228`
/// and `at + 232`; a table entry at `e` holds its first three words at `e`,
/// `e + 4` and `e + 8` (file hash, folder hash and data offset for a file;
/// folder hash, file list offset and file list size for a folder).
pub proof fn lemma_index_layout(d: Seq<u8>, at: int, e: int)
    requires
        24 <= d.len(),
        0 <= at,
        at + 236 <= d.len(),
        0 <= e,
        e + 12 <= d.len(),
    ensures
        spec_sqpack_header(d).header_length == word_at(d, 12),
        spec_sqpack_header(d).file_type == word_at(d, 20),
        spec_index_header(d, at).header_length == word_at(d, at),
        spec_index_header(d, at).file_segment.offset == word_at(d, at + 8),
        spec_index_header(d, at).file_segment.size == word_at(d, at + 12),
        spec_index_header(d, at).dat_count == word_at(d, at + 80),
        spec_index_header(d, at).folder_segment.offset == word_at(d, at + 228),
        spec_index_header(d, at).folder_segment.size == word_at(d, at + 232),
        spec_file_segment(d, e) == (FileSegment {
            file_hash: word_at(d, e) as u32,
            folder_hash: word_at(d, e + 4) as u32,
            data_offset: word_at(d, e + 8) as u32,
        }),
        spec_folder_segment(d, e) == (FolderSegment {
            folder_hash: word_at(d, e) as u32,
            file_list_offset: word_at(d, e + 4) as u32,
            file_list_size: word_at(d, e + 8) as u32,
        }),
{
    assert(word_at(d, 12) < 0x1_0000_0000);
    assert(word_at(d, 20) < 0x1_0000_0000);
    assert(word_at(d, at) < 0x1_0000_0000);
    assert(word_at(d, at + 8) < 0x1_0000_0000);
    assert(word_at(d, at + 12) < 0x1_0000_0000);
    assert(word_at(d, at + 80) < 0x1_0000_0000);
    assert(word_at(d, at + 228) < 0x1_0000_0000);
    assert(word_at(d, at + 232) < 0x1_0000_0000);
}

/// Whether a table of `size` bytes at `offset` lies inside the data.
pub open spec fn table_fits(d: Seq<u8>, seg: SqPackIndexSegment) -> bool {
    seg.size / 16 == 0 || seg.offset + (seg.size / 16) * 16 <= d.len()
}

/// Whether the data hold both headers and both tables.
pub open spec fn index_fits(d: Seq<u8>) -> bool {
    &&& d.len() >= 24
    &&& spec_sqpack_header(d).header_length + 300 <= d.len()
    &&& table_fits(d, spec_index_header(d, spec_sqpack_header(d).header_length as int).folder_segment)
    &&& table_fits(d, spec_index_header(d, spec_sqpack_header(d).header_length as int).file_segment)
}

/// An index: its folder and file tables, as read.
pub struct SqPackIndex {
    pub dat_count: u32,
    pub folder_segments: Vec<FolderSegment>,
    pub file_segments: Vec<FileSegment>,
    pub file_segment_base: u32,
}

/// Whether the hashes that `key` picks from `s` never decrease.
pub open spec fn folders_sorted(s: Seq<FolderSegment>) -> bool {
    forall|i: int, j: int| 0 <= i < j < s.len() ==> s[i].folder_hash <= s[j].folder_hash
}

pub open spec fn files_sorted(s: Seq<FileSegment>, begin: int, end: int) -> bool {
    forall|i: int, j: int| begin <= i < j < end ==> s[i].file_hash <= s[j].file_hash
}

/// Whether no two folders have the same hash and the hashes increase.
pub open spec fn folders_strictly_sorted(s: Seq<FolderSegment>) -> bool {
    forall|i: int, j: int| 0 <= i < j < s.len() ==> s[i].folder_hash < s[j].folder_hash
}

impl SqPackIndex {
    /// Whether the index is sorted as the game writes it: folder hashes
    /// increasing, and within each folder's files the file hashes not
    /// decreasing.
    pub open spec fn is_sorted(&self) -> bool {
        &&& folders_strictly_sorted(self.folder_table())
        &&& forall|i: int|
            0 <= i < self.folder_table().len() ==> match self.file_range(
                #[trigger] self.folder_table()[i],
            ) {
                Some((b, e)) => files_sorted(self.file_table(), b, e),
                None => true,
            }
    }

    /// The folder table.
    pub open spec fn folder_table(&self) -> Seq<FolderSegment> {
        self.folder_segments@
    }

    /// The file table.
    pub open spec fn file_table(&self) -> Seq<FileSegment> {
        self.file_segments@
    }

    /// The offset in the data at which the file table starts.
    pub open spec fn file_base(&self) -> u32 {
        self.file_segment_base
    }

    /// The entries of the file table that belong to `folder`, as a range of
    /// indices; `None` where the folder points before the file table or past
    /// its end.
    pub open spec fn file_range(&self, folder: FolderSegment) -> Option<(int, int)> {
        if folder.file_list_offset < self.file_base() {
            None
        } else {
            let begin = (folder.file_list_offset - self.file_base()) / 16;
            let end = begin + folder.file_list_size / 16;
            if end <= self.file_table().len() {
                Some((begin, end))
            } else {
                None
            }
        }
    }

    /// Whether some folder with hash `folder_hash` lists a file with hash
    /// `file_hash` whose data is at `offset`.
    pub open spec fn lists(&self, folder_hash: u32, file_hash: u32, offset: u32) -> bool {
        exists|i: int, j: int|
            #![trigger self.folder_table()[i], self.file_table()[j]]
            {
                &&& 0 <= i < self.folder_table().len()
                &&& self.folder_table()[i].folder_hash == folder_hash
                &&& self.file_range(self.folder_table()[i]) matches Some((b, e))
                &&& b <= j < e
                &&& self.file_table()[j].file_hash == file_hash
                &&& self.file_table()[j].data_offset == offset
            }
    }

    /// Whether a folder with hash `folder_hash` is in the table.
    pub open spec fn has_folder(&self, folder_hash: u32) -> bool {
        exists|i: int| 0 <= i < self.folder_table().len() && #[trigger] self.folder_table()[i].folder_hash == folder_hash
    }

    /// Reads an index from the bytes of its file, in which the headers and
    /// the tables they point to must fit.
    pub fn from_bytes(data: &[u8]) -> (r: SqPackIndex)
        requires
            index_fits(data@),
        ensures
            ({
                let h = spec_index_header(data@, spec_sqpack_header(data@).header_length as int);
                &&& r.dat_count == h.dat_count
                &&& r.file_base() == h.file_segment.offset
                &&& r.folder_table().len() == h.folder_segment.size / 16
                &&& forall|k: int| 0 <= k < r.folder_table().len() ==> #[trigger] r.folder_table()[k]
                    == spec_folder_segment(data@, h.folder_segment.offset + k * 16)
                &&& r.file_table().len() == h.file_segment.size / 16
                &&& forall|k: int| 0 <= k < r.file_table().len() ==> #[trigger] r.file_table()[k]
                    == spec_file_segment(data@, h.file_segment.offset + k * 16)
            }),
    {
        Self::try_from_bytes(data).unwrap()
    }

    /// Reads an index as [`Self::from_bytes`] does; `None` when the headers or
    /// the tables they point to do not fit in the data.
    pub fn try_from_bytes(data: &[u8]) -> (r: Option<SqPackIndex>)
        ensures
            r is Some <==> index_fits(data@),
            r matches Some(index) ==> {
                let h = spec_index_header(data@, spec_sqpack_header(data@).header_length as int);
                &&& index.dat_count == h.dat_count
                &&& index.file_base() == h.file_segment.offset
                &&& index.folder_table().len() == h.folder_segment.size / 16
                &&& forall|k: int| 0 <= k < index.folder_table().len() ==> #[trigger] index.folder_table()[k]
                    == spec_folder_segment(data@, h.folder_segment.offset + k * 16)
                &&& index.file_table().len() == h.file_segment.size / 16
                &&& forall|k: int| 0 <= k < index.file_table().len() ==> #[trigger] index.file_table()[k]
                    == spec_file_segment(data@, h.file_segment.offset + k * 16)
            },
    {
        if data.len() < SQPACK_HEADER_SIZE {
            return None;
        }
        let header_length = read_u32_le(data, 12);
        if data.len() < INDEX_HEADER_SIZE || header_length as usize > data.len() - INDEX_HEADER_SIZE {
            return None;
        }
        let at = header_length as usize;
        let file_offset = read_u32_le(data, at + 8);
        let file_size = read_u32_le(data, at + 12);
        let dat_count = read_u32_le(data, at + 80);
        let folder_offset = read_u32_le(data, at + 228);
        let folder_size = read_u32_le(data, at + 232);
        let ghost h = spec_index_header(data@, at as int);
        let folder_count = folder_size as usize / SEGMENT_ENTRY_SIZE;
        let file_count = file_size as usize / SEGMENT_ENTRY_SIZE;
        if folder_count > 0 && (folder_offset as usize > data.len() || folder_count > (data.len()
            - folder_offset as usize) / SEGMENT_ENTRY_SIZE) {
            assert(!table_fits(data@, h.folder_segment)) by (nonlinear_arith)
                requires
                    h.folder_segment.size / 16 == folder_count,
                    h.folder_segment.offset == folder_offset,
                    folder_offset > data@.len() || folder_count > (data@.len() - folder_offset) / 16,
                    folder_count > 0,
            ;
            return None;
        }
        if file_count > 0 && (file_offset as usize > data.len() || file_count > (data.len()
            - file_offset as usize) / SEGMENT_ENTRY_SIZE) {
            assert(!table_fits(data@, h.file_segment)) by (nonlinear_arith)
                requires
                    h.file_segment.size / 16 == file_count,
                    h.file_segment.offset == file_offset,
                    file_offset > data@.len() || file_count > (data@.len() - file_offset) / 16,
                    file_count > 0,
            ;
            return None;
        }
        proof {
            if folder_count > 0 {
                assert(folder_offset + folder_count * 16 <= data@.len()) by (nonlinear_arith)
                    requires
                        folder_offset <= data@.len(),
                        folder_count <= (data@.len() - folder_offset) / 16,
                ;
            }
            if file_count > 0 {
                assert(file_offset + file_count * 16 <= data@.len()) by (nonlinear_arith)
                    requires
                        file_offset <= data@.len(),
                        file_count <= (data@.len() - file_offset) / 16,
                ;
            }
        }
        let mut folder_segments: Vec<FolderSegment> = Vec::new();
        let mut k: usize = 0;
        while k < folder_count
            invariant
                k <= folder_count,
                folder_count > 0 ==> folder_offset + folder_count * 16 <= data@.len(),
                folder_segments@.len() == k,
                data@.len() == data.len(),
                forall|m: int| 0 <= m < k ==> #[trigger] folder_segments@[m] == spec_folder_segment(
                    data@,
                    folder_offset + m * 16,
                ),
            decreases folder_count - k,
        {
            assert(folder_offset + k * 16 + 16 <= data@.len()) by (nonlinear_arith)
                requires
                    k < folder_count,
                    folder_offset + folder_count * 16 <= data@.len(),
            ;
            let p = folder_offset as usize + k * SEGMENT_ENTRY_SIZE;
            folder_segments.push(
                FolderSegment {
                    folder_hash: read_u32_le(data, p),
                    file_list_offset: read_u32_le(data, p + 4),
                    file_list_size: read_u32_le(data, p + 8),
                },
            );
            k += 1;
        }
        let mut file_segments: Vec<FileSegment> = Vec::new();
        let mut k: usize = 0;
        while k < file_count
            invariant
                k <= file_count,
                file_count > 0 ==> file_offset + file_count * 16 <= data@.len(),
                file_segments@.len() == k,
                data@.len() == data.len(),
                forall|m: int| 0 <= m < k ==> #[trigger] file_segments@[m] == spec_file_segment(
                    data@,
                    file_offset + m * 16,
                ),
            decreases file_count - k,
        {
            assert(file_offset + k * 16 + 16 <= data@.len()) by (nonlinear_arith)
                requires
                    k < file_count,
                    file_offset + file_count * 16 <= data@.len(),
            ;
            let p = file_offset as usize + k * SEGMENT_ENTRY_SIZE;
            file_segments.push(
                FileSegment {
                    file_hash: read_u32_le(data, p),
                    folder_hash: read_u32_le(data, p + 4),
                    data_offset: read_u32_le(data, p + 8),
                },
            );
            k += 1;
        }
        Some(SqPackIndex { dat_count, folder_segments, file_segments, file_segment_base: file_offset })
    }

    /// Binary search of the folder table for `folder_hash`.
    fn search_folder(&self, folder_hash: u32) -> (r: Option<usize>)
        ensures
            r matches Some(i) ==> i < self.folder_table().len() && self.folder_table()[i as int].folder_hash
                == folder_hash,
            r is None && folders_sorted(self.folder_table()) ==> !self.has_folder(folder_hash),
    {
        let mut lo: usize = 0;
        let mut hi: usize = self.folder_segments.len();
        while lo < hi
            invariant
                lo <= hi <= self.folder_table().len(),
                self.folder_table() == self.folder_segments@,
                folders_sorted(self.folder_table()) ==> forall|i: int|
                    0 <= i < self.folder_table().len() && #[trigger] self.folder_table()[i].folder_hash
                        == folder_hash ==> lo <= i < hi,
            decreases hi - lo,
        {
            let mid = lo + (hi - lo) / 2;
            let key = self.folder_segments[mid].folder_hash;
            if key == folder_hash {
                return Some(mid);
            } else if key < folder_hash {
                lo = mid + 1;
            } else {
                hi = mid;
            }
        }
        None
    }

    /// Binary search of the entries `begin..end` of the file table for
    /// `file_hash`.
    fn search_file(&self, begin: usize, end: usize, file_hash: u32) -> (r: Option<usize>)
        requires
            begin <= end <= self.file_table().len(),
        ensures
            r matches Some(j) ==> begin <= j < end && self.file_table()[j as int].file_hash == file_hash,
            r is None && files_sorted(self.file_table(), begin as int, end as int) ==> forall|j: int|
                begin <= j < end ==> #[trigger] self.file_table()[j].file_hash != file_hash,
    {
        let mut lo: usize = begin;
        let mut hi: usize = end;
        while lo < hi
            invariant
                begin <= lo <= hi <= end <= self.file_table().len(),
                self.file_table() == self.file_segments@,
                files_sorted(self.file_table(), begin as int, end as int) ==> forall|j: int|
                    begin <= j < end && #[trigger] self.file_table()[j].file_hash == file_hash ==> lo
                        <= j < hi,
            decreases hi - lo,
        {
            let mid = lo + (hi - lo) / 2;
            let key = self.file_segments[mid].file_hash;
            if key == file_hash {
                return Some(mid);
            } else if key < file_hash {
                lo = mid + 1;
            } else {
                hi = mid;
            }
        }
        None
    }

    /// The range of the file table that `folder` lists.
    fn folder_files(&self, folder: &FolderSegment) -> (r: Option<(usize, usize)>)
        ensures
            match r {
                Some((b, e)) => self.file_range(*folder) == Some((b as int, e as int)),
                None => self.file_range(*folder) is None,
            },
    {
        if folder.file_list_offset < self.file_segment_base {
            return None;
        }
        let begin = (folder.file_list_offset - self.file_segment_base) as usize / SEGMENT_ENTRY_SIZE;
        let count = folder.file_list_size as usize / SEGMENT_ENTRY_SIZE;
        if count > self.file_segments.len() || begin > self.file_segments.len() - count {
            return None;
        }
        Some((begin, begin + count))
    }

    /// The data offset of the file with hash `file_hash` in the folder with
    /// hash `folder_hash`. `NoSuchFolder` or `NoSuchFile` when the search
    /// does not find it (in sorted tables exactly when it is not there);
    /// `ReadError` when the folder found points outside the file table.
    pub fn find_offset(&self, folder_hash: u32, file_hash: u32) -> (r: Result<u32, SqPackReaderError>)
        ensures
            r matches Ok(offset) ==> self.lists(folder_hash, file_hash, offset),
            r == Err::<u32, SqPackReaderError>(SqPackReaderError::NoSuchFolder) ==> (folders_sorted(
                self.folder_table(),
            ) ==> !self.has_folder(folder_hash)),
            r == Err::<u32, SqPackReaderError>(SqPackReaderError::NoSuchFile) ==> exists|i: int|
                {
                    &&& 0 <= i < self.folder_table().len()
                    &&& #[trigger] self.folder_table()[i].folder_hash == folder_hash
                    &&& self.file_range(self.folder_table()[i]) matches Some((b, e))
                    &&& files_sorted(self.file_table(), b, e) ==> forall|j: int|
                        b <= j < e ==> #[trigger] self.file_table()[j].file_hash != file_hash
                },
            r == Err::<u32, SqPackReaderError>(SqPackReaderError::ReadError) ==> exists|i: int|
                0 <= i < self.folder_table().len() && #[trigger] self.folder_table()[i].folder_hash
                    == folder_hash && self.file_range(self.folder_table()[i]) is None,
            folders_sorted(self.folder_table()) && self.has_folder(folder_hash) ==> r
                != Err::<u32, SqPackReaderError>(SqPackReaderError::NoSuchFolder),
            self.is_sorted() ==> (r is Ok <==> exists|offset: u32| self.lists(folder_hash, file_hash, offset)),
    {
        let folder_index = match self.search_folder(folder_hash) {
            Some(i) => i,
            None => {
                proof {
                    if self.is_sorted() {
                        assert(folders_sorted(self.folder_table()));
                        assert forall|offset: u32| !self.lists(folder_hash, file_hash, offset) by {
                            if self.lists(folder_hash, file_hash, offset) {
                                let (i2, j2) = choose|i2: int, j2: int|
                                    {
                                        &&& 0 <= i2 < self.folder_table().len()
                                        &&& #[trigger] self.folder_table()[i2].folder_hash == folder_hash
                                        &&& self.file_range(self.folder_table()[i2]) matches Some((b, e))
                                        &&& b <= j2 < e
                                        &&& #[trigger] self.file_table()[j2].file_hash == file_hash
                                        &&& self.file_table()[j2].data_offset == offset
                                    };
                                assert(self.has_folder(folder_hash));
                            }
                        }
                    }
                }
                return Err(SqPackReaderError::NoSuchFolder);
            },
        };
        let ghost i = folder_index as int;
        let folder = &self.folder_segments[folder_index];
        let (begin, end) = match self.folder_files(folder) {
            Some(range) => range,
            None => {
                proof {
                    if self.is_sorted() {
                        assert forall|offset: u32| !self.lists(folder_hash, file_hash, offset) by {
                            if self.lists(folder_hash, file_hash, offset) {
                                let (i2, j2) = choose|i2: int, j2: int|
                                    {
                                        &&& 0 <= i2 < self.folder_table().len()
                                        &&& #[trigger] self.folder_table()[i2].folder_hash == folder_hash
                                        &&& self.file_range(self.folder_table()[i2]) matches Some((b, e))
                                        &&& b <= j2 < e
                                        &&& #[trigger] self.file_table()[j2].file_hash == file_hash
                                        &&& self.file_table()[j2].data_offset == offset
                                    };
                                assert(i2 == i);
                            }
                        }
                    }
                }
                return Err(SqPackReaderError::ReadError);
            },
        };
        match self.search_file(begin, end, file_hash) {
            Some(j) => {
                let ghost jj = j as int;
                assert(self.folder_table()[i].folder_hash == folder_hash);
                assert(self.file_table()[jj].file_hash == file_hash);
                assert(self.lists(folder_hash, file_hash, self.file_table()[jj].data_offset));
                Ok(self.file_segments[j].data_offset)
            },
            None => {
                proof {
                    if self.is_sorted() {
                        assert(match self.file_range(self.folder_table()[i]) {
                            Some((b, e)) => files_sorted(self.file_table(), b, e),
                            None => true,
                        });
                        assert forall|offset: u32| !self.lists(folder_hash, file_hash, offset) by {
                            if self.lists(folder_hash, file_hash, offset) {
                                let (i2, j2) = choose|i2: int, j2: int|
                                    {
                                        &&& 0 <= i2 < self.folder_table().len()
                                        &&& #[trigger] self.folder_table()[i2].folder_hash == folder_hash
                                        &&& self.file_range(self.folder_table()[i2]) matches Some((b, e))
                                        &&& b <= j2 < e
                                        &&& #[trigger] self.file_table()[j2].file_hash == file_hash
                                        &&& self.file_table()[j2].data_offset == offset
                                    };
                                assert(i2 == i);
                            }
                        }
                    }
                }
                Err(SqPackReaderError::NoSuchFile)
            },
        }
    }

    /// The hashes of all folders, in table order.
    pub fn folders(&self) -> (r: Vec<u32>)
        ensures
            r@ == self.folder_table().map_values(|f: FolderSegment| f.folder_hash),
    {
        let mut r: Vec<u32> = Vec::new();
        let mut i: usize = 0;
        while i < self.folder_segments.len()
            invariant
                i <= self.folder_table().len(),
                self.folder_table() == self.folder_segments@,
                r@ == self.folder_table().subrange(0, i as int).map_values(|f: FolderSegment| f.folder_hash),
            decreases self.folder_table().len() - i,
        {
            r.push(self.folder_segments[i].folder_hash);
            i += 1;
            assert(r@ =~= self.folder_table().subrange(0, i as int).map_values(
                |f: FolderSegment| f.folder_hash,
            ));
        }
        assert(self.folder_table().subrange(0, i as int) =~= self.folder_table());
        r
    }

    /// The hashes of the files of the folder with hash `folder_hash`, in
    /// table order; errors as `find_offset` gives them.
    pub fn files(&self, folder_hash: u32) -> (r: Result<Vec<u32>, SqPackReaderError>)
        ensures
            match r {
                Ok(hashes) => exists|i: int|
                    {
                        &&& 0 <= i < self.folder_table().len()
                        &&& #[trigger] self.folder_table()[i].folder_hash == folder_hash
                        &&& self.file_range(self.folder_table()[i]) matches Some((b, e))
                        &&& hashes@ == self.file_table().subrange(b, e).map_values(
                            |f: FileSegment| f.file_hash,
                        )
                    },
                Err(SqPackReaderError::NoSuchFolder) => folders_sorted(self.folder_table())
                    ==> !self.has_folder(folder_hash),
                Err(SqPackReaderError::ReadError) => exists|i: int|
                    0 <= i < self.folder_table().len() && #[trigger] self.folder_table()[i].folder_hash
                        == folder_hash && self.file_range(self.folder_table()[i]) is None,
                Err(SqPackReaderError::NoSuchFile) => false,
            },
            folders_sorted(self.folder_table()) && self.has_folder(folder_hash) ==> r
                != Err::<Vec<u32>, SqPackReaderError>(SqPackReaderError::NoSuchFolder),
            self.is_sorted() ==> (r is Ok <==> exists|i: int|
                0 <= i < self.folder_table().len() && #[trigger] self.folder_table()[i].folder_hash
                    == folder_hash && self.file_range(self.folder_table()[i]) is Some),
    {
        let folder_index = match self.search_folder(folder_hash) {
            Some(i) => i,
            None => {
                proof {
                    if self.is_sorted() {
                        assert(folders_sorted(self.folder_table()));
                    }
                }
                return Err(SqPackReaderError::NoSuchFolder);
            },
        };
        let folder = &self.folder_segments[folder_index];
        let (begin, end) = match self.folder_files(folder) {
            Some(range) => range,
            None => {
                proof {
                    let i = folder_index as int;
                    if self.is_sorted() {
                        assert forall|i2: int|
                            0 <= i2 < self.folder_table().len() && #[trigger] self.folder_table()[i2].folder_hash
                                == folder_hash implies self.file_range(self.folder_table()[i2]) is None by {
                            assert(i2 == i);
                        }
                    }
                }
                return Err(SqPackReaderError::ReadError);
            },
        };
        let mut r: Vec<u32> = Vec::new();
        let mut j: usize = begin;
        while j < end
            invariant
                begin <= j <= end <= self.file_table().len(),
                self.file_table() == self.file_segments@,
                r@ == self.file_table().subrange(begin as int, j as int).map_values(
                    |f: FileSegment| f.file_hash,
                ),
            decreases end - j,
        {
            r.push(self.file_segments[j].file_hash);
            j += 1;
            assert(r@ =~= self.file_table().subrange(begin as int, j as int).map_values(
                |f: FileSegment| f.file_hash,
            ));
        }
        let ghost i = folder_index as int;
        assert(self.folder_table()[i].folder_hash == folder_hash);
        Ok(r)
    }
}

} // verus!
