//! How a game path names a file: the archive that holds it and the hashes
//! under which the archive's index lists it.
use vstd::prelude::*;
use vstd::string::StrSliceExecFns;
use vstd::string::StringExecFns;
use vstd::string::StringSliceAdditionalSpecFns;
use vstd::utf8::{
    decode_first_scalar, decode_utf8, encode_utf8, encode_utf8_valid_utf8, is_char_boundary,
    is_char_boundary_iff_not_is_continuation_byte, is_continuation_byte, pop_first_scalar,
    valid_utf8, valid_utf8_split,
};

use crate::text::{
    bytes_eq, first_index, lemma_first_index, lemma_first_index_is, parse_unsigned, spec_parse_unsigned, spec_split,
    split_bytes,
};
use crate::util::str_from_utf8;

verus! {

/// The byte of `/`, which separates the parts of a path.
pub const SLASH: u8 = 47;

/// The byte of `.`, which ends an archive's id in its file name.
pub const DOT: u8 = 46;

/// Which archive (`root`, expansion `ex`, `part`) holds a file.
#[derive(Clone, Copy, PartialEq, Eq, Hash, Debug, Structural)]
pub struct SqPackArchiveId {
    pub root: u8,
    pub ex: u8,
    pub part: u8,
}

/// Index of an archive root directory, by its name.
pub open spec fn spec_root_index(name: Seq<u8>) -> Option<u8> {
    if name == "common".spec_bytes() {
        Some(0)
    } else if name == "bgcommon".spec_bytes() {
        Some(1)
    } else if name == "bg".spec_bytes() {
        Some(2)
    } else if name == "cut".spec_bytes() {
        Some(3)
    } else if name == "chara".spec_bytes() {
        Some(4)
    } else if name == "shader".spec_bytes() {
        Some(5)
    } else if name == "ui".spec_bytes() {
        Some(6)
    } else if name == "sound".spec_bytes() {
        Some(7)
    } else if name == "vfx".spec_bytes() {
        Some(8)
    } else if name == "ui_script".spec_bytes() {
        Some(9)
    } else if name == "exd".spec_bytes() {
        Some(10)
    } else if name == "game_script".spec_bytes() {
        Some(11)
    } else if name == "music".spec_bytes() {
        Some(12)
    } else {
        None
    }
}

/// Names what `char::is_numeric` returns: whether the character has one of
/// Unicode's general categories for numbers.
pub uninterp spec fn char_is_numeric(c: char) -> bool;

/// `char::is_numeric`, whose result depends on the character alone.
#[verifier::external_body]
fn is_numeric(c: char) -> (r: bool)
    ensures
        r == char_is_numeric(c),
{
    c.is_numeric()
}

/// The part number of the third directory of a `bg` path of an expansion,
/// given whether its first character is numeric: then its first two bytes
/// read as a number (`None` when they do not, or do not end a character);
/// else 0.
pub open spec fn spec_part_number(seg: Seq<u8>, first_numeric: bool) -> Option<int> {
    if seg.len() > 0 && first_numeric {
        if seg.len() >= 2 && (seg.len() == 2 || !is_continuation_byte(seg[2])) {
            spec_parse_unsigned(seg.subrange(0, 2), 10, 255)
        } else {
            None
        }
    } else {
        Some(0)
    }
}

/// The part number that the third directory of a `bg` path of an expansion
/// gives, whether its first character is numeric being what
/// `char::is_numeric` says.
pub open spec fn spec_part(seg: Seq<u8>) -> Option<int> {
    spec_part_number(seg, seg.len() > 0 && char_is_numeric(decode_utf8(seg)[0]))
}

/// The expansion number that the second directory names: 0 for `ffxiv`,
/// else the number after its first two bytes (`ex1` is 1).
pub open spec fn spec_ex(seg: Seq<u8>) -> Option<int> {
    if seg == "ffxiv".spec_bytes() {
        Some(0)
    } else if seg.len() < 2 {
        None
    } else {
        spec_parse_unsigned(seg.subrange(2, seg.len() as int), 10, 255)
    }
}

/// The archive of the file at `path` (its bytes); `None` for a path whose
/// root is unknown, or whose expansion or part directory is missing or does
/// not read as a number.
pub open spec fn spec_archive_of_path(path: Seq<u8>) -> Option<SqPackArchiveId> {
    let segs = spec_split(path, SLASH);
    match spec_root_index(segs[0]) {
        None => None,
        Some(root) => if root == 2 || root == 3 || root == 12 {
            if segs.len() < 2 {
                None
            } else {
                match spec_ex(segs[1]) {
                    None => None,
                    Some(ex) => if root == 2 && ex > 0 {
                        if segs.len() < 3 {
                            None
                        } else {
                            match spec_part(segs[2]) {
                                None => None,
                                Some(part) => Some(
                                    SqPackArchiveId { root, ex: ex as u8, part: part as u8 },
                                ),
                            }
                        }
                    } else {
                        Some(SqPackArchiveId { root, ex: ex as u8, part: 0 })
                    },
                }
            }
        } else {
            Some(SqPackArchiveId { root, ex: 0, part: 0 })
        },
    }
}

/// The archive whose index file is named `name`: the hexadecimal number
/// before the first `.`, as `0xRREEPP`.
pub open spec fn spec_archive_of_file_name(name: Seq<u8>) -> Option<SqPackArchiveId> {
    match spec_parse_unsigned(spec_split(name, DOT)[0], 16, 0xffff_ffff) {
        None => None,
        Some(id) => Some(
            SqPackArchiveId {
                root: ((id / 0x10000) % 0x100) as u8,
                ex: ((id / 0x100) % 0x100) as u8,
                part: (id % 0x100) as u8,
            },
        ),
    }
}

/// Splitting gives at least one piece, each without the separator.
pub proof fn lemma_split_len(s: Seq<u8>, sep: u8)
    ensures
        spec_split(s, sep).len() >= 1,
    decreases s.len(),
{
    lemma_first_index(s, sep);
    match first_index(s, sep) {
        Some(i) => {
            lemma_split_len(s.subrange(i + 1, s.len() as int), sep);
        },
        None => {},
    }
}

/// Cutting valid UTF-8 around one ASCII byte leaves valid UTF-8 on both sides.
proof fn lemma_cut_at_ascii(s: Seq<u8>, i: int)
    requires
        valid_utf8(s),
        0 <= i < s.len(),
        s[i] < 0x80,
    ensures
        valid_utf8(s.subrange(0, i)),
        valid_utf8(s.subrange(i + 1, s.len() as int)),
{
    is_char_boundary_iff_not_is_continuation_byte(s, i);
    assert(is_char_boundary(s, i));
    valid_utf8_split(s, i);
    let rest = s.subrange(i, s.len() as int);
    assert(rest[0] == s[i]);
    assert(valid_utf8(pop_first_scalar(rest)));
    assert(pop_first_scalar(rest) =~= s.subrange(i + 1, s.len() as int));
}

/// The pieces of valid UTF-8 split at an ASCII byte are valid UTF-8.
proof fn lemma_split_valid(s: Seq<u8>, sep: u8)
    requires
        valid_utf8(s),
        sep < 0x80,
    ensures
        forall|k: int| 0 <= k < spec_split(s, sep).len() ==> valid_utf8(#[trigger] spec_split(s, sep)[k]),
    decreases s.len(),
{
    lemma_first_index(s, sep);
    match first_index(s, sep) {
        Some(i) => {
            lemma_cut_at_ascii(s, i);
            let rest = s.subrange(i + 1, s.len() as int);
            lemma_split_valid(rest, sep);
            assert forall|k: int| 0 <= k < spec_split(s, sep).len() implies valid_utf8(
                #[trigger] spec_split(s, sep)[k],
            ) by {
                if k > 0 {
                    assert(spec_split(s, sep)[k] == spec_split(rest, sep)[k - 1]);
                }
            }
        },
        None => {},
    }
}

/// The first character of non-empty valid UTF-8.
proof fn lemma_first_char(s: Seq<u8>)
    requires
        valid_utf8(s),
        s.len() > 0,
    ensures
        decode_utf8(s).len() > 0,
        decode_utf8(s)[0] == decode_first_scalar(s) as char,
{
}

impl SqPackArchiveId {
    /// The archive of an index file, from its file name (`0a0000.win32.index`
    /// is root 10, expansion 0, part 0). The name must start with a
    /// hexadecimal number of at most 32 bits.
    pub fn from_sqpack_file_name(file_name: &str) -> (r: SqPackArchiveId)
        requires
            spec_archive_of_file_name(file_name.spec_bytes()) is Some,
        ensures
            spec_archive_of_file_name(file_name.spec_bytes()) == Some(r),
    {
        Self::try_from_sqpack_file_name(file_name).unwrap()
    }

    /// The archive of an index file as [`Self::from_sqpack_file_name`] reads
    /// it; `None` when the name does not start with a hexadecimal number of
    /// at most 32 bits.
    pub fn try_from_sqpack_file_name(file_name: &str) -> (r: Option<SqPackArchiveId>)
        ensures
            r == spec_archive_of_file_name(file_name.spec_bytes()),
    {
        let bytes = file_name.as_bytes();
        let mut end: usize = 0;
        while end < bytes.len() && bytes[end] != DOT
            invariant
                end <= bytes@.len(),
                forall|k: int| 0 <= k < end ==> bytes@[k] != DOT,
            decreases bytes@.len() - end,
        {
            end += 1;
        }
        proof {
            lemma_first_index_is(bytes@, DOT, end as int);
            lemma_first_index(bytes@, DOT);
            lemma_split_len(bytes@, DOT);
            if end == bytes@.len() {
                assert(bytes@.subrange(0, end as int) =~= bytes@);
            }
        }
        let prefix = vstd::slice::slice_subrange(bytes, 0, end);
        match parse_unsigned(prefix, 16, 0xffff_ffff) {
            None => None,
            Some(id) => {
                let root = ((id >> 16) & 0xff) as u8;
                let ex = ((id >> 8) & 0xff) as u8;
                let part = (id & 0xff) as u8;
                assert(((id >> 16) & 0xff) == (id / 0x10000) % 0x100) by (bit_vector);
                assert(((id >> 8) & 0xff) == (id / 0x100) % 0x100) by (bit_vector);
                assert((id & 0xff) == id % 0x100) by (bit_vector);
                Some(SqPackArchiveId { root, ex, part })
            },
        }
    }

    /// The archive that holds the file at `path` (already in lower case):
    /// the root directory picks the archive; under `bg`, `cut` and `music`
    /// the second directory names the expansion, and under an expansion's
    /// `bg` the third directory may name a part. The path must name an
    /// archive.
    pub fn from_file_path(path: &str) -> (r: SqPackArchiveId)
        requires
            spec_archive_of_path(path.spec_bytes()) is Some,
        ensures
            spec_archive_of_path(path.spec_bytes()) == Some(r),
    {
        Self::try_from_file_path(path).unwrap()
    }

    /// The archive that holds the file at `path` as [`Self::from_file_path`]
    /// finds it; `None` where the path does not name an archive.
    pub fn try_from_file_path(path: &str) -> (r: Option<SqPackArchiveId>)
        ensures
            r == spec_archive_of_path(path.spec_bytes()),
    {
        let bytes = path.as_bytes();
        proof {
            encode_utf8_valid_utf8(path@);
            lemma_split_len(bytes@, SLASH);
            lemma_split_valid(bytes@, SLASH);
        }
        let segs = split_bytes(bytes, SLASH);
        let ghost pieces = spec_split(bytes@, SLASH);
        assert(segs@.len() == pieces.len());
        assert(segs@[0]@ == pieces[0]);
        let root = match Self::path_to_root_index(segs[0].as_slice()) {
            None => {
                return None;
            },
            Some(root) => root,
        };
        if !(root == 2 || root == 3 || root == 12) {
            return Some(SqPackArchiveId { root, ex: 0, part: 0 });
        }
        if segs.len() < 2 {
            return None;
        }
        assert(segs@[1]@ == pieces[1]);
        let ex = match Self::parse_ex(segs[1].as_slice()) {
            None => {
                return None;
            },
            Some(ex) => ex,
        };
        if !(root == 2 && ex > 0) {
            return Some(SqPackArchiveId { root, ex, part: 0 });
        }
        if segs.len() < 3 {
            return None;
        }
        assert(segs@[2]@ == pieces[2]);
        assert(valid_utf8(pieces[2]));
        match Self::parse_part(segs[2].as_slice()) {
            None => None,
            Some(part) => Some(SqPackArchiveId { root, ex, part }),
        }
    }

    /// The expansion number of the second directory of a path.
    fn parse_ex(seg: &[u8]) -> (r: Option<u8>)
        ensures
            match r {
                Some(v) => spec_ex(seg@) == Some(v as int),
                None => spec_ex(seg@) is None,
            },
    {
        if bytes_eq(seg, "ffxiv".as_bytes()) {
            return Some(0);
        }
        if seg.len() < 2 {
            return None;
        }
        let digits = vstd::slice::slice_subrange(seg, 2, seg.len());
        match parse_unsigned(digits, 10, 255) {
            None => None,
            Some(v) => Some(v as u8),
        }
    }

    /// The part number of the third directory of a `bg` path.
    fn parse_part(seg: &[u8]) -> (r: Option<u8>)
        requires
            valid_utf8(seg@),
        ensures
            match r {
                Some(v) => spec_part(seg@) == Some(v as int),
                None => spec_part(seg@) is None,
            },
    {
        if seg.len() == 0 {
            return Self::part_number(seg, false);
        }
        let text = match str_from_utf8(seg) {
            Ok(text) => text,
            Err(_) => {
                return None;
            },
        };
        proof {
            lemma_first_char(seg@);
        }
        let first = text.get_char(0);
        Self::part_number(seg, is_numeric(first))
    }

    /// The part number of the third directory of a `bg` path of an
    /// expansion, given whether its first character is numeric.
    pub fn part_number(seg: &[u8], first_numeric: bool) -> (r: Option<u8>)
        ensures
            match r {
                Some(v) => spec_part_number(seg@, first_numeric) == Some(v as int),
                None => spec_part_number(seg@, first_numeric) is None,
            },
    {
        if seg.len() == 0 || !first_numeric {
            return Some(0);
        }
        if seg.len() < 2 || (seg.len() > 2 && 0x80 <= seg[2] && seg[2] <= 0xbf) {
            return None;
        }
        let digits = vstd::slice::slice_subrange(seg, 0, 2);
        match parse_unsigned(digits, 10, 255) {
            None => None,
            Some(v) => Some(v as u8),
        }
    }

    /// Index of an archive root directory; `None` for an unknown name.
    fn path_to_root_index(root: &[u8]) -> (r: Option<u8>)
        ensures
            r == spec_root_index(root@),
    {
        if bytes_eq(root, "common".as_bytes()) {
            Some(0)
        } else if bytes_eq(root, "bgcommon".as_bytes()) {
            Some(1)
        } else if bytes_eq(root, "bg".as_bytes()) {
            Some(2)
        } else if bytes_eq(root, "cut".as_bytes()) {
            Some(3)
        } else if bytes_eq(root, "chara".as_bytes()) {
            Some(4)
        } else if bytes_eq(root, "shader".as_bytes()) {
            Some(5)
        } else if bytes_eq(root, "ui".as_bytes()) {
            Some(6)
        } else if bytes_eq(root, "sound".as_bytes()) {
            Some(7)
        } else if bytes_eq(root, "vfx".as_bytes()) {
            Some(8)
        } else if bytes_eq(root, "ui_script".as_bytes()) {
            Some(9)
        } else if bytes_eq(root, "exd".as_bytes()) {
            Some(10)
        } else if bytes_eq(root, "game_script".as_bytes()) {
            Some(11)
        } else if bytes_eq(root, "music".as_bytes()) {
            Some(12)
        } else {
            None
        }
    }
}

/// Index of the last `sep` in `s`.
pub open spec fn last_index(s: Seq<u8>, sep: u8) -> Option<int>
    decreases s.len(),
{
    if s.len() == 0 {
        None
    } else if s.last() == sep {
        Some(s.len() - 1)
    } else {
        last_index(s.drop_last(), sep)
    }
}

proof fn lemma_last_index(s: Seq<u8>, sep: u8, i: int)
    requires
        -1 <= i < s.len(),
        forall|j: int| i < j < s.len() ==> s[j] != sep,
        i >= 0 ==> s[i] == sep,
    ensures
        last_index(s, sep) == (if i >= 0 {
            Some(i)
        } else {
            None::<int>
        }),
    decreases s.len(),
{
    if s.len() > 0 && s.last() != sep {
        lemma_last_index(s.drop_last(), sep, i);
    }
}

/// One bit step of the reflected CRC-32 of IEEE 802.3 (polynomial
/// `0xEDB88320`).
pub open spec fn crc32_bit(c: u32) -> u32 {
    if (c & 1) == 1 {
        (c >> 1) ^ 0xEDB8_8320
    } else {
        c >> 1
    }
}

/// The CRC register after one more byte.
pub open spec fn crc32_byte(c: u32, b: u8) -> u32 {
    crc32_bit(crc32_bit(crc32_bit(crc32_bit(crc32_bit(crc32_bit(crc32_bit(crc32_bit(c ^ (b as u32)))))))))
}

/// The CRC register after the bytes of `data`, from `c`.
pub open spec fn crc32_update(c: u32, data: Seq<u8>) -> u32
    decreases data.len(),
{
    if data.len() == 0 {
        c
    } else {
        crc32_byte(crc32_update(c, data.drop_last()), data.last())
    }
}

/// The CRC-32 (IEEE) checksum of the bytes: the register starts at all
/// ones and is inverted at the end.
pub open spec fn crc32_ieee(data: Seq<u8>) -> u32 {
    !crc32_update(0xFFFF_FFFF, data)
}

/// The hashes under which an index lists a file: of its whole path, of its
/// folder and of its file name.
#[derive(Clone, Copy, PartialEq, Eq, Hash, Debug, Structural)]
pub struct SqPackFileHash {
    pub path: u32,
    pub folder: u32,
    pub file: u32,
}

/// The hashes of the file at `path` (its bytes): each the complement of the
/// CRC-32 of the path, of the part before its last `/`, and of the part
/// after it; `None` for a path without `/`.
pub open spec fn spec_file_hash(path: Seq<u8>) -> Option<SqPackFileHash> {
    match last_index(path, SLASH) {
        None => None,
        Some(i) => Some(
            SqPackFileHash {
                path: !crc32_ieee(path),
                folder: !crc32_ieee(path.subrange(0, i)),
                file: !crc32_ieee(path.subrange(i + 1, path.len() as int)),
            },
        ),
    }
}

impl SqPackFileHash {
    /// The hashes of the file at `path_str`, which must hold a `/`.
    pub fn new(path_str: &str) -> (r: SqPackFileHash)
        requires
            spec_file_hash(path_str.spec_bytes()) is Some,
        ensures
            spec_file_hash(path_str.spec_bytes()) == Some(r),
    {
        Self::try_new(path_str).unwrap()
    }

    /// The hashes of the file at `path_str` as [`Self::new`] computes them;
    /// `None` when it has no `/`.
    pub fn try_new(path_str: &str) -> (r: Option<SqPackFileHash>)
        ensures
            r == spec_file_hash(path_str.spec_bytes()),
    {
        let bytes = path_str.as_bytes();
        let mut i: usize = bytes.len();
        while i > 0 && bytes[i - 1] != SLASH
            invariant
                i <= bytes@.len(),
                forall|j: int| i <= j < bytes@.len() ==> bytes@[j] != SLASH,
            decreases i,
        {
            i -= 1;
        }
        proof {
            lemma_last_index(bytes@, SLASH, i - 1);
        }
        if i == 0 {
            return None;
        }
        let separator = i - 1;
        let folder_str = vstd::slice::slice_subrange(bytes, 0, separator);
        let file_str = vstd::slice::slice_subrange(bytes, separator + 1, bytes.len());
        Some(Self::from_checksums(Self::hash(bytes), Self::hash(folder_str), Self::hash(file_str)))
    }

    /// The hashes of a path whose whole text, folder and file name have the
    /// given CRC-32 checksums: their complements.
    pub fn from_checksums(path_crc: u32, folder_crc: u32, file_crc: u32) -> (r: SqPackFileHash)
        ensures
            r == (SqPackFileHash { path: !path_crc, folder: !folder_crc, file: !file_crc }),
    {
        SqPackFileHash { path: !path_crc, folder: !folder_crc, file: !file_crc }
    }

    /// The hashes as an index stores them.
    pub fn from_raw_hash(path_hash: u32, folder_hash: u32, file_hash: u32) -> (r: SqPackFileHash)
        ensures
            r == (SqPackFileHash { path: path_hash, folder: folder_hash, file: file_hash }),
    {
        SqPackFileHash { path: path_hash, folder: folder_hash, file: file_hash }
    }

    /// `crc32fast::hash`: its documentation gives the CRC-32 checksum of the
    /// bytes, the IEEE one that `crc32_ieee` states.
    #[verifier::external_body]
    fn hash(value: &[u8]) -> (r: u32)
        ensures
            r == crc32_ieee(value@),
    {
        crc32fast::hash(value)
    }
}

/// ASCII upper-case letters become lower-case; other characters stay.
pub open spec fn ascii_lower_char(c: char) -> char {
    if 'A' <= c <= 'Z' {
        ((c as u32) + 32) as char
    } else {
        c
    }
}

/// `str::to_ascii_lowercase`. Its documentation says that the ASCII letters
/// 'A' to 'Z' become 'a' to 'z' and that every other character stays.
#[verifier::external_body]
fn str_to_ascii_lowercase(s: &str) -> (r: String)
    ensures
        r@ == s@.map_values(|c: char| ascii_lower_char(c)),
{
    s.to_ascii_lowercase()
}

/// A file of the game: its archive and its hashes.
#[derive(Clone, Copy, PartialEq, Eq, Hash, Debug, Structural)]
pub struct SqPackFileReference {
    pub archive_id: SqPackArchiveId,
    pub hash: SqPackFileHash,
}

/// The reference of the file at `path`: both are read from the path in
/// lower case. `None` where either is.
pub open spec fn spec_reference(path: Seq<char>) -> Option<SqPackFileReference> {
    let lower = encode_utf8(path.map_values(|c: char| ascii_lower_char(c)));
    match (spec_archive_of_path(lower), spec_file_hash(lower)) {
        (Some(archive_id), Some(hash)) => Some(SqPackFileReference { archive_id, hash }),
        _ => None,
    }
}

impl SqPackFileReference {
    /// The reference of the file at `path`, whatever the case of its ASCII
    /// letters. The path must name an archive and hold a `/`.
    pub fn new(path: &str) -> (r: SqPackFileReference)
        requires
            spec_reference(path@) is Some,
        ensures
            spec_reference(path@) == Some(r),
    {
        Self::try_new(path).unwrap()
    }

    /// The reference of the file at `path` as [`Self::new`] makes it; `None`
    /// when the path names no archive or has no `/`.
    pub fn try_new(path: &str) -> (r: Option<SqPackFileReference>)
        ensures
            r == spec_reference(path@),
    {
        let path_str = str_to_ascii_lowercase(path);
        let lower = path_str.as_str();
        let archive_id = SqPackArchiveId::try_from_file_path(lower);
        let hash = SqPackFileHash::try_new(lower);
        match (archive_id, hash) {
            (Some(archive_id), Some(hash)) => Some(SqPackFileReference { archive_id, hash }),
            _ => None,
        }
    }
}

/// A path names the same file whatever the case of its ASCII letters:
/// paths that agree once lower-cased have the same reference.
pub proof fn lemma_reference_ignores_case(a: Seq<char>, b: Seq<char>)
    requires
        a.map_values(|c: char| ascii_lower_char(c)) == b.map_values(|c: char| ascii_lower_char(c)),
    ensures
        spec_reference(a) == spec_reference(b),
{
}

/// A path and its lower-case form name the same file.
pub proof fn lemma_reference_of_lower_case(a: Seq<char>)
    ensures
        spec_reference(a.map_values(|c: char| ascii_lower_char(c))) == spec_reference(a),
{
    let lower = a.map_values(|c: char| ascii_lower_char(c));
    assert(lower.map_values(|c: char| ascii_lower_char(c)) =~= lower);
    lemma_reference_ignores_case(lower, a);
}

/// Whether a directory of the game's data directory holds archives: it is
/// `ffxiv` or its name starts with `ex`.
pub open spec fn spec_is_archive_dir(name: Seq<u8>) -> bool {
    name == "ffxiv".spec_bytes() || (name.len() >= 2 && name[0] == 101 && name[1] == 120)
}

/// Whether the directory named `name` holds archives.
pub fn is_archive_dir(name: &str) -> (r: bool)
    ensures
        r == spec_is_archive_dir(name.spec_bytes()),
{
    let bytes = name.as_bytes();
    bytes_eq(bytes, "ffxiv".as_bytes()) || (bytes.len() >= 2 && bytes[0] == 101 && bytes[1] == 120)
}

/// Whether a file name has an extension: a `.` after its first byte.
pub open spec fn has_extension(name: Seq<u8>) -> bool {
    last_index(name, DOT) matches Some(i) && i > 0
}

/// Whether a file name ends in the extension `index`: the part after its
/// last `.` is `index`.
pub open spec fn is_index_file(name: Seq<u8>) -> bool {
    last_index(name, DOT) matches Some(i) && name.subrange(i + 1, name.len() as int) == "index".spec_bytes()
}

/// The archive whose index file is named `name`: for an index file, the
/// archive that the part before the first `.` names; `None` for other files.
pub open spec fn spec_index_file_archive(name: Seq<u8>) -> Option<SqPackArchiveId> {
    if is_index_file(name) {
        spec_archive_of_file_name(name)
    } else {
        None
    }
}

/// The archive whose index is the file named `file_name`, a file of an
/// archive directory; `None` when it is no index file. The name must have an
/// extension, and the name of an index file must name an archive.
pub fn index_file_archive(file_name: &str) -> (r: Option<SqPackArchiveId>)
    requires
        has_extension(file_name.spec_bytes()),
        is_index_file(file_name.spec_bytes()) ==> spec_archive_of_file_name(file_name.spec_bytes()) is Some,
    ensures
        r == spec_index_file_archive(file_name.spec_bytes()),
{
    let bytes = file_name.as_bytes();
    let mut i: usize = bytes.len();
    while i > 0 && bytes[i - 1] != DOT
        invariant
            i <= bytes@.len(),
            forall|j: int| i <= j < bytes@.len() ==> bytes@[j] != DOT,
        decreases i,
    {
        i -= 1;
    }
    proof {
        lemma_last_index(bytes@, DOT, i - 1);
    }
    let extension = vstd::slice::slice_subrange(bytes, i, bytes.len());
    if bytes_eq(extension, "index".as_bytes()) {
        Some(SqPackArchiveId::from_sqpack_file_name(file_name))
    } else {
        None
    }
}

/// Why a file could not be read.
#[derive(Clone, Copy, PartialEq, Eq, Debug, Structural)]
pub enum SqPackReaderError {
    NoSuchFolder,
    NoSuchFile,
    ReadError,
}

impl SqPackReaderError {
    /// The message that describes the error.
    pub fn to_string(&self) -> (r: String)
        ensures
            r@ == match self {
                SqPackReaderError::NoSuchFolder => "No such folder"@,
                SqPackReaderError::NoSuchFile => "No such file"@,
                SqPackReaderError::ReadError => "Read error"@,
            },
    {
        match self {
            SqPackReaderError::NoSuchFolder => String::from_str("No such folder"),
            SqPackReaderError::NoSuchFile => String::from_str("No such file"),
            SqPackReaderError::ReadError => String::from_str("Read error"),
        }
    }
}

} // verus!
