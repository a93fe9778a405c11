//! Where extracted compressed files are found: under local directories, as
//! `folder/file` named by decimal hashes, or on a web server, one by one or
//! in bulk.
use vstd::prelude::*;
use vstd::string::StringExecFns;

use crate::bulk::{bulk_paths, parse_bulk_response, push_digits, spec_bulk_paths, spec_digits, spec_parse_bulk};
use crate::reference::{SqPackFileHash, SqPackFileReference, SLASH};
use crate::util::{all_ascii, ascii_chars, ascii_string};

verus! {

/// The digits of the hashes and the separators are ASCII.
pub proof fn lemma_digits_ascii(x: nat, radix: nat)
    requires
        radix == 10 || radix == 16,
    ensures
        all_ascii(spec_digits(x, radix)),
    decreases x,
{
    if x >= radix {
        vstd::arithmetic::div_mod::lemma_div_decreases(x as int, radix as int);
        lemma_digits_ascii(x / radix, radix);
    }
}

/// The path of a file below a base directory: its folder hash, then its file
/// hash, in decimal.
pub open spec fn spec_local_path(h: SqPackFileHash) -> Seq<u8> {
    spec_digits(h.folder as nat, 10) + seq![SLASH] + spec_digits(h.file as nat, 10)
}

/// Extracted files in directories, each under `<folder hash>/<file hash>`.
pub struct ExtractedFileProviderLocal {
    base_dirs: Vec<String>,
}

impl ExtractedFileProviderLocal {
    /// The directories, searched in order.
    pub closed spec fn dirs(&self) -> Seq<Seq<char>> {
        self.base_dirs@.map_values(|d: String| d@)
    }

    pub fn with_paths(base_dirs: Vec<String>) -> (r: Self)
        ensures
            r.dirs() == base_dirs@.map_values(|d: String| d@),
    {
        Self { base_dirs }
    }

    pub fn with_path(base_dir: &str) -> (r: Self)
        ensures
            r.dirs() == seq![base_dir@],
    {
        let mut base_dirs: Vec<String> = Vec::new();
        base_dirs.push(base_dir.to_owned());
        let r = Self { base_dirs };
        assert(r.dirs() =~= seq![base_dir@]);
        r
    }

    /// The directories, in the order in which they are searched.
    pub fn base_dirs(&self) -> (r: &Vec<String>)
        ensures
            r@.map_values(|d: String| d@) == self.dirs(),
    {
        &self.base_dirs
    }

    /// Where the file with hashes `hash` lies below each directory.
    pub fn relative_path(hash: &SqPackFileHash) -> (r: String)
        ensures
            r@ == ascii_chars(spec_local_path(*hash)),
    {
        let mut bytes: Vec<u8> = Vec::new();
        push_digits(&mut bytes, hash.folder as u64, 10);
        bytes.push(SLASH);
        push_digits(&mut bytes, hash.file as u64, 10);
        proof {
            lemma_digits_ascii(hash.folder as nat, 10);
            lemma_digits_ascii(hash.file as nat, 10);
            assert(bytes@ =~= spec_local_path(*hash));
            assert(all_ascii(bytes@)) by {
                let a = spec_digits(hash.folder as nat, 10);
                assert forall|k: int| 0 <= k < bytes@.len() implies #[trigger] bytes@[k] < 0x80 by {
                    if k < a.len() {
                        assert(bytes@[k] == a[k]);
                    } else if k > a.len() {
                        assert(bytes@[k] == spec_digits(hash.file as nat, 10)[k - a.len() - 1]);
                    }
                }
            }
        }
        ascii_string(bytes.as_slice())
    }
}

/// The address of one file on a web server below `base`:
/// `<folder>/<file>/<path>` in decimal.
pub open spec fn spec_fetch_uri(base: Seq<char>, h: SqPackFileHash) -> Seq<char> {
    base + ascii_chars(
        spec_digits(h.folder as nat, 10) + seq![SLASH] + spec_digits(h.file as nat, 10) + seq![SLASH]
            + spec_digits(h.path as nat, 10),
    )
}

/// The text `bulk/`.
pub open spec fn bulk_prefix() -> Seq<u8> {
    seq![98u8, 117u8, 108u8, 107u8, SLASH]
}

/// The address of several files on a web server below `base`: `bulk/`,
/// then the names of the files (see `spec_bulk_paths`).
pub open spec fn spec_bulk_uri(base: Seq<char>, hs: Seq<SqPackFileHash>) -> Seq<char> {
    base + ascii_chars(bulk_prefix() + spec_bulk_paths(hs))
}

/// Extracted files on a web server below a base address.
pub struct ExtractedFileProviderWeb {
    base_uri: String,
}

impl ExtractedFileProviderWeb {
    /// The base address.
    pub closed spec fn base(&self) -> Seq<char> {
        self.base_uri@
    }

    pub fn new(base_uri: &str) -> (r: Self)
        ensures
            r.base() == base_uri@,
    {
        Self { base_uri: base_uri.to_owned() }
    }

    /// The address of one file.
    pub fn fetch_uri(&self, hash: &SqPackFileHash) -> (r: String)
        ensures
            r@ == spec_fetch_uri(self.base(), *hash),
    {
        let mut bytes: Vec<u8> = Vec::new();
        push_digits(&mut bytes, hash.folder as u64, 10);
        bytes.push(SLASH);
        push_digits(&mut bytes, hash.file as u64, 10);
        bytes.push(SLASH);
        push_digits(&mut bytes, hash.path as u64, 10);
        let ghost a = spec_digits(hash.folder as nat, 10);
        let ghost b = spec_digits(hash.file as nat, 10);
        let ghost c = spec_digits(hash.path as nat, 10);
        proof {
            lemma_digits_ascii(hash.folder as nat, 10);
            lemma_digits_ascii(hash.file as nat, 10);
            lemma_digits_ascii(hash.path as nat, 10);
            assert(bytes@ =~= a + seq![SLASH] + b + seq![SLASH] + c);
            assert forall|k: int| 0 <= k < bytes@.len() implies #[trigger] bytes@[k] < 0x80 by {
                if k < a.len() {
                    assert(bytes@[k] == a[k]);
                } else if a.len() < k < a.len() + 1 + b.len() {
                    assert(bytes@[k] == b[k - a.len() - 1]);
                } else if k > a.len() + 1 + b.len() {
                    assert(bytes@[k] == c[k - a.len() - b.len() - 2]);
                }
            }
        }
        let tail = ascii_string(bytes.as_slice());
        let mut r = self.base_uri.clone();
        r.append(tail.as_str());
        r
    }

    /// The address of the files of `references`, in their order.
    pub fn bulk_uri(&self, references: &[SqPackFileReference]) -> (r: String)
        ensures
            r@ == spec_bulk_uri(
                self.base(),
                references@.map_values(|x: SqPackFileReference| x.hash),
            ),
    {
        let mut hashes: Vec<SqPackFileHash> = Vec::new();
        let mut i: usize = 0;
        while i < references.len()
            invariant
                i <= references@.len(),
                hashes@ == references@.subrange(0, i as int).map_values(
                    |x: SqPackFileReference| x.hash,
                ),
            decreases references@.len() - i,
        {
            hashes.push(references[i].hash);
            i += 1;
            assert(hashes@ =~= references@.subrange(0, i as int).map_values(
                |x: SqPackFileReference| x.hash,
            ));
        }
        assert(references@.subrange(0, i as int) =~= references@);
        let names = bulk_paths(hashes.as_slice());
        let mut bytes: Vec<u8> = vec![98u8, 117u8, 108u8, 107u8, SLASH];
        let mut k: usize = 0;
        let ghost start = bytes@;
        while k < names.len()
            invariant
                k <= names@.len(),
                start == bulk_prefix(),
                bytes@ == start + names@.subrange(0, k as int),
            decreases names@.len() - k,
        {
            bytes.push(names[k]);
            k += 1;
            assert(bytes@ =~= start + names@.subrange(0, k as int));
        }
        assert(names@.subrange(0, k as int) =~= names@);
        proof {
            lemma_bulk_paths_ascii(hashes@);
            assert forall|j: int| 0 <= j < bytes@.len() implies #[trigger] bytes@[j] < 0x80 by {
                if j >= 5 {
                    assert(bytes@[j] == names@[j - 5]);
                }
            }
        }
        let tail = ascii_string(bytes.as_slice());
        let mut r = self.base_uri.clone();
        r.append(tail.as_str());
        r
    }

    /// The files of a bulk response to a request for `count` files, each
    /// with its hashes; `None` when the response is cut short.
    pub fn read_bulk_response(data: &[u8], count: usize) -> (r: Option<Vec<(SqPackFileHash, Vec<u8>)>>)
        ensures
            match r {
                Some(v) => spec_parse_bulk(data@, count as nat) == Some(
                    v@.map_values(|f: (SqPackFileHash, Vec<u8>)| (f.0, f.1@)),
                ),
                None => spec_parse_bulk(data@, count as nat) is None,
            },
    {
        parse_bulk_response(data, count)
    }
}

/// The names of files in a bulk request are ASCII.
proof fn lemma_bulk_paths_ascii(hs: Seq<SqPackFileHash>)
    ensures
        all_ascii(spec_bulk_paths(hs)),
    decreases hs.len(),
{
    if hs.len() > 0 {
        let h = hs.last();
        lemma_digits_ascii(h.folder as nat, 16);
        lemma_digits_ascii(h.file as nat, 16);
        lemma_digits_ascii(h.path as nat, 16);
        let item = crate::bulk::spec_bulk_item_path(h);
        let a = spec_digits(h.folder as nat, 16);
        let b = spec_digits(h.file as nat, 16);
        let c = spec_digits(h.path as nat, 16);
        assert forall|k: int| 0 <= k < item.len() implies #[trigger] item[k] < 0x80 by {
            if k < a.len() {
                assert(item[k] == a[k]);
            } else if a.len() < k < a.len() + 1 + b.len() {
                assert(item[k] == b[k - a.len() - 1]);
            } else if k > a.len() + 1 + b.len() {
                assert(item[k] == c[k - a.len() - b.len() - 2]);
            }
        }
        if hs.len() > 1 {
            lemma_bulk_paths_ascii(hs.drop_last());
            let p = spec_bulk_paths(hs.drop_last());
            let all = spec_bulk_paths(hs);
            assert forall|k: int| 0 <= k < all.len() implies #[trigger] all[k] < 0x80 by {
                if k < p.len() {
                    assert(all[k] == p[k]);
                } else if k > p.len() {
                    assert(all[k] == item[k - p.len() - 1]);
                }
            }
        }
    }
}

} // verus!
