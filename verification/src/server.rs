//! The decisions of the data server: which languages a sheet request
//! serves, which mirror a client is sent to, and which data directories are
//! mounted under which version names, in which order.
use vstd::prelude::*;
use vstd::string::StringSliceAdditionalSpecFns;

use crate::bulk::{lemma_split_concat, lemma_split_none, push_digits, spec_digits};
use crate::reference::lemma_split_len;
use crate::provider::ExtractedFileProviderLocal;
use crate::text::{
    bytes_eq, digit_value, digits_value, lemma_digits_value_grows, lemma_digits_value_none,
    spec_parse_unsigned, spec_split, split_bytes,
};
use crate::util::{all_ascii, ascii_chars, ascii_string};
use vstd::utf8::encode_utf8;
use std::sync::Arc;

verus! {

/// The code of the language of sheets that are not translated.
pub const LANGUAGE_NONE: u16 = 0;

/// The languages that a sheet request serves, from the sheet's languages
/// (`available`) and the one asked for: all of them when none is asked for;
/// only the untranslated one when the sheet is not translated; else the one
/// asked for, or `None` ("Language not found") when the sheet lacks it.
pub open spec fn spec_select_languages(available: Seq<u16>, requested: Option<u16>) -> Option<
    Seq<u16>,
> {
    match requested {
        None => Some(available),
        Some(language) => if available[0] == LANGUAGE_NONE {
            Some(seq![LANGUAGE_NONE])
        } else if available.contains(language) {
            Some(seq![language])
        } else {
            None
        },
    }
}

/// The languages that a sheet request serves.
pub fn select_languages(available: &[u16], requested: Option<u16>) -> (r: Option<Vec<u16>>)
    requires
        requested is Some ==> available@.len() > 0,
    ensures
        match r {
            Some(v) => spec_select_languages(available@, requested) == Some(v@),
            None => spec_select_languages(available@, requested) is None,
        },
{
    match requested {
        None => Some(vstd::slice::slice_to_vec(available)),
        Some(language) => {
            if available[0] == LANGUAGE_NONE {
                return Some(vec![LANGUAGE_NONE]);
            }
            let mut i: usize = 0;
            while i < available.len()
                invariant
                    i <= available@.len(),
                    requested == Some(language),
                    available@.len() > 0,
                    available@[0] != LANGUAGE_NONE,
                    forall|k: int| 0 <= k < i ==> available@[k] != language,
                decreases available@.len() - i,
            {
                if available[i] == language {
                    assert(available@.contains(language));
                    return Some(vec![language]);
                }
                i += 1;
            }
            None
        },
    }
}

/// A request for language `l` on a translated sheet (its first language is
/// not the untranslated one) is served in `l` alone when `l` is any of the
/// sheet's languages, the first included, and refused ("Language not
/// found") when it is none of them; a sheet that is not translated serves
/// the untranslated language whatever is asked; with no language asked, all
/// of the sheet's languages are served.
pub proof fn lemma_select_languages(available: Seq<u16>, l: u16)
    requires
        available.len() > 0,
    ensures
        available[0] != LANGUAGE_NONE ==> ((exists|k: int| 0 <= k < available.len() && available[k] == l)
            <==> spec_select_languages(available, Some(l)) == Some(seq![l])),
        available[0] != LANGUAGE_NONE ==> ((forall|k: int| 0 <= k < available.len() ==> available[k] != l)
            <==> spec_select_languages(available, Some(l)) is None),
        available[0] == l && l != LANGUAGE_NONE ==> spec_select_languages(available, Some(l)) == Some(seq![l]),
        available[0] == LANGUAGE_NONE ==> spec_select_languages(available, Some(l)) == Some(seq![LANGUAGE_NONE]),
        spec_select_languages(available, None) == Some(available),
{
    if available[0] != LANGUAGE_NONE {
        if exists|k: int| 0 <= k < available.len() && available[k] == l {
            let k = choose|k: int| 0 <= k < available.len() && available[k] == l;
            assert(available.contains(l));
        } else {
            assert(!available.contains(l));
        }
    }
    if available[0] == l {
        assert(available.contains(l));
    }
}

/// The data center in a `cf-ray` header: the text after its one `-`;
/// `None` unless the header has exactly two parts.
pub open spec fn spec_cf_ray_dc(value: Seq<u8>) -> Option<Seq<u8>> {
    let parts = spec_split(value, 45);
    if parts.len() == 2 {
        Some(parts[1])
    } else {
        None
    }
}

/// A `cf-ray` header of the form `<id>-<dc>` (neither part holding a `-`)
/// names the data center `<dc>`; one with more dashes names none.
pub proof fn lemma_cf_ray_dc(id: Seq<u8>, dc: Seq<u8>, extra: Seq<u8>)
    requires
        forall|k: int| 0 <= k < id.len() ==> id[k] != 45,
        forall|k: int| 0 <= k < dc.len() ==> dc[k] != 45,
    ensures
        spec_cf_ray_dc(id + seq![45u8] + dc) == Some(dc),
        spec_cf_ray_dc(id + seq![45u8] + dc + seq![45u8] + extra) is None,
{
    lemma_split_concat(id, dc, 45);
    lemma_split_none(id, 45);
    lemma_split_none(dc, 45);
    assert(spec_split(id + seq![45u8] + dc, 45) =~= seq![id, dc]);
    lemma_split_concat(id + seq![45u8] + dc, extra, 45);
    lemma_split_len(extra, 45);
}

/// The data center named by a `cf-ray` header.
pub fn cf_ray_dc(value: &[u8]) -> (r: Option<Vec<u8>>)
    ensures
        match r {
            Some(v) => spec_cf_ray_dc(value@) == Some(v@),
            None => spec_cf_ray_dc(value@) is None,
        },
{
    let mut parts = split_bytes(value, 45);
    if parts.len() != 2 {
        return None;
    }
    let ghost p = spec_split(value@, 45);
    assert(parts@[1]@ == p[1]);
    let dc = parts.pop();
    match dc {
        Some(dc) => Some(dc),
        None => None,
    }
}

/// Whether a client is sent to the main mirror: unless it connects from
/// Korea through a data center other than Seoul's (both headers present).
pub open spec fn spec_enable_cf(dc: Option<Seq<u8>>, country: Option<Seq<u8>>) -> bool {
    match (dc, country) {
        (Some(dc), Some(country)) => !(country == "KR".spec_bytes() && dc != "ICN".spec_bytes()),
        _ => true,
    }
}

/// Clients are sent to the Korean mirror exactly when both headers are
/// present, the country is `KR` and the data center is not `ICN`: a Korean
/// client through Seoul, a client from anywhere else, or a client missing
/// either header goes to the main mirror.
pub proof fn lemma_probe_mirror(dc: Seq<u8>, country: Seq<u8>)
    ensures
        spec_enable_cf(Some(dc), Some("KR".spec_bytes())) == (dc == "ICN".spec_bytes()),
        country != "KR".spec_bytes() ==> spec_enable_cf(Some(dc), Some(country)),
        spec_enable_cf(None, Some(country)),
        spec_enable_cf(Some(dc), None),
        spec_enable_cf(None, None),
{
}

/// The mirror a client is sent to, from the data center of its `cf-ray`
/// header and its `cf-ipcountry` header, where present.
pub fn probe_target(dc: Option<&[u8]>, country: Option<&[u8]>) -> (r: &'static str)
    ensures
        r@ == (if spec_enable_cf(
            match dc {
                Some(d) => Some(d@),
                None => None,
            },
            match country {
                Some(c) => Some(c@),
                None => None,
            },
        ) {
            "https://ffxiv-data.dlunch.net"@
        } else {
            "https://ffxiv-data-kr.dlunch.net"@
        }),
{
    let enable_cf = match (dc, country) {
        (Some(dc), Some(country)) => !(bytes_eq(country, "KR".as_bytes()) && !bytes_eq(
            dc,
            "ICN".as_bytes(),
        )),
        _ => true,
    };
    if enable_cf {
        "https://ffxiv-data.dlunch.net"
    } else {
        "https://ffxiv-data-kr.dlunch.net"
    }
}

/// The name of region `i`: `kor`, `chn` or `global`.
pub open spec fn spec_region_name(i: int) -> Seq<u8> {
    if i == 0 {
        seq!['k' as u8, 'o' as u8, 'r' as u8]
    } else if i == 1 {
        seq!['c' as u8, 'h' as u8, 'n' as u8]
    } else {
        seq!['g' as u8, 'l' as u8, 'o' as u8, 'b' as u8, 'a' as u8, 'l' as u8]
    }
}

/// Index of a region among `kor`, `chn` and `global`.
pub open spec fn spec_region_index(name: Seq<u8>) -> Option<int> {
    if name == spec_region_name(0) {
        Some(0)
    } else if name == spec_region_name(1) {
        Some(1)
    } else if name == spec_region_name(2) {
        Some(2)
    } else {
        None
    }
}

/// The name of region `i`.
fn region_name(i: usize) -> (r: Vec<u8>)
    requires
        i < 3,
    ensures
        r@ == spec_region_name(i as int),
{
    if i == 0 {
        vec!['k' as u8, 'o' as u8, 'r' as u8]
    } else if i == 1 {
        vec!['c' as u8, 'h' as u8, 'n' as u8]
    } else {
        vec!['g' as u8, 'l' as u8, 'o' as u8, 'b' as u8, 'a' as u8, 'l' as u8]
    }
}

/// A data directory named `<region>_<version>`: its region's index and its
/// version.
#[derive(Clone, Copy, PartialEq, Eq, Debug, Structural)]
pub struct PackName {
    pub region: usize,
    pub version: usize,
}

/// What a data directory's name gives: `Some(None)` for a name without two
/// `_`-separated parts (the directory is skipped); `None` where the version
/// is not a number or the region is unknown (the server does not start).
pub open spec fn spec_pack_name(name: Seq<u8>) -> Option<Option<PackName>> {
    let parts = spec_split(name, 95);
    if parts.len() < 2 {
        Some(None)
    } else {
        match (spec_parse_unsigned(parts[1], 10, usize::MAX as int), spec_region_index(parts[0])) {
            (Some(version), Some(region)) => Some(
                Some(PackName { region: region as usize, version: version as usize }),
            ),
            _ => None,
        }
    }
}

/// Reads a decimal number that fits in `usize`, as `str::parse` does.
pub fn parse_usize(s: &[u8]) -> (r: Option<usize>)
    ensures
        match r {
            Some(v) => spec_parse_unsigned(s@, 10, usize::MAX as int) == Some(v as int),
            None => spec_parse_unsigned(s@, 10, usize::MAX as int) is None,
        },
{
    let ghost digits = if s@.len() > 0 && s@[0] == 43 {
        s@.drop_first()
    } else {
        s@
    };
    let start: usize = if s.len() > 0 && s[0] == 43 {
        1
    } else {
        0
    };
    if start >= s.len() {
        return None;
    }
    assert(digits =~= s@.subrange(start as int, s@.len() as int));
    let mut value: usize = 0;
    let mut i = start;
    assert(digits.subrange(0, 0) =~= Seq::<u8>::empty());
    while i < s.len()
        invariant
            start <= i <= s@.len(),
            digits == s@.subrange(start as int, s@.len() as int),
            digits == (if s@.len() > 0 && s@[0] == 43 {
                s@.drop_first()
            } else {
                s@
            }),
            digits.len() > 0,
            digits_value(digits.subrange(0, i - start), 10) == Some(value as int),
        decreases s@.len() - i,
    {
        assert(digits.subrange(0, i + 1 - start).drop_last() =~= digits.subrange(0, i - start));
        let b = s[i];
        assert(digits.subrange(0, i + 1 - start).last() == b);
        if !(48 <= b && b <= 57) {
            proof {
                assert(digit_value(b, 10) is None);
                lemma_digits_value_none(digits, 10, i + 1 - start);
            }
            return None;
        }
        let d = (b - 48) as usize;
        assert(digit_value(b, 10) == Some(d as int));
        let next = match value.checked_mul(10) {
            Some(m) => m.checked_add(d),
            None => None,
        };
        match next {
            Some(n) => {
                value = n;
            },
            None => {
                proof {
                    assert(value * 10 + d > usize::MAX);
                    lemma_digits_value_grows(digits, 10, i + 1 - start, usize::MAX as int);
                }
                return None;
            },
        }
        i += 1;
    }
    assert(digits.subrange(0, i - start) =~= digits);
    Some(value)
}

/// The region and version of a data directory's name.
pub fn pack_name(name: &[u8]) -> (r: Option<Option<PackName>>)
    ensures
        r == spec_pack_name(name@),
{
    let parts = split_bytes(name, 95);
    let ghost p = spec_split(name@, 95);
    if parts.len() < 2 {
        return Some(None);
    }
    assert(parts@[0]@ == p[0] && parts@[1]@ == p[1]);
    let version = parse_usize(parts[1].as_slice());
    let region = if bytes_eq(parts[0].as_slice(), region_name(0).as_slice()) {
        Some(0usize)
    } else if bytes_eq(parts[0].as_slice(), region_name(1).as_slice()) {
        Some(1usize)
    } else if bytes_eq(parts[0].as_slice(), region_name(2).as_slice()) {
        Some(2usize)
    } else {
        None
    };
    match (version, region) {
        (Some(version), Some(region)) => Some(Some(PackName { region, version })),
        _ => None,
    }
}

/// The key by which data directories are ordered.
pub open spec fn pack_key(p: PackName) -> int {
    p.region * 1000 + p.version
}

/// Whether `a` is mounted before `b`: a greater key first; for equal keys
/// the later directory first.
pub open spec fn mounted_before(a: (PackName, usize), b: (PackName, usize)) -> bool {
    pack_key(a.0) > pack_key(b.0) || (pack_key(a.0) == pack_key(b.0) && a.1 > b.1)
}

/// The directories of `names` that are mounted, each with its position in
/// `names`; `None` when a name stops the server.
pub open spec fn spec_mounted(names: Seq<Seq<u8>>) -> Option<Seq<(PackName, usize)>>
    decreases names.len(),
{
    if names.len() == 0 {
        Some(Seq::empty())
    } else {
        match (spec_mounted(names.drop_last()), spec_pack_name(names.last())) {
            (Some(rest), Some(None)) => Some(rest),
            (Some(rest), Some(Some(p))) => Some(rest.push((p, (names.len() - 1) as usize))),
            _ => None,
        }
    }
}

/// The name under which a directory is mounted: `<region>_<version>`.
pub open spec fn spec_pack_key_name(p: PackName) -> Seq<u8> {
    spec_region_name(p.region as int) + seq![95u8] + spec_digits(p.version as nat, 10)
}

/// Whether every key of the mounted directories fits in `usize`.
pub open spec fn keys_fit(m: Seq<(PackName, usize)>) -> bool {
    forall|k: int| 0 <= k < m.len() ==> pack_key(#[trigger] m[k].0) <= usize::MAX
}

/// The bytes of the names.
pub open spec fn name_bytes(names: Seq<String>) -> Seq<Seq<u8>> {
    names.map_values(|n: String| encode_utf8(n@))
}

/// Whether `v` holds the mounted directories in mount order.
pub open spec fn in_mount_order(v: Seq<(PackName, usize)>, m: Seq<(PackName, usize)>) -> bool {
    &&& v.len() == m.len()
    &&& forall|k: int| 0 <= k < v.len() ==> m.contains(#[trigger] v[k])
    &&& forall|i: int, j: int| 0 <= i < j < v.len() ==> mounted_before(#[trigger] v[i], #[trigger] v[j])
}

/// The data directories to mount, from their names, in mount order (a
/// greater `region * 1000 + version` first, later directories first among
/// equals), each with its position among `names`. `None` when a name stops
/// the server: its version is not a number, its region is unknown, or its
/// key does not fit in `usize`.
pub fn mount_order(names: &[String]) -> (r: Option<Vec<(PackName, usize)>>)
    ensures
        match r {
            Some(v) => spec_mounted(name_bytes(names@)) matches Some(m) && keys_fit(m)
                && in_mount_order(v@, m),
            None => spec_mounted(name_bytes(names@)) matches Some(m) ==> !keys_fit(m),
        },
{
    let ghost all = name_bytes(names@);
    let mut sorted: Vec<(PackName, usize)> = Vec::new();
    let mut keys: Vec<usize> = Vec::new();
    let mut i: usize = 0;
    proof {
        assert(all.subrange(0, 0) =~= Seq::<Seq<u8>>::empty());
    }
    while i < names.len()
        invariant
            i <= names@.len(),
            all == name_bytes(names@),
            spec_mounted(all.subrange(0, i as int)) matches Some(m) && keys_fit(m) && in_mount_order(
                sorted@,
                m,
            ) && (forall|k: int| 0 <= k < m.len() ==> #[trigger] m[k].1 < i),
            keys@.len() == sorted@.len(),
            forall|k: int| 0 <= k < sorted@.len() ==> #[trigger] keys@[k] == pack_key(sorted@[k].0),
        decreases names@.len() - i,
    {
        let ghost prefix = all.subrange(0, i as int);
        let ghost next = all.subrange(0, i + 1);
        assert(next.drop_last() =~= prefix);
        assert(next.last() == encode_utf8(names@[i as int]@));
        let ghost m = spec_mounted(prefix).unwrap();
        let parsed = pack_name(names[i].as_str().as_bytes());
        match parsed {
            None => {
                proof {
                    assert(spec_mounted(next) is None);
                    lemma_mounted_none(all, i as int + 1);
                }
                return None;
            },
            Some(None) => {
                assert(spec_mounted(next) == Some(m));
            },
            Some(Some(p)) => {
                let key = match (p.region * 1000).checked_add(p.version) {
                    Some(key) => key,
                    None => {
                        proof {
                            let m2 = m.push((p, i));
                            assert(spec_mounted(next) == Some(m2));
                            assert(!keys_fit(m2)) by {
                                assert(m2[m.len() as int] == (p, i));
                                assert(pack_key(m2[m.len() as int].0) > usize::MAX);
                            }
                            lemma_mounted_keys(all, i as int + 1);
                        }
                        return None;
                    },
                };
                let mut pos: usize = 0;
                while pos < sorted.len() && (keys[pos] > key || (keys[pos] == key && sorted[pos].1 > i))
                    invariant
                        pos <= sorted@.len(),
                        keys@.len() == sorted@.len(),
                        forall|k: int| 0 <= k < sorted@.len() ==> #[trigger] keys@[k] == pack_key(sorted@[k].0),
                        key == pack_key(p),
                        forall|k: int| 0 <= k < pos ==> mounted_before(#[trigger] sorted@[k], (p, i as usize)),
                    decreases sorted@.len() - pos,
                {
                    pos += 1;
                }
                let ghost old_sorted = sorted@;
                let ghost old_keys = keys@;
                sorted.insert(pos, (p, i));
                keys.insert(pos, key);
                proof {
                    let m2 = m.push((p, i as usize));
                    assert(spec_mounted(next) == Some(m2));
                    assert forall|k: int| 0 <= k < old_sorted.len() implies #[trigger] old_sorted[k].1 < i by {
                        assert(m.contains(old_sorted[k]));
                    }
                    assert forall|k: int| pos <= k < old_sorted.len() implies mounted_before(
                        (p, i as usize),
                        #[trigger] old_sorted[k],
                    ) by {
                        if k == pos {
                        } else {
                            assert(mounted_before(old_sorted[pos as int], old_sorted[k]));
                        }
                    }
                    assert forall|k: int| 0 <= k < sorted@.len() implies m2.contains(#[trigger] sorted@[k]) by {
                        if k < pos {
                            assert(m.contains(old_sorted[k]));
                            let w = choose|w: int| 0 <= w < m.len() && m[w] == old_sorted[k];
                            assert(m2[w] == old_sorted[k]);
                        } else if k == pos {
                            assert(m2[m.len() as int] == (p, i as usize));
                        } else {
                            assert(m.contains(old_sorted[k - 1]));
                            let w = choose|w: int| 0 <= w < m.len() && m[w] == old_sorted[k - 1];
                            assert(m2[w] == old_sorted[k - 1]);
                        }
                    }
                    assert forall|a: int, b: int| 0 <= a < b < sorted@.len() implies mounted_before(
                        #[trigger] sorted@[a],
                        #[trigger] sorted@[b],
                    ) by {
                        if b < pos {
                        } else if a < pos && b == pos {
                        } else if a < pos && b > pos {
                            assert(sorted@[b] == old_sorted[b - 1]);
                        } else if a == pos {
                            assert(sorted@[b] == old_sorted[b - 1]);
                        } else {
                            assert(sorted@[a] == old_sorted[a - 1]);
                            assert(sorted@[b] == old_sorted[b - 1]);
                        }
                    }
                    assert(keys_fit(m2)) by {
                        assert forall|k: int| 0 <= k < m2.len() implies pack_key(#[trigger] m2[k].0) <= usize::MAX by {
                            if k < m.len() {
                                assert(m2[k] == m[k]);
                            }
                        }
                    }
                    assert forall|k: int| 0 <= k < sorted@.len() implies #[trigger] keys@[k] == pack_key(sorted@[k].0) by {
                        if k > pos {
                            assert(keys@[k] == old_keys[k - 1]);
                        }
                    }
                }
            },
        }
        i += 1;
    }
    assert(all.subrange(0, i as int) =~= all);
    Some(sorted)
}

/// Once a prefix of the names stops the server, all of them do.
proof fn lemma_mounted_none(names: Seq<Seq<u8>>, k: int)
    requires
        0 <= k <= names.len(),
        spec_mounted(names.subrange(0, k)) is None,
    ensures
        spec_mounted(names) is None,
    decreases names.len() - k,
{
    if k < names.len() {
        assert(names.subrange(0, k + 1).drop_last() =~= names.subrange(0, k));
        lemma_mounted_none(names, k + 1);
    } else {
        assert(names.subrange(0, k) =~= names);
    }
}

/// Once a directory's key does not fit, it stays among the mounted ones.
proof fn lemma_mounted_keys(names: Seq<Seq<u8>>, k: int)
    requires
        0 <= k <= names.len(),
        spec_mounted(names.subrange(0, k)) matches Some(m) && !keys_fit(m),
    ensures
        spec_mounted(names) matches Some(m) ==> !keys_fit(m),
    decreases names.len() - k,
{
    if k < names.len() {
        let prefix = names.subrange(0, k);
        let next = names.subrange(0, k + 1);
        assert(next.drop_last() =~= prefix);
        let m = spec_mounted(prefix).unwrap();
        let w = choose|w: int| 0 <= w < m.len() && pack_key(#[trigger] m[w].0) > usize::MAX;
        match spec_mounted(next) {
            Some(m2) => {
                assert(m2[w] == m[w]);
                lemma_mounted_keys(names, k + 1);
            },
            None => {
                lemma_mounted_none(names, k + 1);
            },
        }
    } else {
        assert(names.subrange(0, k) =~= names);
    }
}

/// The name under which a data directory is served.
pub fn pack_key_name(p: &PackName) -> (r: String)
    requires
        p.region < 3,
    ensures
        r@ == ascii_chars(spec_pack_key_name(*p)),
{
    let mut bytes = region_name(p.region);
    bytes.push(95);
    push_digits(&mut bytes, p.version as u64, 10);
    proof {
        let d = spec_digits(p.version as nat, 10);
        crate::provider::lemma_digits_ascii(p.version as nat, 10);
        let n = spec_region_name(p.region as int);
        assert(bytes@ =~= spec_pack_key_name(*p));
        assert forall|k: int| 0 <= k < bytes@.len() implies #[trigger] bytes@[k] < 0x80 by {
            if k > n.len() {
                assert(bytes@[k] == d[k - n.len() - 1]);
            }
        }
    }
    ascii_string(bytes.as_slice())
}

/// The text `all`, the version under which every directory is served.
pub open spec fn all_key() -> Seq<char> {
    seq!['a', 'l', 'l']
}

/// The packages of the server: each version name with the directories it
/// reads from.
pub struct ContextImpl {
    pub packages: Vec<(String, ExtractedFileProviderLocal)>,
}

/// Whether `packages` serves the directories `v` (in mount order) of
/// `paths`: each under its own name, then all of them, in that order, under
/// `all`.
pub open spec fn serves(
    packages: Seq<(String, ExtractedFileProviderLocal)>,
    v: Seq<(PackName, usize)>,
    paths: Seq<Seq<char>>,
) -> bool {
    &&& packages.len() == v.len() + 1
    &&& forall|k: int|
        0 <= k < v.len() ==> {
            &&& (#[trigger] packages[k]).0@ == ascii_chars(spec_pack_key_name(v[k].0))
            &&& packages[k].1.dirs() == seq![paths[v[k].1 as int]]
        }
    &&& packages[v.len() as int].0@ == all_key()
    &&& packages[v.len() as int].1.dirs() == v.map_values(|e: (PackName, usize)| paths[e.1 as int])
}

impl ContextImpl {
    /// The packages to serve, from the data directories (their paths and
    /// names). No name may stop the server (see `mount_order`), and the
    /// package names must fit in memory.
    pub fn new(entries: &[(String, String)]) -> (r: ContextImpl)
        requires
            ({
                let names = entries@.map_values(|e: (String, String)| e.1);
                spec_mounted(name_bytes(names)) matches Some(m) && keys_fit(m)
            }),
        ensures
            ({
                let names = entries@.map_values(|e: (String, String)| e.1);
                let paths = entries@.map_values(|e: (String, String)| e.0@);
                spec_mounted(name_bytes(names)) matches Some(m) && exists|v: Seq<(PackName, usize)>|
                    in_mount_order(v, m) && serves(r.packages@, v, paths)
            }),
    {
        Self::try_new(entries).unwrap()
    }

    /// The packages to serve as [`Self::new`] makes them; `None` where a name
    /// stops the server or the names do not fit.
    pub fn try_new(entries: &[(String, String)]) -> (r: Option<ContextImpl>)
        ensures
            ({
                let names = entries@.map_values(|e: (String, String)| e.1);
                let paths = entries@.map_values(|e: (String, String)| e.0@);
                match r {
                    Some(c) => spec_mounted(name_bytes(names)) matches Some(m) && keys_fit(m)
                        && exists|v: Seq<(PackName, usize)>| in_mount_order(v, m) && serves(
                        c.packages@,
                        v,
                        paths,
                    ),
                    None => spec_mounted(name_bytes(names)) matches Some(m) ==> !keys_fit(m),
                }
            }),
    {
        let mut names: Vec<String> = Vec::new();
        let mut i: usize = 0;
        while i < entries.len()
            invariant
                i <= entries@.len(),
                names@.len() == i,
                forall|k: int| 0 <= k < i ==> #[trigger] names@[k]@ == entries@[k].1@,
            decreases entries@.len() - i,
        {
            names.push(entries[i].1.clone());
            i += 1;
        }
        let ghost all_names = entries@.map_values(|e: (String, String)| e.1);
        let ghost paths = entries@.map_values(|e: (String, String)| e.0@);
        assert(name_bytes(names@) =~= name_bytes(all_names));
        let order = match mount_order(names.as_slice()) {
            Some(order) => order,
            None => {
                return None;
            },
        };
        let ghost m = spec_mounted(name_bytes(all_names)).unwrap();
        proof {
            lemma_mounted_fields(name_bytes(all_names));
        }
        let mut packages: Vec<(String, ExtractedFileProviderLocal)> = Vec::new();
        let mut all_dirs: Vec<String> = Vec::new();
        let mut k: usize = 0;
        while k < order.len()
            invariant
                k <= order@.len(),
                in_mount_order(order@, m),
                forall|j: int| 0 <= j < m.len() ==> (#[trigger] m[j]).1 < entries@.len() && m[j].0.region < 3,
                paths == entries@.map_values(|e: (String, String)| e.0@),
                packages@.len() == k,
                all_dirs@.len() == k,
                forall|j: int|
                    0 <= j < k ==> {
                        &&& (#[trigger] packages@[j]).0@ == ascii_chars(spec_pack_key_name(order@[j].0))
                        &&& packages@[j].1.dirs() == seq![paths[order@[j].1 as int]]
                        &&& all_dirs@[j]@ == paths[order@[j].1 as int]
                    },
            decreases order@.len() - k,
        {
            let (p, idx) = order[k];
            assert(m.contains(order@[k as int]));
            let name = pack_key_name(&p);
            let path = entries[idx].0.clone();
            all_dirs.push(path.clone());
            packages.push((name, ExtractedFileProviderLocal::with_path(path.as_str())));
            k += 1;
        }
        let ghost dirs = all_dirs@.map_values(|d: String| d@);
        assert forall|j: int| 0 <= j < dirs.len() implies dirs[j] == paths[order@[j].1 as int] by {
            assert(packages@[j].0@ == ascii_chars(spec_pack_key_name(order@[j].0)));
        }
        assert(dirs =~= order@.map_values(|e: (PackName, usize)| paths[e.1 as int]));
        let all = ExtractedFileProviderLocal::with_paths(all_dirs);
        packages.push((ascii_string(vec!['a' as u8, 'l' as u8, 'l' as u8].as_slice()), all));
        proof {
            assert(ascii_chars(seq!['a' as u8, 'l' as u8, 'l' as u8]) =~= all_key());
            assert(serves(packages@, order@, paths));
        }
        Some(ContextImpl { packages })
    }

    /// The package served under `version`: the last one of that name.
    pub fn package(&self, version: &str) -> (r: Option<&ExtractedFileProviderLocal>)
        ensures
            match r {
                Some(p) => exists|k: int|
                    0 <= k < self.packages@.len() && (#[trigger] self.packages@[k]).0@ == version@
                        && *p == self.packages@[k].1 && forall|j: int|
                        k < j < self.packages@.len() ==> (#[trigger] self.packages@[j]).0@ != version@,
                None => forall|k: int|
                    0 <= k < self.packages@.len() ==> (#[trigger] self.packages@[k]).0@ != version@,
            },
    {
        let mut k: usize = self.packages.len();
        while k > 0
            invariant
                k <= self.packages@.len(),
                forall|j: int| k <= j < self.packages@.len() ==> (#[trigger] self.packages@[j]).0@ != version@,
            decreases k,
        {
            let name = &self.packages[k - 1].0;
            proof {
                vstd::utf8::encode_utf8_decode_utf8(name@);
                vstd::utf8::encode_utf8_decode_utf8(version@);
            }
            if bytes_eq(name.as_str().as_bytes(), version.as_bytes()) {
                return Some(&self.packages[k - 1].1);
            }
            k -= 1;
        }
        None
    }
}

/// What the mounted directories hold: positions among the names and
/// known regions.
proof fn lemma_mounted_fields(names: Seq<Seq<u8>>)
    ensures
        spec_mounted(names) matches Some(m) ==> forall|j: int|
            0 <= j < m.len() ==> (#[trigger] m[j]).1 < names.len() && m[j].0.region < 3,
    decreases names.len(),
{
    if names.len() > 0 {
        lemma_mounted_fields(names.drop_last());
    }
}

/// The server's packages, shared between requests.
#[derive(Clone)]
pub struct Context {
    context: Arc<ContextImpl>,
}

impl Context {
    /// The packages under which the data directories are served.
    pub closed spec fn packages(&self) -> Seq<(String, ExtractedFileProviderLocal)> {
        self.context.packages@
    }

    /// Shares the packages made from the data directories (see
    /// `ContextImpl::new`, whose demands it shares).
    pub fn new(entries: &[(String, String)]) -> (r: Context)
        requires
            ({
                let names = entries@.map_values(|e: (String, String)| e.1);
                spec_mounted(name_bytes(names)) matches Some(m) && keys_fit(m)
            }),
        ensures
            ({
                let names = entries@.map_values(|e: (String, String)| e.1);
                let paths = entries@.map_values(|e: (String, String)| e.0@);
                spec_mounted(name_bytes(names)) matches Some(m) && exists|v: Seq<(PackName, usize)>|
                    in_mount_order(v, m) && serves(r.packages(), v, paths)
            }),
    {
        Context { context: Arc::new(ContextImpl::new(entries)) }
    }

    /// Shares the packages as [`Self::new`] does; `None` where
    /// `ContextImpl::try_new` gives none.
    pub fn try_new(entries: &[(String, String)]) -> (r: Option<Context>)
        ensures
            ({
                let names = entries@.map_values(|e: (String, String)| e.1);
                let paths = entries@.map_values(|e: (String, String)| e.0@);
                match r {
                    Some(c) => spec_mounted(name_bytes(names)) matches Some(m) && keys_fit(m)
                        && exists|v: Seq<(PackName, usize)>| in_mount_order(v, m) && serves(
                        c.packages(),
                        v,
                        paths,
                    ),
                    None => spec_mounted(name_bytes(names)) matches Some(m) ==> !keys_fit(m),
                }
            }),
    {
        match ContextImpl::try_new(entries) {
            Some(context) => Some(Context { context: Arc::new(context) }),
            None => None,
        }
    }

    /// The shared packages.
    pub fn get(&self) -> (r: &ContextImpl)
        ensures
            r.packages@ == self.packages(),
    {
        &self.context
    }
}

} // verus!
