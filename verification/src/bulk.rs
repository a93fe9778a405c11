//! The bulk transfer of compressed files: the request path that names the
//! files (`folder-file-path` hashes in hexadecimal, joined by `.`) and the
//! response body that carries them (a 16-byte header before each file).
use vstd::prelude::*;

use crate::data::word_at;
use crate::reference::{SqPackFileHash, DOT};
use crate::util::{le32_bytes, lemma_le32_roundtrip, push_u32_le, read_u32_le, spec_u32_le};
use crate::text::{
    digit_value, digits_value, first_index, lemma_first_index, lemma_first_index_is,
    parse_unsigned, spec_parse_unsigned, spec_split, split_bytes,
};

verus! {

/// The byte of `-`, which separates the three hashes of one file.
pub const DASH: u8 = 45;

/// The character that writes digit `d` (0 to 15): `0`-`9`, then `a`-`f`.
pub open spec fn digit_char(d: int) -> u8 {
    if d < 10 {
        (48 + d) as u8
    } else {
        (87 + d) as u8
    }
}

/// `x` written in `radix` (10 or 16), most significant digit first, without
/// leading zeros, in lower case: what `{}` and `{:x}` print.
pub open spec fn spec_digits(x: nat, radix: nat) -> Seq<u8>
    decreases x,
{
    if radix < 2 || x < radix {
        seq![digit_char(x as int)]
    } else {
        proof {
            vstd::arithmetic::div_mod::lemma_div_decreases(x as int, radix as int);
        }
        spec_digits(x / radix, radix) + seq![digit_char((x % radix) as int)]
    }
}

/// Appends the digits of `x` in `radix`.
pub fn push_digits(out: &mut Vec<u8>, x: u64, radix: u64)
    requires
        radix == 10 || radix == 16,
    ensures
        final(out)@ == old(out)@ + spec_digits(x as nat, radix as nat),
    decreases x,
{
    if x < radix {
        out.push(if x < 10 { 48 + x as u8 } else { 87 + x as u8 });
    } else {
        proof {
            vstd::arithmetic::div_mod::lemma_div_decreases(x as int, radix as int);
        }
        push_digits(out, x / radix, radix);
        let d = x % radix;
        out.push(if d < 10 { 48 + d as u8 } else { 87 + d as u8 });
        assert(out@ =~= old(out)@ + spec_digits(x as nat, radix as nat));
    }
}

/// Digits are neither separators nor a sign, and read back as the number.
proof fn lemma_digits(x: nat, radix: nat)
    requires
        radix == 10 || radix == 16,
    ensures
        spec_digits(x, radix).len() > 0,
        forall|k: int| 0 <= k < spec_digits(x, radix).len() ==> {
            let b = #[trigger] spec_digits(x, radix)[k];
            &&& b != DOT
            &&& b != DASH
            &&& b != 43
            &&& b != 47
            &&& b < 0x80
        },
        digits_value(spec_digits(x, radix), radix as int) == Some(x as int),
    decreases x,
{
    if x < radix {
        assert(spec_digits(x, radix).drop_last() =~= Seq::<u8>::empty());
        assert(digits_value(Seq::<u8>::empty(), radix as int) == Some(0int));
        assert(digit_value(spec_digits(x, radix).last(), radix as int) == Some(x as int));
    } else {
        vstd::arithmetic::div_mod::lemma_div_decreases(x as int, radix as int);
        lemma_digits(x / radix, radix);
        let s = spec_digits(x, radix);
        assert(s.drop_last() =~= spec_digits(x / radix, radix));
        vstd::arithmetic::div_mod::lemma_fundamental_div_mod(x as int, radix as int);
        assert(digit_value(s.last(), radix as int) == Some((x % radix) as int));
        assert((x / radix) * radix + x % radix == x) by (nonlinear_arith)
            requires
                x == radix * (x / radix) + x % radix,
        ;
        assert forall|k: int| 0 <= k < s.len() implies {
            let b = #[trigger] s[k];
            &&& b != DOT
            &&& b != DASH
            &&& b != 43
            &&& b != 47
            &&& b < 0x80
        } by {
            if k < s.len() - 1 {
                assert(s[k] == spec_digits(x / radix, radix)[k]);
            }
        }
    }
}

/// Splitting at a separator between two pieces of text splits each.
pub proof fn lemma_split_concat(a: Seq<u8>, b: Seq<u8>, sep: u8)
    ensures
        spec_split(a + seq![sep] + b, sep) == spec_split(a, sep) + spec_split(b, sep),
    decreases a.len(),
{
    let w = a + seq![sep] + b;
    lemma_first_index(a, sep);
    match first_index(a, sep) {
        Some(i) => {
            lemma_first_index_is(w, sep, i);
            let a2 = a.subrange(i + 1, a.len() as int);
            lemma_split_concat(a2, b, sep);
            assert(w.subrange(0, i) =~= a.subrange(0, i));
            assert(w.subrange(i + 1, w.len() as int) =~= a2 + seq![sep] + b);
            assert(spec_split(w, sep) =~= seq![a.subrange(0, i)] + spec_split(
                a2 + seq![sep] + b,
                sep,
            ));
            assert(spec_split(a, sep) =~= seq![a.subrange(0, i)] + spec_split(a2, sep));
            assert(spec_split(w, sep) =~= spec_split(a, sep) + spec_split(b, sep));
        },
        None => {
            lemma_first_index_is(w, sep, a.len() as int);
            lemma_first_index_is(a, sep, a.len() as int);
            assert(w.subrange(0, a.len() as int) =~= a);
            assert(w.subrange(a.len() + 1 as int, w.len() as int) =~= b);
            assert(spec_split(w, sep) =~= spec_split(a, sep) + spec_split(b, sep));
        },
    }
}

/// Text without the separator is one piece.
pub proof fn lemma_split_none(a: Seq<u8>, sep: u8)
    requires
        forall|k: int| 0 <= k < a.len() ==> a[k] != sep,
    ensures
        spec_split(a, sep) == seq![a],
{
    lemma_first_index_is(a, sep, a.len() as int);
}

/// How the bulk request names one file: its folder, file and path hashes in
/// hexadecimal, joined by `-`.
pub open spec fn spec_bulk_item_path(h: SqPackFileHash) -> Seq<u8> {
    spec_digits(h.folder as nat, 16) + seq![DASH] + spec_digits(h.file as nat, 16) + seq![DASH]
        + spec_digits(h.path as nat, 16)
}

/// How the bulk request names the files: their names joined by `.`.
pub open spec fn spec_bulk_paths(hs: Seq<SqPackFileHash>) -> Seq<u8>
    decreases hs.len(),
{
    if hs.len() == 0 {
        Seq::empty()
    } else if hs.len() == 1 {
        spec_bulk_item_path(hs[0])
    } else {
        spec_bulk_paths(hs.drop_last()) + seq![DOT] + spec_bulk_item_path(hs.last())
    }
}

/// The file that one name of a bulk request gives: exactly three
/// hexadecimal numbers of at most 32 bits, folder, file and path.
pub open spec fn spec_bulk_item(s: Seq<u8>) -> Option<SqPackFileHash> {
    let parts = spec_split(s, DASH);
    if parts.len() == 3 && spec_parse_unsigned(parts[0], 16, 0xffff_ffff) is Some
        && spec_parse_unsigned(parts[1], 16, 0xffff_ffff) is Some && spec_parse_unsigned(
        parts[2],
        16,
        0xffff_ffff,
    ) is Some {
        Some(
            SqPackFileHash {
                folder: spec_parse_unsigned(parts[0], 16, 0xffff_ffff).unwrap() as u32,
                file: spec_parse_unsigned(parts[1], 16, 0xffff_ffff).unwrap() as u32,
                path: spec_parse_unsigned(parts[2], 16, 0xffff_ffff).unwrap() as u32,
            },
        )
    } else {
        None
    }
}

/// The files that a bulk request names; `None` when one name is not three
/// hexadecimal numbers (the request is then refused as bad).
pub open spec fn spec_bulk_request(s: Seq<u8>) -> Option<Seq<SqPackFileHash>> {
    let pieces = spec_split(s, DOT);
    if forall|k: int| 0 <= k < pieces.len() ==> (#[trigger] spec_bulk_item(pieces[k])) is Some {
        Some(Seq::new(pieces.len(), |k: int| spec_bulk_item(pieces[k]).unwrap()))
    } else {
        None
    }
}

proof fn lemma_item_path(h: SqPackFileHash)
    ensures
        spec_bulk_item(spec_bulk_item_path(h)) == Some(h),
        forall|k: int| 0 <= k < spec_bulk_item_path(h).len() ==> #[trigger] spec_bulk_item_path(h)[k] != DOT,
{
    let a = spec_digits(h.folder as nat, 16);
    let b = spec_digits(h.file as nat, 16);
    let c = spec_digits(h.path as nat, 16);
    lemma_digits(h.folder as nat, 16);
    lemma_digits(h.file as nat, 16);
    lemma_digits(h.path as nat, 16);
    lemma_split_concat(a, b + seq![DASH] + c, DASH);
    lemma_split_concat(b, c, DASH);
    assert(a + seq![DASH] + b + seq![DASH] + c =~= a + seq![DASH] + (b + seq![DASH] + c));
    lemma_split_none(a, DASH);
    lemma_split_none(b, DASH);
    lemma_split_none(c, DASH);
    let parts = spec_split(spec_bulk_item_path(h), DASH);
    assert(parts =~= seq![a, b, c]);
    assert(a[0] != 43 && b[0] != 43 && c[0] != 43);
    assert(spec_parse_unsigned(a, 16, 0xffff_ffff) == Some(h.folder as int));
    assert(spec_parse_unsigned(b, 16, 0xffff_ffff) == Some(h.file as int));
    assert(spec_parse_unsigned(c, 16, 0xffff_ffff) == Some(h.path as int));
    let s = spec_bulk_item_path(h);
    assert forall|k: int| 0 <= k < s.len() implies #[trigger] s[k] != DOT by {
        if k < a.len() {
            assert(s[k] == a[k]);
        } else if k == a.len() {
        } else if k < a.len() + 1 + b.len() {
            assert(s[k] == b[k - a.len() - 1]);
        } else if k == a.len() + 1 + b.len() {
        } else {
            assert(s[k] == c[k - a.len() - 2 - b.len()]);
        }
    }
}

proof fn lemma_split_paths(hs: Seq<SqPackFileHash>)
    requires
        hs.len() > 0,
    ensures
        spec_split(spec_bulk_paths(hs), DOT) == hs.map_values(|h: SqPackFileHash| spec_bulk_item_path(h)),
    decreases hs.len(),
{
    lemma_item_path(hs.last());
    lemma_split_none(spec_bulk_item_path(hs.last()), DOT);
    if hs.len() == 1 {
        assert(hs.map_values(|h: SqPackFileHash| spec_bulk_item_path(h)) =~= seq![spec_bulk_item_path(hs[0])]);
    } else {
        lemma_split_paths(hs.drop_last());
        lemma_split_concat(spec_bulk_paths(hs.drop_last()), spec_bulk_item_path(hs.last()), DOT);
        assert(hs.map_values(|h: SqPackFileHash| spec_bulk_item_path(h)) =~= hs.drop_last().map_values(
            |h: SqPackFileHash| spec_bulk_item_path(h),
        ) + seq![spec_bulk_item_path(hs.last())]);
    }
}

/// A bulk request built from some files names exactly those files, in their
/// order.
pub proof fn lemma_bulk_request_roundtrip(hs: Seq<SqPackFileHash>)
    requires
        hs.len() > 0,
    ensures
        spec_bulk_request(spec_bulk_paths(hs)) == Some(hs),
{
    lemma_split_paths(hs);
    let pieces = spec_split(spec_bulk_paths(hs), DOT);
    assert forall|k: int| 0 <= k < pieces.len() implies #[trigger] spec_bulk_item(pieces[k]) == Some(
        hs[k],
    ) by {
        lemma_item_path(hs[k]);
    }
    assert(Seq::new(pieces.len(), |k: int| spec_bulk_item(pieces[k]).unwrap()) =~= hs);
}

/// Appends how the bulk request names one file.
pub fn push_bulk_item_path(out: &mut Vec<u8>, h: &SqPackFileHash)
    ensures
        final(out)@ == old(out)@ + spec_bulk_item_path(*h),
{
    push_digits(out, h.folder as u64, 16);
    out.push(DASH);
    push_digits(out, h.file as u64, 16);
    out.push(DASH);
    push_digits(out, h.path as u64, 16);
    assert(out@ =~= old(out)@ + spec_bulk_item_path(*h));
}

/// How the bulk request names `hashes`: each as `folder-file-path` in
/// hexadecimal, joined by `.`.
pub fn bulk_paths(hashes: &[SqPackFileHash]) -> (r: Vec<u8>)
    ensures
        r@ == spec_bulk_paths(hashes@),
{
    let mut r: Vec<u8> = Vec::new();
    let mut i: usize = 0;
    while i < hashes.len()
        invariant
            i <= hashes@.len(),
            r@ == spec_bulk_paths(hashes@.subrange(0, i as int)),
        decreases hashes@.len() - i,
    {
        let ghost before = r@;
        if i > 0 {
            r.push(DOT);
        }
        push_bulk_item_path(&mut r, &hashes[i]);
        i += 1;
        proof {
            let prefix = hashes@.subrange(0, i as int);
            assert(prefix.drop_last() =~= hashes@.subrange(0, i - 1));
            if i == 1 {
                assert(r@ =~= spec_bulk_item_path(prefix[0]));
            }
        }
    }
    assert(hashes@.subrange(0, i as int) =~= hashes@);
    r
}

/// The file one name of a bulk request gives.
fn parse_bulk_item(s: &[u8]) -> (r: Option<SqPackFileHash>)
    ensures
        r == spec_bulk_item(s@),
{
    let parts = split_bytes(s, DASH);
    assert(parts@.len() == spec_split(s@, DASH).len());
    if parts.len() != 3 {
        return None;
    }
    let ghost p = spec_split(s@, DASH);
    assert(parts@[0]@ == p[0] && parts@[1]@ == p[1] && parts@[2]@ == p[2]);
    let folder = parse_unsigned(parts[0].as_slice(), 16, 0xffff_ffff);
    let file = parse_unsigned(parts[1].as_slice(), 16, 0xffff_ffff);
    let path = parse_unsigned(parts[2].as_slice(), 16, 0xffff_ffff);
    match (folder, file, path) {
        (Some(folder), Some(file), Some(path)) => Some(SqPackFileHash { path, folder, file }),
        _ => None,
    }
}

/// The files that a bulk request names, from the text after the request's
/// leading `/`; `None` when one name is not three hexadecimal numbers
/// joined by `-`.
pub fn parse_bulk_request(paths: &[u8]) -> (r: Option<Vec<SqPackFileHash>>)
    ensures
        match r {
            Some(v) => spec_bulk_request(paths@) == Some(v@),
            None => spec_bulk_request(paths@) is None,
        },
{
    let pieces = split_bytes(paths, DOT);
    let ghost ps = spec_split(paths@, DOT);
    assert(pieces@.len() == ps.len());
    let mut r: Vec<SqPackFileHash> = Vec::new();
    let mut i: usize = 0;
    while i < pieces.len()
        invariant
            i <= pieces@.len(),
            ps == spec_split(paths@, DOT),
            pieces@.len() == ps.len(),
            forall|k: int| 0 <= k < ps.len() ==> #[trigger] pieces@[k]@ == ps[k],
            r@.len() == i,
            forall|k: int| 0 <= k < i ==> Some(#[trigger] r@[k]) == spec_bulk_item(ps[k]),
        decreases pieces@.len() - i,
    {
        match parse_bulk_item(pieces[i].as_slice()) {
            Some(h) => {
                r.push(h);
            },
            None => {
                assert(spec_bulk_item(ps[i as int]) is None);
                return None;
            },
        }
        i += 1;
    }
    assert forall|k: int| 0 <= k < ps.len() implies (#[trigger] spec_bulk_item(ps[k])) is Some by {
        assert(Some(r@[k]) == spec_bulk_item(ps[k]));
    }
    assert(r@ =~= Seq::new(ps.len(), |k: int| spec_bulk_item(ps[k]).unwrap()));
    Some(r)
}

/// Bytes of the header before each file of a bulk response.
pub const BULK_ITEM_HEADER_SIZE: usize = 16;

/// One file of a bulk response: its folder, file and path hashes and its
/// size (modulo 2^32) as little-endian 32-bit numbers, then its bytes.
pub open spec fn spec_bulk_item_bytes(h: SqPackFileHash, data: Seq<u8>) -> Seq<u8> {
    le32_bytes(h.folder) + le32_bytes(h.file) + le32_bytes(h.path) + le32_bytes(
        (data.len() % 0x1_0000_0000) as u32,
    ) + data
}

/// A bulk response: the files one after the other.
pub open spec fn spec_bulk_body(items: Seq<(SqPackFileHash, Seq<u8>)>) -> Seq<u8>
    decreases items.len(),
{
    if items.len() == 0 {
        Seq::empty()
    } else {
        spec_bulk_item_bytes(items[0].0, items[0].1) + spec_bulk_body(items.drop_first())
    }
}

/// The first `count` files of a bulk response; `None` when a header or a
/// file is cut short.
pub open spec fn spec_parse_bulk(data: Seq<u8>, count: nat) -> Option<Seq<(SqPackFileHash, Seq<u8>)>>
    decreases count,
{
    if count == 0 {
        Some(Seq::empty())
    } else if data.len() < 16 {
        None
    } else {
        let size = spec_u32_le(data, 12);
        if 16 + size > data.len() {
            None
        } else {
            let h = SqPackFileHash {
                folder: spec_u32_le(data, 0) as u32,
                file: spec_u32_le(data, 4) as u32,
                path: spec_u32_le(data, 8) as u32,
            };
            match spec_parse_bulk(data.subrange(16 + size, data.len() as int), (count - 1) as nat) {
                None => None,
                Some(rest) => Some(seq![(h, data.subrange(16, 16 + size))] + rest),
            }
        }
    }
}

/// The layout of one file of a bulk response, as little-endian 32-bit
/// words: its folder hash (bytes 0 to 3), file hash (4 to 7), path hash (8
/// to 11) and length (12 to 15), then its bytes. Writing a file gives that
/// layout, and reading one response file takes its fields from those places.
pub proof fn lemma_bulk_item_layout(h: SqPackFileHash, d: Seq<u8>, r: Seq<u8>)
    requires
        d.len() < 0x1_0000_0000,
        r.len() >= 16,
        16 + word_at(r, 12) <= r.len(),
    ensures
        word_at(spec_bulk_item_bytes(h, d), 0) == h.folder,
        word_at(spec_bulk_item_bytes(h, d), 4) == h.file,
        word_at(spec_bulk_item_bytes(h, d), 8) == h.path,
        word_at(spec_bulk_item_bytes(h, d), 12) == d.len(),
        spec_bulk_item_bytes(h, d).subrange(16, 16 + d.len() as int) == d,
        spec_parse_bulk(r, 1) matches Some(v) && v.len() == 1 && v[0].0 == (SqPackFileHash {
            folder: word_at(r, 0) as u32,
            file: word_at(r, 4) as u32,
            path: word_at(r, 8) as u32,
        }) && v[0].1 == r.subrange(16, 16 + word_at(r, 12)),
{
    let b = spec_bulk_item_bytes(h, d);
    lemma_le32_roundtrip(h.folder);
    lemma_le32_roundtrip(h.file);
    lemma_le32_roundtrip(h.path);
    lemma_le32_roundtrip(d.len() as u32);
    assert(b.subrange(0, 4) =~= le32_bytes(h.folder));
    assert(b.subrange(4, 8) =~= le32_bytes(h.file));
    assert(b.subrange(8, 12) =~= le32_bytes(h.path));
    assert(b.subrange(12, 16) =~= le32_bytes(d.len() as u32));
    assert(spec_u32_le(b, 0) == spec_u32_le(b.subrange(0, 4), 0));
    assert(spec_u32_le(b, 4) == spec_u32_le(b.subrange(4, 8), 0));
    assert(spec_u32_le(b, 8) == spec_u32_le(b.subrange(8, 12), 0));
    assert(spec_u32_le(b, 12) == spec_u32_le(b.subrange(12, 16), 0));
    assert(b.subrange(16, 16 + d.len() as int) =~= d);
    let rest = r.subrange(16 + word_at(r, 12), r.len() as int);
    assert(spec_parse_bulk(rest, 0) == Some(Seq::<(SqPackFileHash, Seq<u8>)>::empty()));
    assert(word_at(r, 0) < 0x1_0000_0000);
    assert(word_at(r, 4) < 0x1_0000_0000);
    assert(word_at(r, 8) < 0x1_0000_0000);
}

/// Appends one file to a bulk response.
pub fn push_bulk_item(out: &mut Vec<u8>, h: &SqPackFileHash, data: &[u8])
    ensures
        final(out)@ == old(out)@ + spec_bulk_item_bytes(*h, data@),
{
    push_u32_le(out, h.folder);
    push_u32_le(out, h.file);
    push_u32_le(out, h.path);
    let size64 = data.len() as u64;
    let size32: u32 = #[verifier::truncate] (size64 as u32);
    assert(size32 == size64 % 0x1_0000_0000u64) by (bit_vector)
        requires
            size32 == size64 as u32,
    ;
    push_u32_le(out, size32);
    let mut i: usize = 0;
    let ghost mid = out@;
    while i < data.len()
        invariant
            i <= data@.len(),
            out@ == mid + data@.subrange(0, i as int),
        decreases data@.len() - i,
    {
        out.push(data[i]);
        i += 1;
        assert(out@ =~= mid + data@.subrange(0, i as int));
    }
    assert(data@.subrange(0, i as int) =~= data@);
    assert(out@ =~= old(out)@ + spec_bulk_item_bytes(*h, data@));
}

/// The bulk response that carries `files` in order.
pub fn bulk_body(files: &[(SqPackFileHash, Vec<u8>)]) -> (r: Vec<u8>)
    ensures
        r@ == spec_bulk_body(files@.map_values(|f: (SqPackFileHash, Vec<u8>)| (f.0, f.1@))),
{
    let ghost items = files@.map_values(|f: (SqPackFileHash, Vec<u8>)| (f.0, f.1@));
    let mut out: Vec<u8> = Vec::new();
    assert(items.subrange(0, items.len() as int) =~= items);
    let mut k: usize = 0;
    while k < files.len()
        invariant
            k <= files@.len(),
            items == files@.map_values(|f: (SqPackFileHash, Vec<u8>)| (f.0, f.1@)),
            spec_bulk_body(items) == out@ + spec_bulk_body(items.subrange(k as int, items.len() as int)),
        decreases files@.len() - k,
    {
        let ghost rest = items.subrange(k as int, items.len() as int);
        assert(rest.drop_first() =~= items.subrange(k + 1, items.len() as int));
        let (h, d) = &files[k];
        push_bulk_item(&mut out, h, d.as_slice());
        k += 1;
    }
    assert(items.subrange(k as int, items.len() as int) =~= Seq::<(SqPackFileHash, Seq<u8>)>::empty());
    out
}

/// The first `count` files of a bulk response, each with its hashes; `None`
/// when the response is cut short.
pub fn parse_bulk_response(data: &[u8], count: usize) -> (r: Option<Vec<(SqPackFileHash, Vec<u8>)>>)
    ensures
        match r {
            Some(v) => spec_parse_bulk(data@, count as nat) == Some(
                v@.map_values(|f: (SqPackFileHash, Vec<u8>)| (f.0, f.1@)),
            ),
            None => spec_parse_bulk(data@, count as nat) is None,
        },
{
    let mut result: Vec<(SqPackFileHash, Vec<u8>)> = Vec::new();
    let mut cursor: usize = 0;
    let mut k: usize = 0;
    assert(data@.subrange(0, data@.len() as int) =~= data@);
    assert(result@.map_values(|f: (SqPackFileHash, Vec<u8>)| (f.0, f.1@)) =~= Seq::<
        (SqPackFileHash, Seq<u8>),
    >::empty());
    while k < count
        invariant
            k <= count,
            cursor <= data@.len(),
            spec_parse_bulk(data@, count as nat) == match spec_parse_bulk(
                data@.subrange(cursor as int, data@.len() as int),
                (count - k) as nat,
            ) {
                None => None,
                Some(rest) => Some(
                    result@.map_values(|f: (SqPackFileHash, Vec<u8>)| (f.0, f.1@)) + rest,
                ),
            },
        decreases count - k,
    {
        let ghost rest = data@.subrange(cursor as int, data@.len() as int);
        if data.len() - cursor < BULK_ITEM_HEADER_SIZE {
            return None;
        }
        let folder = read_u32_le(data, cursor);
        let file = read_u32_le(data, cursor + 4);
        let path = read_u32_le(data, cursor + 8);
        let size = read_u32_le(data, cursor + 12);
        proof {
            assert(spec_u32_le(rest, 0) == folder);
            assert(spec_u32_le(rest, 4) == file);
            assert(spec_u32_le(rest, 8) == path);
            assert(spec_u32_le(rest, 12) == size);
        }
        let begin = cursor + BULK_ITEM_HEADER_SIZE;
        if size as usize > data.len() - begin {
            return None;
        }
        let end = begin + size as usize;
        let item = vstd::slice::slice_to_vec(vstd::slice::slice_subrange(data, begin, end));
        proof {
            assert(item@ =~= rest.subrange(16, 16 + size));
            assert(rest.subrange(16 + size, rest.len() as int) =~= data@.subrange(
                end as int,
                data@.len() as int,
            ));
        }
        let ghost before = result@.map_values(|f: (SqPackFileHash, Vec<u8>)| (f.0, f.1@));
        result.push((SqPackFileHash { path, folder, file }, item));
        assert(result@.map_values(|f: (SqPackFileHash, Vec<u8>)| (f.0, f.1@)) =~= before + seq![
            (SqPackFileHash { path, folder, file }, item@),
        ]);
        cursor = end;
        k += 1;
    }
    assert(result@.map_values(|f: (SqPackFileHash, Vec<u8>)| (f.0, f.1@)) + Seq::<
        (SqPackFileHash, Seq<u8>),
    >::empty() =~= result@.map_values(|f: (SqPackFileHash, Vec<u8>)| (f.0, f.1@)));
    Some(result)
}

/// What the header of one file of a bulk response reads back as.
proof fn lemma_item_header(h: SqPackFileHash, d: Seq<u8>, tail: Seq<u8>)
    requires
        d.len() < 0x1_0000_0000,
    ensures
        ({
            let body = spec_bulk_item_bytes(h, d) + tail;
            &&& body.len() == 16 + d.len() + tail.len()
            &&& spec_u32_le(body, 0) == h.folder
            &&& spec_u32_le(body, 4) == h.file
            &&& spec_u32_le(body, 8) == h.path
            &&& spec_u32_le(body, 12) == d.len()
            &&& body.subrange(16, 16 + d.len() as int) == d
            &&& body.subrange(16 + d.len() as int, body.len() as int) == tail
        }),
{
    let body = spec_bulk_item_bytes(h, d) + tail;
    lemma_le32_roundtrip(h.folder);
    lemma_le32_roundtrip(h.file);
    lemma_le32_roundtrip(h.path);
    let n = (d.len() % 0x1_0000_0000) as u32;
    lemma_le32_roundtrip(n);
    assert(n == d.len());
    let f = le32_bytes(h.folder);
    let g = le32_bytes(h.file);
    let p = le32_bytes(h.path);
    let z = le32_bytes(n);
    assert(body[0] == f[0] && body[1] == f[1] && body[2] == f[2] && body[3] == f[3]);
    assert(body[4] == g[0] && body[5] == g[1] && body[6] == g[2] && body[7] == g[3]);
    assert(body[8] == p[0] && body[9] == p[1] && body[10] == p[2] && body[11] == p[3]);
    assert(body[12] == z[0] && body[13] == z[1] && body[14] == z[2] && body[15] == z[3]);
    assert(body.subrange(16, 16 + d.len() as int) =~= d);
    assert(body.subrange(16 + d.len() as int, body.len() as int) =~= tail);
}

/// Reading the files back from a bulk response gives the files that went
/// into it, each file shorter than 4 GiB.
#[verifier::rlimit(40)]
pub proof fn lemma_bulk_body_roundtrip(items: Seq<(SqPackFileHash, Seq<u8>)>)
    requires
        forall|k: int| 0 <= k < items.len() ==> (#[trigger] items[k]).1.len() < 0x1_0000_0000,
    ensures
        spec_parse_bulk(spec_bulk_body(items), items.len()) == Some(items),
    decreases items.len(),
{
    if items.len() > 0 {
        let h = items[0].0;
        let d = items[0].1;
        let rest = items.drop_first();
        assert forall|k: int| 0 <= k < rest.len() implies (#[trigger] rest[k]).1.len()
            < 0x1_0000_0000 by {
            assert(rest[k] == items[k + 1]);
        }
        lemma_bulk_body_roundtrip(rest);
        assert(items[0].1.len() < 0x1_0000_0000);
        let tail = spec_bulk_body(rest);
        let body = spec_bulk_body(items);
        assert(body == spec_bulk_item_bytes(h, d) + tail);
        lemma_item_header(h, d, tail);
        assert(body.len() >= 16);
        assert(spec_parse_bulk(body, items.len()) == match spec_parse_bulk(tail, rest.len()) {
            None => None,
            Some(r) => Some(seq![(h, d)] + r),
        });
        assert(seq![(h, d)] + rest =~= items);
    }
}

} // verus!
