//! Small numeric and text helpers shared by the readers.
use vstd::prelude::*;
use vstd::utf8::{decode_first_scalar, decode_utf8, pop_first_scalar, valid_utf8};

use std::str::Utf8Error;

verus! {

/// The smallest multiple of `multiple` that is at least `n`; `n` itself when
/// `multiple` is zero.
pub open spec fn spec_round_up(n: int, multiple: int) -> int {
    if multiple == 0 {
        n
    } else if n % multiple == 0 {
        n
    } else {
        n + multiple - n % multiple
    }
}

/// What rounding up gives: a multiple of `m`, no smaller than `n`, and less
/// than `m` above it.
pub proof fn lemma_round_up(n: int, m: int)
    requires
        0 <= n,
        0 < m,
    ensures
        spec_round_up(n, m) % m == 0,
        n <= spec_round_up(n, m) < n + m,
{
    vstd::arithmetic::div_mod::lemma_fundamental_div_mod(n, m);
    let q = n / m;
    if n % m != 0 {
        assert(n + m - n % m == (q + 1) * m) by (nonlinear_arith)
            requires n == m * q + n % m;
        vstd::arithmetic::div_mod::lemma_mod_multiples_basic(q + 1, m);
    }
}

/// Rounds `num_to_round` up to the next multiple of `multiple`
/// (unchanged when `multiple` is zero).
pub fn round_up(num_to_round: usize, multiple: usize) -> (r: usize)
    requires
        spec_round_up(num_to_round as int, multiple as int) <= usize::MAX,
    ensures
        r == spec_round_up(num_to_round as int, multiple as int),
        multiple != 0 ==> r % multiple == 0 && num_to_round <= r < num_to_round + multiple,
{
    if multiple == 0 {
        return num_to_round;
    }
    proof {
        lemma_round_up(num_to_round as int, multiple as int);
    }
    let remainder = num_to_round % multiple;
    if remainder == 0 {
        num_to_round
    } else {
        num_to_round + (multiple - remainder)
    }
}

/// The little-endian 32-bit number stored at `i`.
pub open spec fn spec_u32_le(d: Seq<u8>, i: int) -> int {
    d[i] + 256 * d[i + 1] + 65536 * d[i + 2] + 16777216 * d[i + 3]
}

/// The little-endian 16-bit number stored at `i`.
pub open spec fn spec_u16_le(d: Seq<u8>, i: int) -> int {
    d[i] + 256 * d[i + 1]
}

/// The four little-endian bytes of `x`.
pub open spec fn le32_bytes(x: u32) -> Seq<u8> {
    seq![(x & 0xff) as u8, ((x >> 8u32) & 0xff) as u8, ((x >> 16u32) & 0xff) as u8, ((x >> 24u32) & 0xff) as u8]
}

/// Reading back the four little-endian bytes of a number gives the number.
pub proof fn lemma_le32_roundtrip(x: u32)
    ensures
        spec_u32_le(le32_bytes(x), 0) == x,
        le32_bytes(x).len() == 4,
{
    let b = le32_bytes(x);
    assert((x & 0xff) + 256 * ((x >> 8u32) & 0xff) + 65536 * ((x >> 16u32) & 0xff) + 16777216 * ((x
        >> 24u32) & 0xff) == x) by (bit_vector);
    assert(b[0] == (x & 0xff) as u8);
    assert((x & 0xff) < 256 && ((x >> 8u32) & 0xff) < 256 && ((x >> 16u32) & 0xff) < 256 && ((x >> 24u32) & 0xff) < 256) by (bit_vector);
}

/// Appends the four little-endian bytes of `x`.
pub fn push_u32_le(out: &mut Vec<u8>, x: u32)
    ensures
        final(out)@ == old(out)@ + le32_bytes(x),
{
    out.push((x & 0xff) as u8);
    out.push(((x >> 8) & 0xff) as u8);
    out.push(((x >> 16) & 0xff) as u8);
    out.push(((x >> 24) & 0xff) as u8);
    assert(out@ =~= old(out)@ + le32_bytes(x));
}

/// Reads the little-endian 32-bit number at `offset`.
pub fn read_u32_le(data: &[u8], offset: usize) -> (r: u32)
    requires
        offset + 4 <= data@.len(),
    ensures
        r == spec_u32_le(data@, offset as int),
{
    data[offset] as u32 + 256 * (data[offset + 1] as u32) + 65536 * (data[offset + 2] as u32)
        + 16777216 * (data[offset + 3] as u32)
}

/// Reads the little-endian 16-bit number at `offset`.
pub fn read_u16_le(data: &[u8], offset: usize) -> (r: u16)
    requires
        offset + 2 <= data@.len(),
    ensures
        r == spec_u16_le(data@, offset as int),
{
    data[offset] as u16 + 256 * (data[offset + 1] as u16)
}

/// Whether every byte is ASCII.
pub open spec fn all_ascii(s: Seq<u8>) -> bool {
    forall|k: int| 0 <= k < s.len() ==> #[trigger] s[k] < 0x80
}

/// The characters of ASCII bytes.
pub open spec fn ascii_chars(s: Seq<u8>) -> Seq<char> {
    s.map_values(|b: u8| b as char)
}

/// ASCII bytes are valid UTF-8 and encode their own characters.
pub proof fn lemma_ascii_utf8(s: Seq<u8>)
    requires
        all_ascii(s),
    ensures
        valid_utf8(s),
        decode_utf8(s) == ascii_chars(s),
    decreases s.len(),
{
    if s.len() > 0 {
        let rest = s.subrange(1, s.len() as int);
        assert(pop_first_scalar(s) =~= rest);
        lemma_ascii_utf8(rest);
        let b = s[0];
        assert((b & 0x7f) as u32 == b) by (bit_vector)
            requires
                b < 0x80,
        ;
        assert(decode_first_scalar(s) == b as u32);
        assert(ascii_chars(s) =~= seq![b as char] + ascii_chars(rest));
    }
}

/// The text of ASCII bytes.
pub fn ascii_string(bytes: &[u8]) -> (r: String)
    requires
        all_ascii(bytes@),
    ensures
        r@ == ascii_chars(bytes@),
{
    proof {
        lemma_ascii_utf8(bytes@);
    }
    match str_from_utf8(bytes) {
        Ok(text) => text.to_owned(),
        Err(_) => String::new(),
    }
}

/// The error of `std::str::from_utf8` on bytes that are not UTF-8.
#[verifier::external_type_specification]
#[verifier::external_body]
pub struct ExUtf8Error(Utf8Error);

/// `std::str::from_utf8`. Its documentation says that it fails exactly when
/// the bytes are not valid UTF-8 and otherwise returns the text they encode;
/// this contract states that over vstd's UTF-8 definitions. Nothing is
/// stated of the error's contents.
#[verifier::external_body]
pub(crate) fn str_from_utf8(bytes: &[u8]) -> (r: Result<&str, Utf8Error>)
    ensures
        r is Ok <==> valid_utf8(bytes@),
        r matches Ok(s) ==> s@ == decode_utf8(bytes@),
{
    std::str::from_utf8(bytes)
}

/// Index of the first zero byte.
pub open spec fn first_nul(s: Seq<u8>) -> int
    decreases s.len(),
{
    if s.len() == 0 || s[0] == 0 {
        0
    } else {
        1 + first_nul(s.drop_first())
    }
}

/// Reading text that ends at a zero byte.
pub trait StrExt {
    /// The text before the first zero byte of `buf`, which must hold one;
    /// an error when that text is not valid UTF-8.
    fn from_null_terminated_utf8(buf: &[u8]) -> (r: Result<&str, Utf8Error>)
        requires
            buf@.contains(0u8),
        ensures
            match r {
                Ok(s) => valid_utf8(buf@.subrange(0, first_nul(buf@))) && s@ == decode_utf8(
                    buf@.subrange(0, first_nul(buf@)),
                ),
                Err(_) => !valid_utf8(buf@.subrange(0, first_nul(buf@))),
            },
    ;
}

proof fn lemma_first_nul(s: Seq<u8>, i: int)
    requires
        0 <= i < s.len(),
        s[i] == 0,
        forall|k: int| 0 <= k < i ==> s[k] != 0,
    ensures
        first_nul(s) == i,
    decreases i,
{
    if i > 0 {
        lemma_first_nul(s.drop_first(), i - 1);
    }
}

impl StrExt for str {
    fn from_null_terminated_utf8(buf: &[u8]) -> (r: Result<&str, Utf8Error>) {
        let mut end: usize = 0;
        while end < buf.len() && buf[end] != 0
            invariant
                end <= buf@.len(),
                buf@.contains(0u8),
                forall|k: int| 0 <= k < end ==> buf@[k] != 0,
            decreases buf@.len() - end,
        {
            end += 1;
        }
        proof {
            if end == buf@.len() {
                let w = choose|w: int| 0 <= w < buf@.len() && buf@[w] == 0u8;
                assert(buf@[w] != 0);
            }
            lemma_first_nul(buf@, end as int);
        }
        str_from_utf8(vstd::slice::slice_subrange(buf, 0, end))
    }
}

} // verus!
