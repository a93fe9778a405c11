//! Byte-level text helpers: splitting, comparing, and parsing decimal and
//! hexadecimal numbers the way the standard library's `from_str_radix`
//! accepts them.
use vstd::prelude::*;

verus! {

/// Index of the first `sep` in `s`.
pub open spec fn first_index(s: Seq<u8>, sep: u8) -> Option<int>
    decreases s.len(),
{
    if s.len() == 0 {
        None
    } else if s[0] == sep {
        Some(0)
    } else {
        match first_index(s.drop_first(), sep) {
            Some(i) => Some(i + 1),
            None => None,
        }
    }
}

/// The pieces of `s` between the separators (at least one piece).
pub open spec fn spec_split(s: Seq<u8>, sep: u8) -> Seq<Seq<u8>>
    decreases s.len(),
{
    match first_index(s, sep) {
        None => seq![s],
        Some(i) => if 0 <= i < s.len() {
            seq![s.subrange(0, i)] + spec_split(s.subrange(i + 1, s.len() as int), sep)
        } else {
            seq![s]
        },
    }
}

pub proof fn lemma_first_index(s: Seq<u8>, sep: u8)
    ensures
        match first_index(s, sep) {
            Some(i) => 0 <= i < s.len() && s[i] == sep && forall|j: int| 0 <= j < i ==> s[j] != sep,
            None => forall|j: int| 0 <= j < s.len() ==> s[j] != sep,
        },
    decreases s.len(),
{
    if s.len() > 0 {
        lemma_first_index(s.drop_first(), sep);
        if s[0] != sep {
            match first_index(s.drop_first(), sep) {
                Some(i) => {
                    assert forall|j: int| 0 <= j < i + 1 implies s[j] != sep by {
                        if j > 0 {
                            assert(s[j] == s.drop_first()[j - 1]);
                        }
                    }
                },
                None => {
                    assert forall|j: int| 0 <= j < s.len() implies s[j] != sep by {
                        if j > 0 {
                            assert(s[j] == s.drop_first()[j - 1]);
                        }
                    }
                },
            }
        }
    }
}

pub proof fn lemma_first_index_is(s: Seq<u8>, sep: u8, i: int)
    requires
        0 <= i <= s.len(),
        forall|j: int| 0 <= j < i ==> s[j] != sep,
        i < s.len() ==> s[i] == sep,
    ensures
        first_index(s, sep) == (if i < s.len() {
            Some(i)
        } else {
            None::<int>
        }),
{
    lemma_first_index(s, sep);
}

/// Splits `s` at every `sep`.
pub fn split_bytes(s: &[u8], sep: u8) -> (r: Vec<Vec<u8>>)
    ensures
        r@.map_values(|v: Vec<u8>| v@) == spec_split(s@, sep),
{
    let mut pieces: Vec<Vec<u8>> = Vec::new();
    let mut current: Vec<u8> = Vec::new();
    let mut j: usize = 0;
    let ghost mut start: int = 0;
    assert(s@.subrange(0, s@.len() as int) =~= s@);
    assert(pieces@.map_values(|v: Vec<u8>| v@) =~= Seq::<Seq<u8>>::empty());
    while j < s.len()
        invariant
            0 <= start <= j <= s@.len(),
            current@ == s@.subrange(start, j as int),
            forall|k: int| start <= k < j ==> s@[k] != sep,
            spec_split(s@, sep) == pieces@.map_values(|v: Vec<u8>| v@) + spec_split(
                s@.subrange(start, s@.len() as int),
                sep,
            ),
        decreases s@.len() - j,
    {
        if s[j] == sep {
            let ghost rest = s@.subrange(start, s@.len() as int);
            proof {
                assert forall|k: int| 0 <= k < j - start implies rest[k] != sep by {
                    assert(rest[k] == s@[start + k]);
                }
                lemma_first_index_is(rest, sep, j - start);
                assert(rest.subrange(0, j - start) =~= current@);
                assert(rest.subrange(j - start + 1, rest.len() as int) =~= s@.subrange(
                    j + 1,
                    s@.len() as int,
                ));
            }
            let ghost old_pieces = pieces@;
            let piece = current;
            pieces.push(piece);
            current = Vec::new();
            proof {
                assert(pieces@.map_values(|v: Vec<u8>| v@) =~= old_pieces.map_values(|v: Vec<u8>| v@).push(
                    rest.subrange(0, j - start),
                ));
                start = j + 1;
            }
        } else {
            current.push(s[j]);
        }
        j += 1;
        assert(current@ =~= s@.subrange(start, j as int));
    }
    let ghost rest = s@.subrange(start, s@.len() as int);
    proof {
        assert forall|k: int| 0 <= k < rest.len() implies rest[k] != sep by {
            assert(rest[k] == s@[start + k]);
        }
        lemma_first_index_is(rest, sep, rest.len() as int);
        assert(rest =~= current@);
    }
    let ghost old_pieces = pieces@;
    pieces.push(current);
    assert(pieces@.map_values(|v: Vec<u8>| v@) =~= old_pieces.map_values(|v: Vec<u8>| v@) + seq![
        rest,
    ]);
    pieces
}

/// Whether two byte strings are equal.
pub fn bytes_eq(a: &[u8], b: &[u8]) -> (r: bool)
    ensures
        r == (a@ == b@),
{
    if a.len() != b.len() {
        return false;
    }
    let mut i: usize = 0;
    while i < a.len()
        invariant
            a@.len() == b@.len(),
            i <= a@.len(),
            forall|k: int| 0 <= k < i ==> a@[k] == b@[k],
        decreases a@.len() - i,
    {
        if a[i] != b[i] {
            return false;
        }
        i += 1;
    }
    assert(a@ =~= b@);
    true
}

/// Value of a digit in `radix` (10 or 16; hexadecimal letters in either case).
pub open spec fn digit_value(b: u8, radix: int) -> Option<int> {
    if 48 <= b <= 57 && b - 48 < radix {
        Some(b - 48)
    } else if radix == 16 && 97 <= b <= 102 {
        Some(b - 87)
    } else if radix == 16 && 65 <= b <= 70 {
        Some(b - 55)
    } else {
        None
    }
}

/// The number the digits spell, most significant first; `None` when one of
/// them is not a digit.
pub open spec fn digits_value(s: Seq<u8>, radix: int) -> Option<int>
    decreases s.len(),
{
    if s.len() == 0 {
        Some(0)
    } else {
        match (digits_value(s.drop_last(), radix), digit_value(s.last(), radix)) {
            (Some(v), Some(d)) => Some(v * radix + d),
            _ => None,
        }
    }
}

/// An unsigned number as `from_str_radix` reads it: an optional `+`, then at
/// least one digit; `None` for anything else or a value above `max`.
pub open spec fn spec_parse_unsigned(s: Seq<u8>, radix: int, max: int) -> Option<int> {
    let digits = if s.len() > 0 && s[0] == 43 {
        s.drop_first()
    } else {
        s
    };
    if digits.len() == 0 {
        None
    } else {
        match digits_value(digits, radix) {
            Some(v) => if v <= max {
                Some(v)
            } else {
                None
            },
            None => None,
        }
    }
}

pub proof fn lemma_digits_value_none(s: Seq<u8>, radix: int, k: int)
    requires
        0 <= k <= s.len(),
        digits_value(s.subrange(0, k), radix) is None,
    ensures
        digits_value(s, radix) is None,
    decreases s.len() - k,
{
    if k < s.len() {
        assert(s.subrange(0, k + 1).drop_last() =~= s.subrange(0, k));
        lemma_digits_value_none(s, radix, k + 1);
    } else {
        assert(s.subrange(0, k) =~= s);
    }
}

/// Once the value of some leading digits passes `max`, so does the value of
/// all of them.
pub proof fn lemma_digits_value_grows(s: Seq<u8>, radix: int, k: int, max: int)
    requires
        radix == 10 || radix == 16,
        0 <= k <= s.len(),
        digits_value(s.subrange(0, k), radix) matches Some(v) && v > max,
        max >= 0,
    ensures
        digits_value(s, radix) matches Some(w) ==> w > max,
    decreases s.len() - k,
{
    if k < s.len() {
        assert(s.subrange(0, k + 1).drop_last() =~= s.subrange(0, k));
        let v = digits_value(s.subrange(0, k), radix).unwrap();
        match digit_value(s[k], radix) {
            Some(d) => {
                assert(v * radix + d > max) by (nonlinear_arith)
                    requires v > max, max >= 0, radix >= 10, d >= 0;
                lemma_digits_value_grows(s, radix, k + 1, max);
            },
            None => {
                lemma_digits_value_none(s, radix, k + 1);
            },
        }
    } else {
        assert(s.subrange(0, k) =~= s);
    }
}

/// Reads an unsigned number of at most 32 bits in `radix` (10 or 16), as
/// `u32::from_str_radix` (or `str::parse` for smaller types, with `max`) does.
pub fn parse_unsigned(s: &[u8], radix: u32, max: u32) -> (r: Option<u32>)
    requires
        radix == 10 || radix == 16,
    ensures
        match r {
            Some(v) => spec_parse_unsigned(s@, radix as int, max as int) == Some(v as int),
            None => spec_parse_unsigned(s@, radix as int, max as int) is None,
        },
{
    let ghost digits = if s@.len() > 0 && s@[0] == 43 {
        s@.drop_first()
    } else {
        s@
    };
    let start: usize = if s.len() > 0 && s[0] == 43 {
        1
    } else {
        0
    };
    if start >= s.len() {
        return None;
    }
    assert(digits =~= s@.subrange(start as int, s@.len() as int));
    let mut value: u64 = 0;
    let mut i = start;
    assert(digits.subrange(0, 0) =~= Seq::<u8>::empty());
    while i < s.len()
        invariant
            start <= i <= s@.len(),
            radix == 10 || radix == 16,
            digits == s@.subrange(start as int, s@.len() as int),
            digits == (if s@.len() > 0 && s@[0] == 43 {
                s@.drop_first()
            } else {
                s@
            }),
            digits.len() > 0,
            digits_value(digits.subrange(0, i - start), radix as int) == Some(value as int),
            value <= max,
        decreases s@.len() - i,
    {
        assert(digits.subrange(0, i + 1 - start).drop_last() =~= digits.subrange(0, i - start));
        let b = s[i];
        assert(digits.subrange(0, i + 1 - start).last() == b);
        let d: u64 = if 48 <= b && b <= 57 && ((b - 48) as u32) < radix {
            (b - 48) as u64
        } else if radix == 16 && 97 <= b && b <= 102 {
            (b - 87) as u64
        } else if radix == 16 && 65 <= b && b <= 70 {
            (b - 55) as u64
        } else {
            proof {
                lemma_digits_value_none(digits, radix as int, i + 1 - start);
            }
            return None;
        };
        assert(value * (radix as u64) <= 0xffff_ffffu64 * 16) by (nonlinear_arith)
            requires value <= 0xffff_ffff, radix <= 16;
        value = value * (radix as u64) + d;
        if value > max as u64 {
            proof {
                lemma_digits_value_grows(digits, radix as int, i + 1 - start, max as int);
            }
            return None;
        }
        i += 1;
    }
    assert(digits.subrange(0, i - start) =~= digits);
    Some(value as u32)
}

} // verus!
