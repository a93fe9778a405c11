//! Reader of Havok binary tag files: packed integers, bit fields, remembered
//! strings, type declarations and objects, driven by a tag loop.
use vstd::prelude::*;
use std::sync::Arc;

use vstd::slice::slice_subrange;
use vstd::utf8::{decode_utf8, valid_utf8};

use crate::util::{read_u32_le, spec_u32_le, str_from_utf8};
use crate::havok::{HavokObject, HavokObjectMemberType, HavokObjectType, HavokType, HavokValue, SpecHavokValue, SpecMember, SpecObject, SpecObjectType, members_view, spec_all_members, values_view};

verus! {

/// Whether the continuation bit (the high bit) of a byte is set.
pub open spec fn has_continuation(b: u8) -> bool {
    b >= 128
}

/// The low seven bits of a byte.
pub open spec fn low7(b: u8) -> int {
    (b % 128) as int
}

/// 128 to the power `n`.
pub open spec fn weight(n: nat) -> int
    decreases n,
{
    if n == 0 {
        1
    } else {
        128 * weight((n - 1) as nat)
    }
}

/// The number whose little-endian base-128 digits are the low seven bits of
/// the bytes of `s`.
pub open spec fn base128_le(s: Seq<u8>) -> int
    decreases s.len(),
{
    if s.len() == 0 {
        0
    } else {
        base128_le(s.drop_last()) + low7(s.last()) * weight((s.len() - 1) as nat)
    }
}

/// End (exclusive) of a run of bytes starting at `pos` that ends with the
/// first byte without the continuation bit, allowing at most `extra` bytes
/// after the one at `pos`; `None` when the data ends first or the run is longer.
pub open spec fn group_end(d: Seq<u8>, pos: int, extra: nat) -> Option<int>
    decreases extra,
{
    if pos < 0 || pos >= d.len() {
        None
    } else if !has_continuation(d[pos]) {
        Some(pos + 1)
    } else if extra == 0 {
        None
    } else {
        group_end(d, pos + 1, (extra - 1) as nat)
    }
}

/// The packed integer at `pos` and the position after it.
///
/// The first byte holds a sign in bit 0 and six magnitude bits above it; each
/// following byte (while the previous one has its high bit set, at most four)
/// adds seven more bits. The magnitude is kept to 32 bits and read as an
/// `i32`; a negative sign negates it, and negating `i32::MIN` is refused.
pub open spec fn spec_packed_int(d: Seq<u8>, pos: int) -> Option<(i32, int)> {
    match group_end(d, pos, 4) {
        None => None,
        Some(end) => {
            let first = d[pos];
            let m = (low7(first) / 2 + 64 * base128_le(d.subrange(pos + 1, end))) % 0x1_0000_0000;
            let signed = if m < 0x8000_0000 {
                m
            } else {
                m - 0x1_0000_0000
            };
            if first % 2 == 1 {
                if m == 0x8000_0000 {
                    None
                } else {
                    Some(((-signed) as i32, end))
                }
            } else {
                Some((signed as i32, end))
            }
        },
    }
}

/// A packed integer of one byte (high bit clear): bit 0 is the sign and
/// bits 1 to 6 the magnitude, so an odd byte gives a negative number (byte
/// `0x05` gives -2, a back-reference to remembered string 2) and an even
/// one a non-negative number; one byte is consumed.
pub proof fn lemma_packed_int_one_byte(d: Seq<u8>, pos: int)
    requires
        0 <= pos < d.len(),
        d[pos] < 128,
    ensures
        spec_packed_int(d, pos) == Some((
            (if d[pos] % 2 == 1 {
                -((d[pos] / 2) as int)
            } else {
                (d[pos] / 2) as int
            }) as i32,
            pos + 1,
        )),
        d[pos] % 2 == 1 && d[pos] >= 2 ==> (spec_packed_int(d, pos) matches Some((v, _)) && v < 0),
{
    assert(d.subrange(pos + 1, pos + 1) =~= Seq::<u8>::empty());
    assert(base128_le(d.subrange(pos + 1, pos + 1)) == 0);
}

/// A packed integer of two bytes (the first with its high bit set, the
/// second without): the sign is bit 0 of the first byte, and the magnitude
/// is its bits 1 to 6 plus 64 times the low seven bits of the second byte.
pub proof fn lemma_packed_int_two_bytes(d: Seq<u8>, pos: int)
    requires
        0 <= pos,
        pos + 1 < d.len(),
        d[pos] >= 128,
        d[pos + 1] < 128,
    ensures
        spec_packed_int(d, pos) == Some((
            (if d[pos] % 2 == 1 {
                -(((d[pos] - 128) / 2) + 64 * d[pos + 1])
            } else {
                ((d[pos] - 128) / 2) + 64 * d[pos + 1]
            }) as i32,
            pos + 2,
        )),
{
    let s = d.subrange(pos + 1, pos + 2);
    assert(group_end(d, pos + 1, 3) == Some(pos + 2));
    assert(group_end(d, pos, 4) == Some(pos + 2));
    assert(s.drop_last() =~= Seq::<u8>::empty());
    assert(base128_le(s.drop_last()) == 0);
    assert(s.last() == d[pos + 1]);
    assert(weight(0) == 1);
    assert(base128_le(s) == d[pos + 1] % 128);
}

proof fn lemma_base128_bound(s: Seq<u8>)
    ensures
        0 <= base128_le(s) < weight(s.len()),
    decreases s.len(),
{
    if s.len() > 0 {
        lemma_base128_bound(s.drop_last());
        let w = weight((s.len() - 1) as nat);
        assert(low7(s.last()) * w <= 127 * w) by (nonlinear_arith)
            requires
                0 <= w,
                0 <= low7(s.last()) <= 127,
        ;
        assert(0 <= low7(s.last()) * w) by (nonlinear_arith)
            requires 0 <= low7(s.last()), 0 <= w;
    }
}

proof fn lemma_weight_pos(n: nat)
    ensures
        weight(n) >= 1,
    decreases n,
{
    if n > 0 {
        lemma_weight_pos((n - 1) as nat);
    }
}

/// One more continuation byte: the low seven bits land above the bits read so far.
proof fn lemma_packed_step(r: u32, b: u8, count: int)
    requires
        0 <= count < 4,
        r < 64 * weight(count as nat),
    ensures
        ({
            let shift: u32 = (6 + 7 * count) as u32;
            (r | (((b as u32) & 0xffff_ff7f) << shift)) as int == (r + 64 * low7(b) * weight(
                count as nat,
            )) % 0x1_0000_0000
        }),
{
    reveal_with_fuel(weight, 5);
    let x = b as u32;
    assert(x & 0xffff_ff7f == x % 128) by (bit_vector)
        requires
            x < 256,
    ;
    let y = x % 128;
    assert(y < 128);
    assert(low7(b) == y as int);
    let shift: u32 = (6 + 7 * count) as u32;
    assert((x & 0xffff_ff7f) == y);
    let w = weight(count as nat);
    let lhs = (r | (y << shift)) as int;
    let rhs = (r + 64 * low7(b) * w) % 0x1_0000_0000;
    if count == 0 {
        assert(shift == 6);
        assert(w == 1);
        assert(r < 64 && y < 128 ==> (r | (y << 6u32)) == r + y * 64) by (bit_vector);
        assert(lhs == rhs);
    } else if count == 1 {
        assert(shift == 13);
        assert(w == 128);
        assert(64 * low7(b) * w == y * 8192) by (nonlinear_arith)
            requires w == 128, low7(b) == y as int;
        assert(r < 8192 && y < 128 ==> (r | (y << 13u32)) == r + y * 8192) by (bit_vector);
        assert(lhs == rhs);
    } else if count == 2 {
        assert(shift == 20);
        assert(w == 16384);
        assert(64 * low7(b) * w == y * 1048576) by (nonlinear_arith)
            requires w == 16384, low7(b) == y as int;
        assert(r < 1048576 && y < 128 ==> (r | (y << 20u32)) == r + y * 1048576) by (bit_vector);
        assert(lhs == rhs);
    } else {
        assert(shift == 27);
        assert(w == 2097152);
        assert(64 * low7(b) * w == y * 134217728) by (nonlinear_arith)
            requires w == 2097152, low7(b) == y as int;
        assert(r < 134217728 && y < 128 ==> (r | (y << 27u32)) as int == (r as int + y as int
            * 134217728) % 0x1_0000_0000) by (bit_vector);
        assert(lhs == rhs);
    }
}

/// Bit `k` of a byte (bit 0 is the least significant).
pub open spec fn bit_of(b: u8, k: int) -> bool {
    (b >> (k as u8)) & 1 == 1
}

/// How many bytes a bit field of `count` bits occupies: `count + 7` is kept
/// to 32 bits and divided by eight.
pub open spec fn bit_field_bytes(count: int) -> int {
    ((count + 7) % 0x1_0000_0000) / 8
}

/// A bit field of `count` flags at `pos`, least significant bit first, and the
/// position after its bytes. It holds `count` flags, or fewer when its byte
/// count was cut to 32 bits.
pub open spec fn spec_bit_field(d: Seq<u8>, pos: int, count: int) -> Option<(Seq<bool>, int)> {
    if count + 7 > usize::MAX {
        None
    } else {
        let nb = bit_field_bytes(count);
        if pos + nb > d.len() {
            None
        } else {
            let n = if count <= 8 * nb {
                count
            } else {
                8 * nb
            };
            Some((Seq::new(n as nat, |i: int| bit_of(d[pos + i / 8], i % 8)), pos + nb))
        }
    }
}

/// The reader's position and the tables it has filled so far.
pub struct ReaderState {
    pub pos: int,
    pub strings: Seq<Seq<char>>,
    pub types: Seq<SpecObjectType>,
    pub objects: Seq<SpecObject>,
}

/// `b` is `a` at another position.
pub open spec fn same_tables(a: ReaderState, b: ReaderState) -> bool {
    &&& a.strings == b.strings
    &&& a.types == b.types
    &&& a.objects == b.objects
}

/// A string at the reader's position: a packed length, then either that many
/// bytes of UTF-8 text (which is remembered) or, for a negative length, the
/// remembered string at index `-length`.
pub open spec fn spec_read_string(d: Seq<u8>, st: ReaderState) -> Option<(Seq<char>, ReaderState)> {
    match spec_packed_int(d, st.pos) {
        None => None,
        Some((length, p1)) => if length < 0 {
            let idx = -length;
            if length != i32::MIN && idx < st.strings.len() {
                Some((st.strings[idx], ReaderState { pos: p1, ..st }))
            } else {
                None
            }
        } else if p1 + length <= d.len() && valid_utf8(d.subrange(p1, p1 + length)) {
            let s = decode_utf8(d.subrange(p1, p1 + length));
            Some((s, ReaderState { pos: p1 + length, strings: st.strings.push(s), ..st }))
        } else {
            None
        },
    }
}

/// The reader's string table: a string read with a length of zero or more
/// is decoded from the bytes that follow and remembered at the end of the
/// table (which starts as `"string"`, `""`), only the table and position
/// change; a later negative length `-k` naming its index gives that string
/// back, with the table unchanged.
pub proof fn lemma_string_remembered(d: Seq<u8>, st: ReaderState, e: Seq<u8>, q: int)
    requires
        st.strings.len() > 0,
        spec_read_string(d, st) is Some,
        spec_packed_int(d, st.pos) matches Some((l, _)) && l >= 0,
        spec_packed_int(e, q) matches Some((m, _)) && m == -(st.strings.len()) && m != i32::MIN,
    ensures
        spec_read_string(d, st) matches Some((s, st1)) && {
            &&& spec_packed_int(d, st.pos) matches Some((l, p1)) && st1.pos == p1 + l && s == decode_utf8(
                d.subrange(p1, p1 + l),
            )
            &&& st1.strings == st.strings.push(s)
            &&& st1.types == st.types && st1.objects == st.objects
            &&& spec_read_string(e, ReaderState { pos: q, ..st1 }) matches Some((s2, st2)) && s2 == s
                && st2.strings == st1.strings
        },
        spec_initial_state(0).strings == seq!["string"@, ""@],
{
    let (s, st1) = spec_read_string(d, st).unwrap();
    let (l, p1) = spec_packed_int(d, st.pos).unwrap();
    assert(st1.pos == p1 + l);
    assert(st1.strings == st.strings.push(s));
    assert(st1.strings[st.strings.len() as int] == s);
    let (m, q1) = spec_packed_int(e, q).unwrap();
    let st_e = ReaderState { pos: q, ..st1 };
    assert(-m == st.strings.len());
    assert(-m < st_e.strings.len());
    assert(spec_packed_int(e, st_e.pos) == Some((m, q1)));
    assert(m < 0);
    assert(st_e.strings[-m] == s);
    assert(spec_read_string(e, st_e) == Some((s, ReaderState { pos: q1, ..st_e })));
}

/// A string given by the one byte `2k + 1` (a packed length of `-k`) is
/// the remembered string at index `k`: no text is read, only that byte is
/// consumed, and the table is unchanged.
pub proof fn lemma_string_back_reference(d: Seq<u8>, st: ReaderState, k: int)
    requires
        0 <= st.pos < d.len(),
        1 <= k < 64,
        k < st.strings.len(),
        d[st.pos] == 2 * k + 1,
    ensures
        spec_read_string(d, st) == Some((st.strings[k], ReaderState { pos: st.pos + 1, ..st })),
{
    lemma_packed_int_one_byte(d, st.pos);
    assert(d[st.pos] / 2 == k);
}

/// One member declaration: name, type tag (refused when it sets bits outside
/// the defined flags), a tuple size when the tag has the tuple flag, and a
/// class name when the base type is an object or a struct.
#[verifier::opaque]
pub open spec fn spec_read_member(d: Seq<u8>, st: ReaderState) -> Option<(SpecMember, ReaderState)> {
    match spec_read_string(d, st) {
        None => None,
        Some((name, st1)) => match spec_packed_int(d, st1.pos) {
            None => None,
            Some((raw, p2)) => match HavokType::spec_from_bits(raw as u32) {
                None => None,
                Some(ty) => {
                    let tuple = if ty.spec_is_tuple() {
                        spec_packed_int(d, p2)
                    } else {
                        Some((0i32, p2))
                    };
                    match tuple {
                        None => None,
                        Some((ts, p3)) => {
                            let st3 = ReaderState { pos: p3, ..st1 };
                            if ty.spec_base() == HavokType::OBJECT || ty.spec_base() == HavokType::STRUCT {
                                match spec_read_string(d, st3) {
                                    None => None,
                                    Some((cn, st4)) => Some(
                                        (
                                            SpecMember {
                                                name,
                                                type_: ty,
                                                tuple_size: ts as u32,
                                                class_name: Some(cn),
                                            },
                                            st4,
                                        ),
                                    ),
                                }
                            } else {
                                Some(
                                    (
                                        SpecMember {
                                            name,
                                            type_: ty,
                                            tuple_size: ts as u32,
                                            class_name: None,
                                        },
                                        st3,
                                    ),
                                )
                            }
                        },
                    }
                },
            },
        },
    }
}

/// `n` member declarations in a row.
pub open spec fn spec_read_members(d: Seq<u8>, st: ReaderState, n: nat) -> Option<
    (Seq<SpecMember>, ReaderState),
>
    decreases n,
{
    if n == 0 {
        Some((Seq::empty(), st))
    } else {
        match spec_read_members(d, st, (n - 1) as nat) {
            None => None,
            Some((prev, st1)) => match spec_read_member(d, st1) {
                None => None,
                Some((m, st2)) => Some((prev.push(m), st2)),
            },
        }
    }
}

/// A type declaration: name, version, index of the parent among the types
/// read so far, member count (none when not positive), then the members.
#[verifier::opaque]
pub open spec fn spec_read_type(d: Seq<u8>, st: ReaderState) -> Option<(SpecObjectType, ReaderState)> {
    match spec_read_string(d, st) {
        None => None,
        Some((name, st1)) => match spec_packed_int(d, st1.pos) {
            None => None,
            Some((version, p2)) => match spec_packed_int(d, p2) {
                None => None,
                Some((parent, p3)) => match spec_packed_int(d, p3) {
                    None => None,
                    Some((count, p4)) => if 0 <= parent < st1.types.len() {
                        let n: nat = if count > 0 {
                            count as nat
                        } else {
                            0
                        };
                        match spec_read_members(d, ReaderState { pos: p4, ..st1 }, n) {
                            None => None,
                            Some((ms, st5)) => Some(
                                (
                                    SpecObjectType {
                                        name,
                                        version: version as u32,
                                        parent: Some(Box::new(st1.types[parent as int])),
                                        members: ms,
                                    },
                                    st5,
                                ),
                            ),
                        }
                    } else {
                        None
                    },
                },
            },
        },
    }
}

/// `n` packed object indices in a row, each as an object reference.
pub open spec fn spec_read_references(d: Seq<u8>, pos: int, n: nat) -> Option<
    (Seq<SpecHavokValue>, int),
>
    decreases n,
{
    if n == 0 {
        Some((Seq::empty(), pos))
    } else {
        match spec_read_references(d, pos, (n - 1) as nat) {
            None => None,
            Some((prev, p1)) => match spec_packed_int(d, p1) {
                None => None,
                Some((r, p2)) => Some((prev.push(SpecHavokValue::ObjectReference(r as usize)), p2)),
            },
        }
    }
}

/// The value of one present member. An array member holds a packed length
/// and then that many packed object indices; only arrays of objects that name
/// their class are accepted. Any other member reads as the integer 0 and
/// takes no bytes.
pub open spec fn spec_read_member_value(d: Seq<u8>, st: ReaderState, m: SpecMember) -> Option<
    (SpecHavokValue, ReaderState),
> {
    if m.type_.spec_is_array() {
        match spec_packed_int(d, st.pos) {
            None => None,
            Some((len, p1)) => if m.type_.spec_base() != HavokType::OBJECT || m.class_name is None {
                None
            } else {
                match spec_read_references(d, p1, (len as usize) as nat) {
                    None => None,
                    Some((refs, p2)) => Some(
                        (SpecHavokValue::Array(refs), ReaderState { pos: p2, ..st }),
                    ),
                }
            },
        }
    } else {
        Some((SpecHavokValue::Integer(0), st))
    }
}

/// The values of the first `n` members: a present member is read, an absent
/// one is the integer 0.
pub open spec fn spec_read_values(
    d: Seq<u8>,
    st: ReaderState,
    ms: Seq<SpecMember>,
    present: Seq<bool>,
    n: nat,
) -> Option<(Seq<SpecHavokValue>, ReaderState)>
    decreases n,
{
    if n == 0 {
        Some((Seq::empty(), st))
    } else {
        match spec_read_values(d, st, ms, present, (n - 1) as nat) {
            None => None,
            Some((prev, st1)) => {
                let i = n - 1;
                if i >= present.len() {
                    None
                } else {
                    let v = if present[i] {
                        spec_read_member_value(d, st1, ms[i])
                    } else {
                        Some((SpecHavokValue::Integer(0), st1))
                    };
                    match v {
                        None => None,
                        Some((x, st2)) => Some((prev.push(x), st2)),
                    }
                }
            },
        }
    }
}

/// An object: a packed index of its type among the types read so far, a bit
/// field saying which of the type's members are present, then the values.
#[verifier::opaque]
pub open spec fn spec_read_object(d: Seq<u8>, st: ReaderState) -> Option<(SpecObject, ReaderState)> {
    match spec_packed_int(d, st.pos) {
        None => None,
        Some((idx, p1)) => if 0 <= idx < st.types.len() {
            let t = st.types[idx as int];
            let ms = spec_all_members(t);
            match spec_bit_field(d, p1, ms.len() as int) {
                None => None,
                Some((present, p2)) => match spec_read_values(
                    d,
                    ReaderState { pos: p2, ..st },
                    ms,
                    present,
                    ms.len(),
                ) {
                    None => None,
                    Some((vals, st3)) => Some((SpecObject { object_type: t, data: vals }, st3)),
                },
            }
        } else {
            None
        },
    }
}

proof fn lemma_read_references_none(d: Seq<u8>, pos: int, m: nat, n: nat)
    requires
        m <= n,
        spec_read_references(d, pos, m) is None,
    ensures
        spec_read_references(d, pos, n) is None,
    decreases n - m,
{
    if m < n {
        lemma_read_references_none(d, pos, m, (n - 1) as nat);
    }
}

proof fn lemma_read_values_none(
    d: Seq<u8>,
    st: ReaderState,
    ms: Seq<SpecMember>,
    present: Seq<bool>,
    m: nat,
    n: nat,
)
    requires
        m <= n,
        spec_read_values(d, st, ms, present, m) is None,
    ensures
        spec_read_values(d, st, ms, present, n) is None,
    decreases n - m,
{
    if m < n {
        lemma_read_values_none(d, st, ms, present, m, (n - 1) as nat);
    }
}

/// What one tag of the tag loop does.
pub enum SpecStep {
    Fail,
    Done(SpecObject),
    Next(ReaderState),
}

/// One tag: file info (a version that must be 3, which also remembers an
/// empty object of the first type), a type declaration (remembered), a
/// remembered object, or the file end (which yields the second remembered
/// object). Any other tag is refused.
#[verifier::opaque]
pub open spec fn spec_step(d: Seq<u8>, st: ReaderState) -> SpecStep {
    match spec_packed_int(d, st.pos) {
        None => SpecStep::Fail,
        Some((raw, p1)) => {
            let tag = raw as u8;
            let st1 = ReaderState { pos: p1, ..st };
            if tag == 1 {
                match spec_packed_int(d, p1) {
                    None => SpecStep::Fail,
                    Some((version, p2)) => if version as u8 == 3 {
                        SpecStep::Next(
                            ReaderState {
                                pos: p2,
                                objects: st.objects.push(
                                    SpecObject { object_type: st.types[0], data: Seq::empty() },
                                ),
                                ..st
                            },
                        )
                    } else {
                        SpecStep::Fail
                    },
                }
            } else if tag == 2 {
                match spec_read_type(d, st1) {
                    None => SpecStep::Fail,
                    Some((t, st2)) => SpecStep::Next(ReaderState { types: st2.types.push(t), ..st2 }),
                }
            } else if tag == 4 {
                match spec_read_object(d, st1) {
                    None => SpecStep::Fail,
                    Some((o, st2)) => SpecStep::Next(
                        ReaderState { objects: st2.objects.push(o), ..st2 },
                    ),
                }
            } else if tag == 7 {
                if st.objects.len() >= 2 {
                    SpecStep::Done(st.objects[1])
                } else {
                    SpecStep::Fail
                }
            } else {
                SpecStep::Fail
            }
        },
    }
}

/// Tags one after another until the file end. Every tag consumes input, so
/// the loop ends with the data; a step that did not advance is refused.
pub open spec fn spec_run(d: Seq<u8>, st: ReaderState) -> Option<SpecObject>
    decreases d.len() - st.pos,
{
    match spec_step(d, st) {
        SpecStep::Fail => None,
        SpecStep::Done(o) => Some(o),
        SpecStep::Next(st2) => if st.pos < st2.pos <= d.len() {
            spec_run(d, st2)
        } else {
            None
        },
    }
}

/// The built-in type every file starts with.
pub open spec fn spec_root_type() -> SpecObjectType {
    SpecObjectType { name: "object"@, version: 0, parent: None, members: Seq::empty() }
}

/// The tables a reader starts with: the strings "string" and "", and the
/// built-in type.
pub open spec fn spec_initial_state(pos: int) -> ReaderState {
    ReaderState {
        pos,
        strings: seq!["string"@, ""@],
        types: seq![spec_root_type()],
        objects: Seq::empty(),
    }
}

/// The root object of a tag file: after the two signature words
/// 0xCAB00D1E and 0xD011FACE (little-endian), the tag loop from offset 8.
pub open spec fn spec_read(d: Seq<u8>) -> Option<SpecObject> {
    if d.len() >= 8 && spec_u32_le(d, 0) == 0xCAB0_0D1E && spec_u32_le(d, 4) == 0xD011_FACE {
        spec_run(d, spec_initial_state(8))
    } else {
        None
    }
}

/// Once reading some members fails, reading more fails too.
proof fn lemma_read_members_none(d: Seq<u8>, st: ReaderState, m: nat, n: nat)
    requires
        m <= n,
        spec_read_members(d, st, m) is None,
    ensures
        spec_read_members(d, st, n) is None,
    decreases n - m,
{
    if m < n {
        lemma_read_members_none(d, st, m, (n - 1) as nat);
    }
}

/// `Arc::clone`: the documentation says the clone points to the same value.
#[verifier::external_body]
fn arc_clone<T>(a: &Arc<T>) -> (r: Arc<T>)
    ensures
        r == *a,
{
    a.clone()
}

/// Tags of the tag loop.
enum HavokTagType {
    Eof,
    Invalid,
    FileInfo,
    Type,
    Object,
    ObjectRemember,
    Backref,
    ObjectNull,
    FileEnd,
}

impl HavokTagType {
    /// Raw values that name a tag.
    pub open spec fn is_tag(raw: u8) -> bool {
        raw <= 7 || raw == 255
    }

    fn from(raw: u8) -> (r: Self)
        requires
            Self::is_tag(raw),
        ensures
            raw == 255 <==> r is Eof,
            raw == 0 <==> r is Invalid,
            raw == 1 <==> r is FileInfo,
            raw == 2 <==> r is Type,
            raw == 3 <==> r is Object,
            raw == 4 <==> r is ObjectRemember,
            raw == 5 <==> r is Backref,
            raw == 6 <==> r is ObjectNull,
            raw == 7 <==> r is FileEnd,
    {
        match raw {
            255 => HavokTagType::Eof,
            0 => HavokTagType::Invalid,
            1 => HavokTagType::FileInfo,
            2 => HavokTagType::Type,
            3 => HavokTagType::Object,
            4 => HavokTagType::ObjectRemember,
            5 => HavokTagType::Backref,
            6 => HavokTagType::ObjectNull,
            _ => HavokTagType::FileEnd,
        }
    }
}

/// What reading one tag came to.
enum TagOutcome {
    Fail,
    Done(Arc<HavokObject>),
    Next,
}

/// Reader of one Havok binary tag file held in memory.
pub struct HavokBinaryTagFileReader<'a> {
    file_version: u8,
    remembered_strings: Vec<Arc<String>>,
    remembered_types: Vec<Arc<HavokObjectType>>,
    remembered_objects: Vec<Arc<HavokObject>>,
    data: &'a [u8],
    cursor: usize,
}

impl<'a> HavokBinaryTagFileReader<'a> {
    /// The bytes being read.
    pub closed spec fn bytes(&self) -> Seq<u8> {
        self.data@
    }

    pub closed spec fn state(&self) -> ReaderState {
        ReaderState {
            pos: self.cursor as int,
            strings: self.remembered_strings@.map_values(|s: Arc<String>| s@),
            types: self.remembered_types@.map_values(|t: Arc<HavokObjectType>| t.spec_view()),
            objects: self.remembered_objects@.map_values(|o: Arc<HavokObject>| o.spec_view()),
        }
    }

    /// Reads the root object of a tag file, which must be well formed.
    pub fn read(data: &'a [u8]) -> (r: Arc<HavokObject>)
        requires
            spec_read(data@) is Some,
        ensures
            spec_read(data@) == Some(r.spec_view()),
    {
        let mut reader = Self::new(data);
        reader.do_read()
    }

    /// Reads the root object of a tag file as [`Self::read`] does, or `None`
    /// where the file is malformed.
    pub fn try_read(data: &'a [u8]) -> (r: Option<Arc<HavokObject>>)
        ensures
            match r {
                Some(o) => spec_read(data@) == Some(o.spec_view()),
                None => spec_read(data@) is None,
            },
    {
        let mut reader = Self::new(data);
        reader.try_do_read()
    }

    fn new(data: &'a [u8]) -> (r: Self)
        ensures
            r.data == data,
            r.state() == spec_initial_state(0),
    {
        let file_version: u8 = 0;
        let remembered_strings = vec![Arc::new("string".to_owned()), Arc::new("".to_owned())];
        let root_type = HavokObjectType::new(Arc::new("object".to_owned()), 0, None, Vec::new());
        let remembered_types = vec![Arc::new(root_type)];
        let remembered_objects = Vec::new();
        let r = Self {
            file_version,
            remembered_strings,
            remembered_types,
            remembered_objects,
            data,
            cursor: 0,
        };
        assert(r.state().strings =~= seq!["string"@, ""@]);
        assert(members_view(Seq::<HavokObjectMemberType>::empty()) =~= Seq::empty());
        assert(r.state().types =~= seq![spec_root_type()]);
        assert(r.state().objects =~= Seq::empty());
        r
    }

    fn do_read(&mut self) -> (r: Arc<HavokObject>)
        requires
            old(self).state() == spec_initial_state(0),
            spec_read(old(self).data@) is Some,
        ensures
            spec_read(old(self).data@) == Some(r.spec_view()),
    {
        self.try_do_read().unwrap()
    }

    fn try_do_read(&mut self) -> (r: Option<Arc<HavokObject>>)
        requires
            old(self).state() == spec_initial_state(0),
        ensures
            match r {
                Some(o) => spec_read(old(self).data@) == Some(o.spec_view()),
                None => spec_read(old(self).data@) is None,
            },
    {
        let ghost d = self.data@;
        if self.data.len() < 8 {
            return None;
        }
        let signature1 = read_u32_le(self.data, 0);
        let signature2 = read_u32_le(self.data, 4);
        if signature1 != 0xCAB0_0D1E || signature2 != 0xD011_FACE {
            return None;
        }
        self.cursor = 8;
        assert(self.state() == spec_initial_state(8));
        loop
            invariant
                self.data == old(self).data,
                self.data@ == d,
                self.cursor <= self.data@.len(),
                self.state().types.len() >= 1,
                self.state().types[0] == spec_root_type(),
                spec_run(d, self.state()) == spec_read(d),
            decreases self.data@.len() - self.cursor,
        {
            let ghost st = self.state();
            match self.read_tag() {
                TagOutcome::Fail => {
                    return None;
                },
                TagOutcome::Done(o) => {
                    return Some(o);
                },
                TagOutcome::Next => {},
            }
        }
    }

    /// Reads one tag and does what it says.
    fn read_tag(&mut self) -> (r: TagOutcome)
        requires
            old(self).cursor <= old(self).data@.len(),
            old(self).state().types.len() >= 1,
            old(self).state().types[0] == spec_root_type(),
        ensures
            final(self).data == old(self).data,
            final(self).cursor <= final(self).data@.len(),
            final(self).state().types.len() >= 1,
            final(self).state().types[0] == spec_root_type(),
            match r {
                TagOutcome::Fail => spec_step(old(self).data@, old(self).state()) is Fail,
                TagOutcome::Done(o) => spec_step(old(self).data@, old(self).state()) == SpecStep::Done(
                    o.spec_view(),
                ),
                TagOutcome::Next => spec_step(old(self).data@, old(self).state()) == SpecStep::Next(
                    final(self).state(),
                ) && final(self).cursor > old(self).cursor,
            },
    {
        proof {
            reveal(spec_step);
        }
        let ghost st = self.state();
        let raw = match self.read_packed_int() {
            Some(v) => v,
            None => return TagOutcome::Fail,
        };
        let tag = #[verifier::truncate] (raw as u8);
        assert(self.state() == ReaderState { pos: self.cursor as int, ..st });
        if !(tag <= 7 || tag == 255) {
            return TagOutcome::Fail;
        }
        let tag_type = HavokTagType::from(tag);
        match tag_type {
            HavokTagType::FileInfo => {
                let version = match self.read_packed_int() {
                    Some(v) => v,
                    None => return TagOutcome::Fail,
                };
                self.file_version = #[verifier::truncate] (version as u8);
                if self.file_version != 3 {
                    return TagOutcome::Fail;
                }
                let object_type = arc_clone(&self.remembered_types[0]);
                let object = HavokObject::new(object_type, Vec::new());
                self.remembered_objects.push(Arc::new(object));
                assert(values_view(Seq::<HavokValue>::empty()) =~= Seq::empty());
                assert(self.state().objects =~= st.objects.push(
                    SpecObject { object_type: st.types[0], data: Seq::empty() },
                ));
                TagOutcome::Next
            },
            HavokTagType::Type => {
                let object_type = match self.read_type() {
                    Some(t) => t,
                    None => return TagOutcome::Fail,
                };
                let ghost st2 = self.state();
                self.remembered_types.push(Arc::new(object_type));
                assert(self.state().types =~= st2.types.push(object_type.spec_view()));
                TagOutcome::Next
            },
            HavokTagType::ObjectRemember => {
                let object = match self.read_object_top_level() {
                    Some(o) => o,
                    None => return TagOutcome::Fail,
                };
                let ghost st2 = self.state();
                self.remembered_objects.push(Arc::new(object));
                assert(self.state().objects =~= st2.objects.push(object.spec_view()));
                TagOutcome::Next
            },
            HavokTagType::FileEnd => {
                if self.remembered_objects.len() < 2 {
                    return TagOutcome::Fail;
                }
                TagOutcome::Done(arc_clone(&self.remembered_objects[1]))
            },
            HavokTagType::Eof | HavokTagType::Invalid | HavokTagType::Object | HavokTagType::Backref
            | HavokTagType::ObjectNull => {
                TagOutcome::Fail
            },
        }
    }

    fn read_byte(&mut self) -> (r: u8)
        requires
            old(self).cursor < old(self).data@.len(),
        ensures
            r == old(self).data@[old(self).cursor as int],
            final(self).cursor == old(self).cursor + 1,
            final(self).data == old(self).data,
            final(self).remembered_strings == old(self).remembered_strings,
            final(self).remembered_types == old(self).remembered_types,
            final(self).remembered_objects == old(self).remembered_objects,
            final(self).file_version == old(self).file_version,
    {
        let result = self.data[self.cursor];
        self.cursor += 1;
        result
    }

    fn read_string(&mut self) -> (r: Option<Arc<String>>)
        requires
            old(self).cursor <= old(self).data@.len(),
        ensures
            final(self).cursor >= old(self).cursor,
            final(self).data == old(self).data,
            final(self).remembered_types == old(self).remembered_types,
            final(self).remembered_objects == old(self).remembered_objects,
            final(self).file_version == old(self).file_version,
            final(self).cursor <= final(self).data@.len(),
            match r {
                Some(v) => spec_read_string(old(self).data@, old(self).state()) == Some(
                    (v@, final(self).state()),
                ),
                None => spec_read_string(old(self).data@, old(self).state()) is None,
            },
    {
        let ghost st = self.state();
        let length = self.read_packed_int()?;
        assert(self.state() == ReaderState { pos: self.cursor as int, ..st });
        if length < 0 {
            if length == i32::MIN {
                return None;
            }
            let idx = (-length) as usize;
            if idx >= self.remembered_strings.len() {
                return None;
            }
            return Some(arc_clone(&self.remembered_strings[idx]));
        }
        let len = length as usize;
        if len > self.data.len() - self.cursor {
            return None;
        }
        let bytes = slice_subrange(self.data, self.cursor, self.cursor + len);
        let text = match str_from_utf8(bytes) {
            Ok(text) => text,
            Err(_) => {
                return None;
            },
        };
        let result = Arc::new(text.to_owned());
        let ghost old_strings = self.remembered_strings@;
        self.remembered_strings.push(arc_clone(&result));
        self.cursor += len;
        assert(self.remembered_strings@.map_values(|s: Arc<String>| s@) =~= old_strings.map_values(
            |s: Arc<String>| s@,
        ).push(result@));
        Some(result)
    }

    fn read_member(&mut self) -> (r: Option<HavokObjectMemberType>)
        requires
            old(self).cursor <= old(self).data@.len(),
        ensures
            final(self).cursor >= old(self).cursor,
            final(self).data == old(self).data,
            final(self).remembered_types == old(self).remembered_types,
            final(self).remembered_objects == old(self).remembered_objects,
            final(self).file_version == old(self).file_version,
            final(self).cursor <= final(self).data@.len(),
            match r {
                Some(m) => spec_read_member(old(self).data@, old(self).state()) == Some(
                    (m.spec_view(), final(self).state()),
                ),
                None => spec_read_member(old(self).data@, old(self).state()) is None,
            },
    {
        reveal(spec_read_member);
        let member_name = self.read_string()?;
        let ghost st1 = self.state();
        let raw = self.read_packed_int()?;
        let member_type = HavokType::from_bits(raw as u32)?;
        let tuple_size = if member_type.is_tuple() {
            self.read_packed_int()?
        } else {
            0
        };
        assert(self.state() == ReaderState { pos: self.cursor as int, ..st1 });
        let base = member_type.base_type().bits;
        let class_name = if base == HavokType::OBJECT || base == HavokType::STRUCT {
            Some(self.read_string()?)
        } else {
            None
        };
        Some(HavokObjectMemberType::new(member_name, member_type, tuple_size as u32, class_name))
    }

    fn read_type(&mut self) -> (r: Option<HavokObjectType>)
        requires
            old(self).cursor <= old(self).data@.len(),
        ensures
            final(self).cursor >= old(self).cursor,
            final(self).data == old(self).data,
            final(self).remembered_types == old(self).remembered_types,
            final(self).remembered_objects == old(self).remembered_objects,
            final(self).file_version == old(self).file_version,
            final(self).cursor <= final(self).data@.len(),
            match r {
                Some(t) => spec_read_type(old(self).data@, old(self).state()) == Some(
                    (t.spec_view(), final(self).state()),
                ),
                None => spec_read_type(old(self).data@, old(self).state()) is None,
            },
    {
        let ghost d = self.data@;
        let ghost st0 = self.state();
        proof {
            reveal(spec_read_type);
        }
        let name = self.read_string()?;
        let ghost st1 = self.state();
        let version = self.read_packed_int()?;
        let parent = self.read_packed_int()?;
        let member_count = self.read_packed_int()?;
        if parent < 0 || parent as usize >= self.remembered_types.len() {
            return None;
        }
        let parent_type = arc_clone(&self.remembered_types[parent as usize]);
        assert(parent_type.spec_view() == st1.types[parent as int]);
        let ghost st4 = self.state();
        assert(st4 == ReaderState { pos: self.cursor as int, ..st1 });
        let ghost n: nat = if member_count > 0 {
            member_count as nat
        } else {
            0
        };
        let mut members: Vec<HavokObjectMemberType> = Vec::new();
        let mut x: i32 = 0;
        while x < member_count
            invariant
                self.data == old(self).data,
                self.data@ == d,
                self.remembered_types == old(self).remembered_types,
                self.remembered_objects == old(self).remembered_objects,
                self.file_version == old(self).file_version,
                self.cursor <= self.data@.len(),
                self.cursor >= old(self).cursor,
                0 <= x,
                x <= member_count || member_count <= 0,
                x as nat <= n,
                n == (if member_count > 0 {
                    member_count as nat
                } else {
                    0
                }),
                spec_read_members(d, st4, x as nat) == Some((members_view(members@), self.state())),
                spec_read_members(d, st4, n) is None ==> spec_read_type(d, st0) is None,
                st0 == old(self).state(),
            decreases member_count - x,
        {
            let ghost before = self.state();
            let member = self.read_member();
            match member {
                Some(m) => {
                    let ghost old_members = members@;
                    members.push(m);
                    assert(members_view(members@) =~= members_view(old_members).push(m.spec_view()));
                },
                None => {
                    assert(spec_read_members(d, st4, (x + 1) as nat) is None);
                    assert(spec_read_members(d, st4, n) is None) by {
                        lemma_read_members_none(d, st4, (x + 1) as nat, n);
                    }
                    return None;
                },
            }
            x += 1;
        }
        assert(x as nat == n);
        Some(HavokObjectType::new(name, #[verifier::truncate] (version as u32), Some(parent_type), members))
    }

    fn read_object_member_value_array(
        &mut self,
        member_type: &HavokObjectMemberType,
        array_len: usize,
    ) -> (r: Option<HavokValue>)
        requires
            old(self).cursor <= old(self).data@.len(),
        ensures
            final(self).cursor >= old(self).cursor,
            final(self).data == old(self).data,
            final(self).remembered_strings == old(self).remembered_strings,
            final(self).remembered_types == old(self).remembered_types,
            final(self).remembered_objects == old(self).remembered_objects,
            final(self).file_version == old(self).file_version,
            final(self).cursor <= final(self).data@.len(),
            match r {
                Some(v) => {
                    &&& member_type.type_.spec_base() == HavokType::OBJECT
                    &&& spec_read_references(
                        old(self).data@,
                        old(self).cursor as int,
                        array_len as nat,
                    ) == Some((values_view(v->Array_0@), final(self).cursor as int))
                    &&& v is Array
                },
                None => member_type.type_.spec_base() != HavokType::OBJECT || spec_read_references(
                    old(self).data@,
                    old(self).cursor as int,
                    array_len as nat,
                ) is None,
            },
    {
        let ghost d = self.data@;
        let ghost p0 = self.cursor as int;
        let base_type = member_type.type_.base_type();
        if base_type.bits != HavokType::OBJECT {
            return None;
        }
        let mut values: Vec<HavokValue> = Vec::new();
        let mut i: usize = 0;
        while i < array_len
            invariant
                self.data == old(self).data,
                self.data@ == d,
                p0 == old(self).cursor,
                self.remembered_strings == old(self).remembered_strings,
                self.remembered_types == old(self).remembered_types,
                self.remembered_objects == old(self).remembered_objects,
                self.file_version == old(self).file_version,
                self.cursor <= self.data@.len(),
                self.cursor >= old(self).cursor,
                i <= array_len,
                spec_read_references(d, p0, i as nat) == Some(
                    (values_view(values@), self.cursor as int),
                ),
            decreases array_len - i,
        {
            let object_index = self.read_packed_int();
            match object_index {
                Some(object_index) => {
                    let ghost old_values = values@;
                    let reference = HavokValue::ObjectReference(
                        #[verifier::truncate] (object_index as usize),
                    );
                    let ghost ref_view = reference.spec_view();
                    assert(ref_view == SpecHavokValue::ObjectReference(
                        #[verifier::truncate] (object_index as usize),
                    ));
                    values.push(reference);
                    assert(values@.drop_last() =~= old_values);
                    assert(values@.last().spec_view() == ref_view);
                    assert(values_view(values@) == values_view(old_values).push(
                        SpecHavokValue::ObjectReference(#[verifier::truncate] (object_index as usize)),
                    ));
                },
                None => {
                    proof {
                        lemma_read_references_none(d, p0, (i + 1) as nat, array_len as nat);
                    }
                    return None;
                },
            }
            i += 1;
        }
        Some(HavokValue::Array(values))
    }

    fn read_object_member_value(&mut self, member_type: &HavokObjectMemberType) -> (r: Option<
        HavokValue,
    >)
        requires
            old(self).cursor <= old(self).data@.len(),
        ensures
            final(self).cursor >= old(self).cursor,
            final(self).data == old(self).data,
            final(self).remembered_strings == old(self).remembered_strings,
            final(self).remembered_types == old(self).remembered_types,
            final(self).remembered_objects == old(self).remembered_objects,
            final(self).file_version == old(self).file_version,
            final(self).cursor <= final(self).data@.len(),
            match r {
                Some(v) => spec_read_member_value(
                    old(self).data@,
                    old(self).state(),
                    member_type.spec_view(),
                ) == Some((v.spec_view(), final(self).state())),
                None => spec_read_member_value(
                    old(self).data@,
                    old(self).state(),
                    member_type.spec_view(),
                ) is None,
            },
    {
        let ghost st = self.state();
        if member_type.type_.is_array() {
            let array_len = self.read_packed_int()?;
            if member_type.type_.base_type().bits == HavokType::OBJECT && member_type.class_name.is_none() {
                return None;
            }
            let r = self.read_object_member_value_array(member_type, array_len as usize);
            assert(self.state() == ReaderState { pos: self.cursor as int, ..st });
            r
        } else {
            Some(HavokValue::Integer(0))
        }
    }

    fn read_object_top_level(&mut self) -> (r: Option<HavokObject>)
        requires
            old(self).cursor <= old(self).data@.len(),
        ensures
            final(self).cursor >= old(self).cursor,
            final(self).data == old(self).data,
            final(self).remembered_strings == old(self).remembered_strings,
            final(self).remembered_types == old(self).remembered_types,
            final(self).remembered_objects == old(self).remembered_objects,
            final(self).file_version == old(self).file_version,
            final(self).cursor <= final(self).data@.len(),
            match r {
                Some(o) => spec_read_object(old(self).data@, old(self).state()) == Some(
                    (o.spec_view(), final(self).state()),
                ),
                None => spec_read_object(old(self).data@, old(self).state()) is None,
            },
    {
        let ghost d = self.data@;
        let ghost st0 = self.state();
        proof {
            reveal(spec_read_object);
        }
        let object_type_index = self.read_packed_int()?;
        if object_type_index < 0 || object_type_index as usize >= self.remembered_types.len() {
            return None;
        }
        let object_type = arc_clone(&self.remembered_types[object_type_index as usize]);
        let ghost t = object_type.spec_view();
        assert(t == st0.types[object_type_index as int]);
        let members = object_type.members();
        let ghost ms = spec_all_members(t);
        let data_existence = self.read_bit_field(members.len())?;
        let ghost st2 = self.state();
        assert(st2 == ReaderState { pos: self.cursor as int, ..st0 });
        let mut data: Vec<HavokValue> = Vec::new();
        let mut index: usize = 0;
        while index < members.len()
            invariant
                self.data == old(self).data,
                self.data@ == d,
                st0 == old(self).state(),
                self.remembered_strings == old(self).remembered_strings,
                self.remembered_types == old(self).remembered_types,
                self.remembered_objects == old(self).remembered_objects,
                self.file_version == old(self).file_version,
                self.cursor <= self.data@.len(),
                self.cursor >= old(self).cursor,
                index <= members@.len(),
                members@.len() == ms.len(),
                forall|i: int| 0 <= i < members@.len() ==> (#[trigger] members@[i]).spec_view() == ms[i],
                spec_read_values(d, st2, ms, data_existence@, index as nat) == Some(
                    (values_view(data@), self.state()),
                ),
                spec_read_values(d, st2, ms, data_existence@, ms.len()) is None ==> spec_read_object(
                    d,
                    st0,
                ) is None,
            decreases members@.len() - index,
        {
            if index >= data_existence.len() {
                proof {
                    lemma_read_values_none(d, st2, ms, data_existence@, (index + 1) as nat, ms.len());
                }
                return None;
            }
            let ghost st_before = self.state();
            let ghost prev = values_view(data@);
            let value = if data_existence[index] {
                match self.read_object_member_value(members[index]) {
                    Some(v) => v,
                    None => {
                        proof {
                            lemma_read_values_none(
                                d,
                                st2,
                                ms,
                                data_existence@,
                                (index + 1) as nat,
                                ms.len(),
                            );
                        }
                        return None;
                    },
                }
            } else {
                HavokValue::Integer(0)
            };
            let ghost old_data = data@;
            data.push(value);
            assert(data@.drop_last() =~= old_data);
            assert(values_view(data@) == prev.push(value.spec_view()));
            assert(spec_read_values(d, st2, ms, data_existence@, (index + 1) as nat) == Some(
                (values_view(data@), self.state()),
            ));
            index += 1;
        }
        Some(HavokObject::new(object_type, data))
    }

    fn read_bit_field(&mut self, count: usize) -> (r: Option<Vec<bool>>)
        requires
            old(self).cursor <= old(self).data@.len(),
        ensures
            final(self).cursor >= old(self).cursor,
            final(self).data == old(self).data,
            final(self).remembered_strings == old(self).remembered_strings,
            final(self).remembered_types == old(self).remembered_types,
            final(self).remembered_objects == old(self).remembered_objects,
            final(self).file_version == old(self).file_version,
            final(self).cursor <= final(self).data@.len(),
            match r {
                Some(v) => spec_bit_field(old(self).data@, old(self).cursor as int, count as int)
                    == Some((v@, final(self).cursor as int)),
                None => spec_bit_field(old(self).data@, old(self).cursor as int, count as int) is None,
            },
    {
        let ghost d = self.data@;
        if count > usize::MAX - 7 {
            return None;
        }
        let x = count + 7;
        assert((x & 0xffff_fff8usize) / 8 == (x as int % 0x1_0000_0000) / 8) by (bit_vector);
        let bytes_to_read = ((count + 7) & 0xffff_fff8) / 8;
        if bytes_to_read > self.data.len() - self.cursor {
            return None;
        }
        let ghost nb = bytes_to_read as int;
        assert(8 * nb <= count + 7);
        let start = self.cursor;
        self.cursor += bytes_to_read;
        let data_len = self.data.len();
        let ghost n = if count <= 8 * nb {
            count as int
        } else {
            8 * nb
        };
        let ghost expect = Seq::new(n as nat, |i: int| bit_of(d[start + i / 8], i % 8));
        let mut result: Vec<bool> = Vec::new();
        let mut k: usize = 0;
        while k < bytes_to_read
            invariant
                self.data@ == d,
                start + bytes_to_read <= data_len,
                data_len == d.len(),
                nb == bytes_to_read,
                8 * nb <= count + 7,
                n == (if count <= 8 * nb {
                    count as int
                } else {
                    8 * nb
                }),
                k <= bytes_to_read,
                result@.len() == (if 8 * k <= count {
                    8 * k
                } else {
                    count as int
                }),
                forall|i: int| 0 <= i < result@.len() ==> result@[i] == bit_of(d[start + i / 8], i % 8),
            decreases bytes_to_read - k,
        {
            let b = self.data[start + k];
            let mut byte = b;
            let mut j: usize = 0;
            assert(b >> 0u8 == b) by (bit_vector);
            assert(8 * k < count);
            while j < 8
                invariant_except_break
                    j <= 8,
                    result@.len() == 8 * k + j,
                    result@.len() < count,
                    byte == b >> (j as u8),
                invariant
                    8 * k < count,
                    b == d[start + k],
                    forall|i: int| 0 <= i < result@.len() ==> result@[i] == bit_of(d[start + i / 8], i % 8),
                ensures
                    result@.len() == (if 8 * (k + 1) <= count {
                        8 * (k + 1)
                    } else {
                        count as int
                    }),
                decreases 8 - j,
            {
                assert((byte & 1 == 1) == ((b >> (j as u8)) & 1 == 1)) by (bit_vector)
                    requires byte == b >> (j as u8);
                let ghost i = 8 * k + j;
                assert(i / 8 == k && i % 8 == j as int);
                result.push((byte & 1) == 1);
                assert(j < 8 ==> (b >> (j as u8)) >> 1u8 == b >> ((j + 1) as u8)) by (bit_vector);
                byte >>= 1;
                j += 1;
                if result.len() == count {
                    break;
                }
            }
            k += 1;
        }
        assert(result@ =~= expect);
        Some(result)
    }

    fn read_packed_int(&mut self) -> (r: Option<i32>)
        requires
            old(self).cursor <= old(self).data@.len(),
        ensures
            final(self).cursor >= old(self).cursor,
            final(self).cursor <= final(self).data@.len(),
            r is Some ==> final(self).cursor > old(self).cursor,
            final(self).data == old(self).data,
            final(self).remembered_strings == old(self).remembered_strings,
            final(self).remembered_types == old(self).remembered_types,
            final(self).remembered_objects == old(self).remembered_objects,
            final(self).file_version == old(self).file_version,
            match r {
                Some(v) => spec_packed_int(old(self).data@, old(self).cursor as int) == Some(
                    (v, final(self).cursor as int),
                ),
                None => spec_packed_int(old(self).data@, old(self).cursor as int) is None,
            },
    {
        let ghost d = self.data@;
        let pos = self.cursor;
        if self.cursor >= self.data.len() {
            return None;
        }
        let first = self.read_byte();
        let mut byte = first;
        assert((first & 0x7f) >> 1 == (first % 128) / 2) by (bit_vector);
        assert(first & 1 == first % 2) by (bit_vector);
        let mut result: u32 = ((byte & 0x7f) >> 1) as u32;
        let neg = byte & 1;
        let mut shift: u32 = 6;
        let mut count: usize = 0;
        proof {
            reveal_with_fuel(weight, 2);
            assert(d.subrange(pos + 1, pos + 1 + count as int) =~= Seq::<u8>::empty());
        }
        while byte & 0x80 != 0
            invariant
                self.data@ == d,
                self.data == old(self).data,
                pos == old(self).cursor,
                pos + count < d.len(),
                first == d[pos as int],
                self.cursor == pos + 1 + count,
                count <= 4,
                shift == 6 + 7 * count,
                byte == d[pos + count],
                group_end(d, pos as int, 4) == group_end(d, pos + count, (4 - count) as nat),
                result as int == (low7(first) / 2 + 64 * base128_le(
                    d.subrange(pos + 1, pos + 1 + count as int),
                )) % 0x1_0000_0000,
                count < 4 ==> result < 64 * weight(count as nat),
                self.remembered_strings == old(self).remembered_strings,
                self.remembered_types == old(self).remembered_types,
                self.remembered_objects == old(self).remembered_objects,
                self.file_version == old(self).file_version,
            decreases 4 - count,
        {
            assert(byte & 0x80 != 0 ==> byte >= 128) by (bit_vector);
            assert(has_continuation(d[pos + count]));
            if count == 4 {
                assert(group_end(d, pos + count, 0) is None);
                assert(group_end(d, pos as int, 4) is None);
                return None;
            }
            assert(group_end(d, pos + count, (4 - count) as nat) == group_end(
                d,
                pos + count + 1,
                (3 - count) as nat,
            ));
            if self.cursor >= self.data.len() {
                assert(group_end(d, pos + count + 1, (3 - count) as nat) is None);
                assert(group_end(d, pos as int, 4) is None);
                return None;
            }
            let ghost old_sub = d.subrange(pos + 1, pos + 1 + count as int);
            let ghost old_result = result;
            byte = self.read_byte();
            proof {
                lemma_packed_step(result, byte, count as int);
                lemma_base128_bound(old_sub);
                let new_sub = d.subrange(pos + 1, pos + 2 + count as int);
                assert(new_sub.drop_last() =~= old_sub);
                assert(base128_le(new_sub) == base128_le(old_sub) + low7(byte) * weight(
                    count as nat,
                ));
                reveal_with_fuel(weight, 5);
                assert(64 * weight(count as nat) <= 134217728);
                assert(64 * (low7(byte) * weight(count as nat)) == 64 * low7(byte) * weight(
                    count as nat,
                )) by (nonlinear_arith);
            }
            result = result | (((byte as u32) & 0xffff_ff7f) << shift);
            shift += 7;
            count += 1;
            proof {
                let new_sub = d.subrange(pos + 1, pos + 1 + count as int);
                lemma_base128_bound(new_sub);
                if count < 4 {
                    assert(weight(count as nat) == 128 * weight((count - 1) as nat));
                    lemma_weight_pos(count as nat);
                    assert(64 * weight(count as nat) <= 134217728) by {
                        reveal_with_fuel(weight, 5);
                    }
                    assert(low7(first) / 2 + 64 * base128_le(new_sub) < 64 * weight(count as nat));
                }
            }
        }
        assert(byte & 0x80 == 0 ==> byte < 128) by (bit_vector);
        assert(group_end(d, pos + count, (4 - count) as nat) == Some(pos + count + 1));
        if neg == 1 {
            if result == 0x8000_0000 {
                return None;
            }
            assert(result >= 0x8000_0000 ==> (result as i32) as int == result as int - 0x1_0000_0000)
                by (bit_vector);
            assert(result < 0x8000_0000 ==> (result as i32) as int == result as int) by (bit_vector);
            Some(-(#[verifier::truncate] (result as i32)))
        } else {
            assert(result >= 0x8000_0000 ==> (result as i32) as int == result as int - 0x1_0000_0000)
                by (bit_vector);
            assert(result < 0x8000_0000 ==> (result as i32) as int == result as int) by (bit_vector);
            Some(#[verifier::truncate] (result as i32))
        }
    }
}

} // verus!
