//! Animation bindings read from Havok objects, and the quantization schemes
//! of spline-compressed animation tracks.
use vstd::prelude::*;
use vstd::slice::slice_subrange;

use crate::byte_reader::ByteReader;
use crate::util::spec_u16_le;
use crate::havok::{HavokObject, HavokValue, SpecHavokValue, SpecObject, lemma_values_view, spec_get, values_view};

verus! {

/// How an animation is blended onto the pose.
#[derive(PartialEq, Eq, Structural)]
pub enum HavokAnimationBlendHint {
    Normal,
    Additive,
}

impl HavokAnimationBlendHint {
    pub fn from_raw(raw: u8) -> (r: Self)
        requires
            raw <= 1,
        ensures
            raw == 0 ==> r == HavokAnimationBlendHint::Normal,
            raw == 1 ==> r == HavokAnimationBlendHint::Additive,
    {
        match raw {
            0 => Self::Normal,
            _ => Self::Additive,
        }
    }
}

/// The integers of a sequence of values, each cut to 16 bits; `None` when one
/// of them is not an integer.
pub open spec fn spec_u16_items(items: Seq<SpecHavokValue>) -> Option<Seq<u16>>
    decreases items.len(),
{
    if items.len() == 0 {
        Some(Seq::empty())
    } else {
        match spec_u16_items(items.drop_last()) {
            None => None,
            Some(prev) => match items.last() {
                SpecHavokValue::Integer(i) => Some(prev.push(i as u16)),
                _ => None,
            },
        }
    }
}

/// The bone index of each transform track (an array of integers named
/// `transformTrackToBoneIndices`) and the blend hint (the integer named
/// `blendHint`, cut to 8 bits, which must be 0 or 1).
pub open spec fn spec_binding(o: SpecObject) -> Option<(Seq<u16>, u8)> {
    match (spec_get(o, "transformTrackToBoneIndices"@), spec_get(o, "blendHint"@)) {
        (Some(SpecHavokValue::Array(items)), Some(SpecHavokValue::Integer(h))) => match spec_u16_items(
            items,
        ) {
            Some(indices) => if (h as u8) <= 1 {
                Some((indices, h as u8))
            } else {
                None
            },
            None => None,
        },
        _ => None,
    }
}

/// Maps the transform tracks of an animation to skeleton bones.
pub struct HavokAnimationBinding {
    pub transform_track_to_bone_indices: Vec<u16>,
    pub blend_hint: HavokAnimationBlendHint,
}

impl HavokAnimationBinding {
    /// Reads a binding object, whose members must be present, of the right
    /// kind, and give a known blend hint.
    pub fn new(object: &HavokObject) -> (r: Self)
        requires
            spec_binding(object.spec_view()) is Some,
        ensures
            spec_binding(object.spec_view()) matches Some((indices, h)) && r.transform_track_to_bone_indices@
                == indices && (r.blend_hint == HavokAnimationBlendHint::Normal <==> h == 0),
    {
        Self::try_new(object).unwrap()
    }

    /// Reads a binding object as [`Self::new`] does; `None` when a member is
    /// missing or of the wrong kind, or the blend hint is unknown.
    pub fn try_new(object: &HavokObject) -> (r: Option<Self>)
        ensures
            match r {
                Some(b) => spec_binding(object.spec_view()) matches Some((indices, h)) && b.transform_track_to_bone_indices@ == indices
                    && (b.blend_hint == HavokAnimationBlendHint::Normal <==> h == 0),
                None => spec_binding(object.spec_view()) is None,
            },
    {
        let raw_indices = match object.get(&"transformTrackToBoneIndices".to_owned()) {
            Some(v) => v,
            None => return None,
        };
        let items = match raw_indices.as_array() {
            Some(items) => items,
            None => return None,
        };
        let ghost item_views = values_view(items@);
        proof {
            lemma_values_view(items@);
        }
        let mut transform_track_to_bone_indices: Vec<u16> = Vec::new();
        let mut i: usize = 0;
        while i < items.len()
            invariant
                i <= items@.len(),
                item_views == values_view(items@),
                spec_get(object.spec_view(), "transformTrackToBoneIndices"@) == Some(
                    SpecHavokValue::Array(item_views),
                ),
                item_views.len() == items@.len(),
                forall|j: int| 0 <= j < items@.len() ==> item_views[j] == (#[trigger] items@[j]).spec_view(),
                spec_u16_items(item_views.subrange(0, i as int)) == Some(
                    transform_track_to_bone_indices@,
                ),
            decreases items@.len() - i,
        {
            assert(item_views.subrange(0, i + 1).drop_last() =~= item_views.subrange(0, i as int));
            match items[i].as_int() {
                Some(x) => {
                    transform_track_to_bone_indices.push(#[verifier::truncate] (x as u16));
                },
                None => {
                    proof {
                        lemma_u16_items_none(item_views, i + 1);
                    }
                    return None;
                },
            }
            i += 1;
        }
        assert(item_views.subrange(0, i as int) =~= item_views);
        let raw_hint = match object.get(&"blendHint".to_owned()) {
            Some(v) => v,
            None => return None,
        };
        let hint = match raw_hint.as_int() {
            Some(h) => #[verifier::truncate] (h as u8),
            None => return None,
        };
        if hint > 1 {
            return None;
        }
        let blend_hint = HavokAnimationBlendHint::from_raw(hint);
        Some(Self { transform_track_to_bone_indices, blend_hint })
    }
}

/// Once a prefix holds a non-integer, so does the whole sequence.
proof fn lemma_u16_items_none(items: Seq<SpecHavokValue>, k: int)
    requires
        0 <= k <= items.len(),
        spec_u16_items(items.subrange(0, k)) is None,
    ensures
        spec_u16_items(items) is None,
    decreases items.len() - k,
{
    if k < items.len() {
        assert(items.subrange(0, k + 1).drop_last() =~= items.subrange(0, k));
        lemma_u16_items_none(items, k + 1);
    } else {
        assert(items.subrange(0, k) =~= items);
    }
}

/// How the rotations of a track are stored.
#[derive(PartialEq, Eq, Structural)]
pub enum RotationQuantization {
    POLAR32,
    THREECOMP40,
    THREECOMP48,
    THREECOMP24,
    STRAIGHT16,
    UNCOMPRESSED,
}

impl RotationQuantization {
    pub fn from_raw(raw: u8) -> (r: Self)
        requires
            raw <= 5,
        ensures
            raw == 0 ==> r == Self::POLAR32,
            raw == 1 ==> r == Self::THREECOMP40,
            raw == 2 ==> r == Self::THREECOMP48,
            raw == 3 ==> r == Self::THREECOMP24,
            raw == 4 ==> r == Self::STRAIGHT16,
            raw == 5 ==> r == Self::UNCOMPRESSED,
    {
        match raw {
            0 => Self::POLAR32,
            1 => Self::THREECOMP40,
            2 => Self::THREECOMP48,
            3 => Self::THREECOMP24,
            4 => Self::STRAIGHT16,
            _ => Self::UNCOMPRESSED,
        }
    }

    /// Alignment of the packed rotations, in bytes.
    pub fn align(&self) -> (r: usize)
        ensures
            r == match self {
                Self::POLAR32 => 4usize,
                Self::THREECOMP40 => 1,
                Self::THREECOMP48 => 2,
                Self::THREECOMP24 => 1,
                Self::STRAIGHT16 => 2,
                Self::UNCOMPRESSED => 4,
            },
    {
        match self {
            Self::POLAR32 => 4,
            Self::THREECOMP40 => 1,
            Self::THREECOMP48 => 2,
            Self::THREECOMP24 => 1,
            Self::STRAIGHT16 => 2,
            Self::UNCOMPRESSED => 4,
        }
    }

    /// Size of one packed rotation, in bytes.
    pub fn bytes_per_quaternion(&self) -> (r: usize)
        ensures
            r == match self {
                Self::POLAR32 => 4usize,
                Self::THREECOMP40 => 5,
                Self::THREECOMP48 => 6,
                Self::THREECOMP24 => 3,
                Self::STRAIGHT16 => 2,
                Self::UNCOMPRESSED => 16,
            },
    {
        match self {
            Self::POLAR32 => 4,
            Self::THREECOMP40 => 5,
            Self::THREECOMP48 => 6,
            Self::THREECOMP24 => 3,
            Self::STRAIGHT16 => 2,
            Self::UNCOMPRESSED => 16,
        }
    }
}

/// How the translation and scale components of a track are stored.
#[derive(PartialEq, Eq, Structural)]
pub enum ScalarQuantization {
    BITS8,
    BITS16,
}

impl ScalarQuantization {
    pub fn from_raw(raw: u8) -> (r: Self)
        requires
            raw <= 1,
        ensures
            raw == 0 ==> r == Self::BITS8,
            raw == 1 ==> r == Self::BITS16,
    {
        match raw {
            0 => Self::BITS8,
            _ => Self::BITS16,
        }
    }

    /// Size of one packed component, in bytes.
    pub fn bytes_per_component(&self) -> (r: usize)
        ensures
            r == match self {
                Self::BITS8 => 1usize,
                Self::BITS16 => 2,
            },
    {
        match self {
            Self::BITS8 => 1,
            Self::BITS16 => 2,
        }
    }
}

/// Whether the quantization byte of a track names known schemes: bits 0-1
/// (translation) and 6-7 (scale) at most 1, bits 2-5 (rotation) at most 5.
pub open spec fn valid_quantization_types(packed: u8) -> bool {
    &&& packed % 4 <= 1
    &&& (packed / 4) % 16 <= 5
    &&& packed / 64 <= 1
}

/// Splits the quantization byte of a track into its translation, rotation
/// and scale schemes.
pub fn unpack_quantization_types(packed_quantization_types: u8) -> (r: (
    ScalarQuantization,
    RotationQuantization,
    ScalarQuantization,
))
    requires
        valid_quantization_types(packed_quantization_types),
    ensures
        r.0 == (if packed_quantization_types % 4 == 0 {
            ScalarQuantization::BITS8
        } else {
            ScalarQuantization::BITS16
        }),
        r.2 == (if packed_quantization_types / 64 == 0 {
            ScalarQuantization::BITS8
        } else {
            ScalarQuantization::BITS16
        }),
        ((packed_quantization_types / 4) % 16 == 0 ==> r.1 == RotationQuantization::POLAR32),
        ((packed_quantization_types / 4) % 16 == 1 ==> r.1 == RotationQuantization::THREECOMP40),
        ((packed_quantization_types / 4) % 16 == 2 ==> r.1 == RotationQuantization::THREECOMP48),
        ((packed_quantization_types / 4) % 16 == 3 ==> r.1 == RotationQuantization::THREECOMP24),
        ((packed_quantization_types / 4) % 16 == 4 ==> r.1 == RotationQuantization::STRAIGHT16),
        ((packed_quantization_types / 4) % 16 == 5 ==> r.1 == RotationQuantization::UNCOMPRESSED),
{
    let p = packed_quantization_types;
    assert(p & 0x03 == p % 4 && (p >> 2) & 0x0f == (p / 4) % 16 && (p >> 6) & 0x03 == p / 64)
        by (bit_vector);
    let translation = ScalarQuantization::from_raw(packed_quantization_types & 0x03);
    let rotation = RotationQuantization::from_raw((packed_quantization_types >> 2) & 0x0F);
    let scale = ScalarQuantization::from_raw((packed_quantization_types >> 6) & 0x03);
    (translation, rotation, scale)
}

/// The span that bisection of `U` between `low` and `high` ends on.
#[allow(non_snake_case)]
pub open spec fn spec_bisect(U: Seq<u8>, u: u8, low: int, high: int) -> int
    decreases high - low,
{
    let mid = low + (high - low) / 2;
    if high - low < 2 {
        mid
    } else if u < U[mid] {
        spec_bisect(U, u, low, mid)
    } else if u >= U[mid + 1] {
        spec_bisect(U, u, mid, high)
    } else {
        mid
    }
}

/// The knot span that `find_span` picks: `n` at or past the last knot, `p`
/// at or before the first, else the one bisection from `p` to `n + 1` ends on.
#[allow(non_snake_case)]
pub open spec fn spec_find_span(n: int, p: int, u: u8, U: Seq<u8>) -> int {
    if u >= U[n + 1] {
        n
    } else if u <= U[0] {
        p
    } else {
        spec_bisect(U, u, p, n + 1)
    }
}

/// Finds the knot span of parameter `u` in the knot vector `knots` of a
/// curve with `n + 1` control points of degree `p`: `n` when `u` is at or past
/// the last knot, `p` when it is at or before the first, and otherwise the
/// index `r` in `p..=n` with `knots[r] <= u < knots[r + 1]` (a binary search).
/// A degree above `n` is taken only where no search is needed.
#[allow(non_snake_case)]
pub fn find_span(n: usize, p: usize, u: u8, U: &[u8]) -> (r: usize)
    requires
        n + 1 < U@.len(),
        p <= n || (u <= U@[0] && u < U@[n + 1]) || u >= U@[n + 1],
        U@[0] < u < U@[n + 1] ==> U@[p as int] <= u,
    ensures
        r == spec_find_span(n as int, p as int, u, U@),
        u >= U@[n + 1] ==> r == n,
        U@[0] < u < U@[n + 1] ==> p <= r <= n && U@[r as int] <= u < U@[r + 1],
        u <= U@[0] && u < U@[n + 1] ==> r == p,
{
    assert(U@.len() == U.len());
    if u >= U[n + 1] {
        return n;
    }
    if u <= U[0] {
        return p;
    }
    let mut low = p;
    let mut high = n + 1;
    let mut mid = low + (high - low) / 2;
    while u < U[mid] || u >= U[mid + 1]
        invariant
            p <= low < high <= n + 1,
            n + 1 < U@.len(),
            U@[low as int] <= u < U@[high as int],
            mid == low + (high - low) / 2,
            U@[0] < u < U@[n + 1],
            spec_bisect(U@, u, low as int, high as int) == spec_find_span(n as int, p as int, u, U@),
        decreases high - low,
    {
        if u < U[mid] {
            high = mid;
        } else {
            low = mid;
        }
        mid = low + (high - low) / 2;
    }
    mid
}

/// The packed data of a block: `base` from `offsets[block] + (extra & 0x7fff_ffff)` on.
pub fn compute_packed_nurbs_offsets<'a>(base: &'a [u8], offsets: &[u32], block: usize, extra: u32) -> (r: &'a [u8])
    requires
        block < offsets@.len(),
        offsets@[block as int] + extra % 0x8000_0000 <= u32::MAX,
        offsets@[block as int] + extra % 0x8000_0000 <= base@.len(),
    ensures
        r@ == base@.subrange(offsets@[block as int] + extra % 0x8000_0000, base@.len() as int),
{
    assert(extra & 0x7fff_ffff == extra % 0x8000_0000) by (bit_vector);
    let offset = (offsets[block] + (extra & 0x7fff_ffff)) as usize;
    slice_subrange(base, offset, base.len())
}

/// Whether a knot block can be read at position `pos` of `d` for parameter
/// `u`: a 16-bit count `n`, a degree `p`, then `n + p + 2` knots (and at
/// least the `2p + 1` that are read) whose span search ends (the degree's
/// knot is at most `u` when `u` is strictly inside the first and last knot
/// of the search). A degree above `n` is read only where `u` is at or
/// before the first knot and before the last, so that the span is `p`.
pub open spec fn knots_readable(d: Seq<u8>, pos: int, u: u8) -> bool {
    let n = spec_u16_le(d, pos);
    let p = d[pos + 2] as int;
    let k = pos + 3;
    &&& 0 <= pos
    &&& pos + 3 <= d.len()
    &&& k + n + p + 2 <= d.len()
    &&& k + 2 * p + 1 <= d.len()
    &&& (p <= n || (u <= d[k] && u < d[k + n + 1]))
    &&& (d[k] < u < d[k + n + 1] ==> d[k + p] <= u)
    &&& pos + 3 + n + p + 2 <= usize::MAX
}

/// Reads a knot block: the control point count less one (`n`), the degree
/// (`p`), the knot span of `u`, and the `2p` knots around it shifted by the
/// span (knot `i + 1` of the block plus `span - p`). The position moves past
/// the whole block of `n + p + 2` knots.
pub fn read_knots(data: &mut ByteReader, u: u8) -> (r: (usize, usize, Vec<usize>, usize))
    requires
        knots_readable(old(data).bytes(), old(data).position(), u),
    ensures
        ({
            let d = old(data).bytes();
            let pos = old(data).position();
            let k = pos + 3;
            let (n, p, knots, span) = r;
            &&& n == spec_u16_le(d, pos)
            &&& p == d[pos + 2]
            &&& (u >= d[k + n + 1] ==> span == n)
            &&& (d[k] < u < d[k + n + 1] ==> p <= span <= n && d[k + span] <= u < d[k + span + 1])
            &&& (u <= d[k] && u < d[k + n + 1] ==> span == p)
            &&& span == spec_find_span(n as int, p as int, u, d.subrange(k, d.len() as int))
            &&& knots@.len() == 2 * p
            &&& forall|i: int| 0 <= i < 2 * p ==> #[trigger] knots@[i] == d[k + i + 1] + span - p
            &&& final(data).bytes() == d
            &&& final(data).position() == k + n + p + 2
        }),
{
    let n_bytes = data.read_bytes(2);
    let n = (n_bytes[0] as u16 + 256 * (n_bytes[1] as u16)) as usize;
    let p = data.read() as usize;
    let raw = data.raw();
    let span = find_span(n, p, u, raw);
    let mut knots: Vec<usize> = Vec::new();
    let mut i: usize = 0;
    while i < 2 * p
        invariant
            i <= 2 * p,
            p <= span,
            span <= n || span == p,
            n <= 65535,
            p <= 255,
            n + p + 2 <= raw@.len(),
            2 * p + 1 <= raw@.len(),
            knots@.len() == i,
            forall|j: int| 0 <= j < i ==> #[trigger] knots@[j] == raw@[j + 1] + span - p,
        decreases 2 * p - i,
    {
        knots.push(raw[i + 1] as usize + span - p);
        i += 1;
    }
    data.seek(n + p + 2);
    (n, p, knots, span)
}

} // verus!
