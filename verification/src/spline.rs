//! The packed tracks of a spline-compressed animation: for each transform
//! track, which of its translation, rotation and scale are curves, their
//! knots, their static and range values, and the quantized control points
//! of the block that a sample falls in. Turning these into numbers (the
//! floating-point unpacking and curve evaluation) is left to the caller.
use vstd::prelude::*;

use crate::animation::{
    knots_readable, read_knots, spec_find_span, unpack_quantization_types, valid_quantization_types,
    RotationQuantization, ScalarQuantization,
};
use crate::byte_reader::ByteReader;
use crate::havok::{lemma_values_view, spec_get, values_view, HavokObject, HavokValue, SpecHavokValue, SpecObject};
use crate::util::{spec_round_up, spec_u16_le, spec_u32_le};

verus! {

/// The bits of `1.0f32`, the value a missing fourth component takes.
pub const ONE_BITS: u32 = 0x3f80_0000;

/// Whether bit `i` of `mask` is set.
pub open spec fn bit(mask: u8, i: u8) -> bool {
    (mask >> i) & 1 == 1
}

/// The knot block of a curve: control points less one (`n`), degree (`p`),
/// the knot span of the sampled time, and the `2p` knots around it.
pub struct SpecKnots {
    pub n: int,
    pub p: int,
    pub knots: Seq<int>,
    pub span: int,
}

/// The knot block at `pos` for the quantized time `u`, and the position
/// after it; `None` where it cannot be read.
pub open spec fn spec_read_knots(d: Seq<u8>, pos: int, u: u8) -> Option<(SpecKnots, int)> {
    if knots_readable(d, pos, u) {
        let n = spec_u16_le(d, pos);
        let p = d[pos + 2] as int;
        let k = pos + 3;
        let span = spec_find_span(n, p, u, d.subrange(k, d.len() as int));
        Some(
            (
                SpecKnots { n, p, knots: Seq::new((2 * p) as nat, |i: int| d[k + i + 1] + span - p), span },
                k + n + p + 2,
            ),
        )
    } else {
        None
    }
}

/// A knot block as read.
pub struct RawKnots {
    pub n: usize,
    pub p: usize,
    pub knots: Vec<usize>,
    pub span: usize,
}

impl RawKnots {
    pub open spec fn view(&self) -> SpecKnots {
        SpecKnots {
            n: self.n as int,
            p: self.p as int,
            knots: self.knots@.map_values(|k: usize| k as int),
            span: self.span as int,
        }
    }
}

/// Reads the knot block at the position; `None`, with the reader as it was,
/// where it cannot be read.
pub fn read_knot_block(data: &mut ByteReader, u: u8) -> (r: Option<RawKnots>)
    ensures
        final(data).bytes() == old(data).bytes(),
        match r {
            Some(k) => spec_read_knots(old(data).bytes(), old(data).position(), u) == Some(
                (k.view(), final(data).position()),
            ),
            None => spec_read_knots(old(data).bytes(), old(data).position(), u) is None
                && final(data).position() == old(data).position(),
        },
{
    if !knots_fit(data, u) {
        return None;
    }
    let ghost d = data.bytes();
    let ghost pos = data.position();
    let (n, p, knots, span) = read_knots(data, u);
    let r = RawKnots { n, p, knots, span };
    assert(r.view().knots =~= Seq::new((2 * p) as nat, |i: int| d[pos + 3 + i + 1] + span - p));
    Some(r)
}

/// Whether the knot block at the position can be read.
fn knots_fit(data: &ByteReader, u: u8) -> (r: bool)
    ensures
        r == knots_readable(data.bytes(), data.position(), u),
{
    let pos = data.cursor_position();
    let len = data.len();
    if pos > len || len - pos < 3 {
        return false;
    }
    let d = data.raw();
    let n = d[0] as usize + 256 * (d[1] as usize);
    let p = d[2] as usize;
    if n + p + 2 > d.len() - 3 || 2 * p + 1 > d.len() - 3 {
        return false;
    }
    if pos > usize::MAX - (3 + n + p + 2) {
        return false;
    }
    let k: usize = 3;
    if p > n && !(u <= d[k] && u < d[k + n + 1]) {
        return false;
    }
    if d[k] < u && u < d[k + n + 1] && !(d[k + p] <= u) {
        return false;
    }
    true
}

/// Reads a little-endian 32-bit number at the position; `None`, with the
/// reader as it was, when fewer than four bytes are left.
fn read_u32(data: &mut ByteReader) -> (r: Option<u32>)
    ensures
        final(data).bytes() == old(data).bytes(),
        ({
            let d = old(data).bytes();
            let pos = old(data).position();
            if 0 <= pos && pos + 4 <= d.len() {
                r == Some(spec_u32_le(d, pos) as u32) && final(data).position() == pos + 4
            } else {
                r is None && final(data).position() == pos
            }
        }),
{
    let pos = data.cursor_position();
    let len = data.len();
    if pos > len || len - pos < 4 {
        return None;
    }
    let b = data.read_bytes(4);
    Some(b[0] as u32 + 256 * (b[1] as u32) + 65536 * (b[2] as u32) + 16777216 * (b[3] as u32))
}

/// The static, minimum and maximum values of a curve's components (as
/// `f32` bits, starting from `0, 0, 0, 1`), read from `pos` for components
/// `i..3`: a component with bit `i` of the mask has a static value, else one
/// with bit `i + 4` a minimum and a maximum; and the position after them.
pub open spec fn spec_components(
    d: Seq<u8>,
    pos: int,
    mask: u8,
    i: int,
    s: Seq<u32>,
    mn: Seq<u32>,
    mx: Seq<u32>,
) -> Option<(Seq<u32>, Seq<u32>, Seq<u32>, int)>
    decreases 3 - i,
{
    if i >= 3 {
        Some((s, mn, mx, pos))
    } else if bit(mask, i as u8) {
        if pos + 4 <= d.len() {
            spec_components(d, pos + 4, mask, i + 1, s.update(i, spec_u32_le(d, pos) as u32), mn, mx)
        } else {
            None
        }
    } else if bit(mask, (i + 4) as u8) {
        if pos + 8 <= d.len() {
            spec_components(
                d,
                pos + 8,
                mask,
                i + 1,
                s,
                mn.update(i, spec_u32_le(d, pos) as u32),
                mx.update(i, spec_u32_le(d, pos + 4) as u32),
            )
        } else {
            None
        }
    } else {
        spec_components(d, pos, mask, i + 1, s, mn, mx)
    }
}

/// The starting values of the components.
pub open spec fn initial_components() -> Seq<u32> {
    seq![0u32, 0u32, 0u32, ONE_BITS]
}

/// Number of quantized values in each control point: one per component
/// with bit `4`, `5` or `6` of the mask.
pub open spec fn point_size(mask: u8) -> int {
    (if bit(mask, 4) { 1int } else { 0 }) + (if bit(mask, 5) { 1int } else { 0 }) + (if bit(mask, 6) {
        1int
    } else {
        0
    })
}

/// The quantized value of `bpc` bytes (one or two, little-endian) at `at`.
pub open spec fn quantized(d: Seq<u8>, at: int, bpc: int) -> u32 {
    if bpc == 1 {
        d[at] as u32
    } else {
        spec_u16_le(d, at) as u32
    }
}

/// A quantized control value is its bytes read little-endian: one byte is
/// the value itself; of two, the first is the low byte and the second the
/// high byte (bytes `[0x34, 0x12]` give `0x1234`).
pub proof fn lemma_quantized_little_endian(d: Seq<u8>, at: int)
    requires
        0 <= at,
        at + 2 <= d.len(),
    ensures
        quantized(d, at, 1) == d[at],
        quantized(d, at, 2) % 256 == d[at],
        quantized(d, at, 2) / 256 == d[at + 1],
        quantized(d, at, 2) < 0x1_0000,
{
}

/// One control point at `at`: the quantized values of the components with
/// bits 4 to 6 of the mask, in order, `0` for the others.
pub open spec fn spec_point(d: Seq<u8>, at: int, mask: u8, bpc: int) -> Seq<u32> {
    let o1 = at + (if bit(mask, 4) { bpc } else { 0 });
    let o2 = o1 + (if bit(mask, 5) { bpc } else { 0 });
    seq![
        if bit(mask, 4) { quantized(d, at, bpc) } else { 0u32 },
        if bit(mask, 5) { quantized(d, o1, bpc) } else { 0u32 },
        if bit(mask, 6) { quantized(d, o2, bpc) } else { 0u32 },
        0u32,
    ]
}

/// A curve of a track as read: its knot block (when bits 4 to 7 of its mask
/// are not all clear), its static, minimum and maximum values, and its
/// control points (at most four, those that the evaluation uses).
pub struct SpecCurve {
    pub knots: Option<SpecKnots>,
    pub statics: Seq<u32>,
    pub mins: Seq<u32>,
    pub maxs: Seq<u32>,
    pub points: Seq<Seq<u32>>,
}

/// The number of control points read: `p + 1`, at most four.
pub open spec fn points_read(p: int) -> int {
    if p + 1 < 4 {
        p + 1
    } else {
        4
    }
}

/// The knot block (when bits 4 to 7 of the mask are not all clear) and the
/// static, minimum and maximum values of the curve at `pos`, and the
/// position after them.
pub open spec fn spec_curve_head(d: Seq<u8>, pos: int, mask: u8, u: u8) -> Option<
    (Option<SpecKnots>, Seq<u32>, Seq<u32>, Seq<u32>, int),
> {
    let head = if mask >= 16 {
        match spec_read_knots(d, pos, u) {
            None => None,
            Some((k, e)) => Some((Some(k), e)),
        }
    } else {
        Some((None::<SpecKnots>, pos))
    };
    match head {
        None => None,
        Some((knots, p1)) => if spec_round_up(p1, 4) > usize::MAX {
            None
        } else {
            match spec_components(
                d,
                spec_round_up(p1, 4),
                mask,
                0,
                initial_components(),
                initial_components(),
                initial_components(),
            ) {
                None => None,
                Some((s, mn, mx, p3)) => Some((knots, s, mn, mx, p3)),
            }
        },
    }
}

/// The control points of a curve with knot block `k`, after its values at
/// `p3`: aligned to two bytes, skipping the points before the span, the
/// points that the evaluation uses; and the position after all the curve's
/// points.
pub open spec fn spec_curve_points(d: Seq<u8>, p3: int, k: SpecKnots, mask: u8, bpc: int) -> Option<
    (Seq<Seq<u32>>, int),
> {
    let p4 = spec_round_up(p3, 2);
    let step = bpc * point_size(mask);
    let start = p4 + step * (k.span - k.p);
    let count = points_read(k.p);
    let end = p4 + step * (k.n + 1);
    if p4 > usize::MAX || start > usize::MAX || end > usize::MAX || (step > 0 && start + count * step
        > d.len()) {
        None
    } else {
        Some((Seq::new(count as nat, |i: int| spec_point(d, start + i * step, mask, bpc)), end))
    }
}

/// The curve at `pos` for quantized time `u`, whose quantized values take
/// `bpc` bytes, and the position after it; `None` where it cannot be read.
pub open spec fn spec_curve(d: Seq<u8>, pos: int, mask: u8, u: u8, bpc: int) -> Option<(SpecCurve, int)> {
    match spec_curve_head(d, pos, mask, u) {
        None => None,
        Some((knots, s, mn, mx, p3)) => match knots {
            None => Some((SpecCurve { knots, statics: s, mins: mn, maxs: mx, points: Seq::empty() }, p3)),
            Some(k) => match spec_curve_points(d, p3, k, mask, bpc) {
                None => None,
                Some((points, end)) => Some(
                    (SpecCurve { knots, statics: s, mins: mn, maxs: mx, points }, end),
                ),
            },
        },
    }
}

/// A curve as read.
pub struct RawCurve {
    pub knots: Option<RawKnots>,
    pub statics: Vec<u32>,
    pub mins: Vec<u32>,
    pub maxs: Vec<u32>,
    pub points: Vec<Vec<u32>>,
}

impl RawCurve {
    pub open spec fn view(&self) -> SpecCurve {
        SpecCurve {
            knots: match self.knots {
                Some(k) => Some(k.view()),
                None => None,
            },
            statics: self.statics@,
            mins: self.mins@,
            maxs: self.maxs@,
            points: self.points@.map_values(|p: Vec<u32>| p@),
        }
    }
}

fn bit_of(mask: u8, i: u8) -> (r: bool)
    requires
        i < 8,
    ensures
        r == bit(mask, i),
{
    (mask >> i) & 1 == 1
}

/// Reads the static, minimum and maximum values of a curve.
fn read_components(data: &mut ByteReader, mask: u8) -> (r: Option<(Vec<u32>, Vec<u32>, Vec<u32>)>)
    ensures
        final(data).bytes() == old(data).bytes(),
        match r {
            Some((s, mn, mx)) => spec_components(
                old(data).bytes(),
                old(data).position(),
                mask,
                0,
                initial_components(),
                initial_components(),
                initial_components(),
            ) == Some((s@, mn@, mx@, final(data).position())),
            None => spec_components(
                old(data).bytes(),
                old(data).position(),
                mask,
                0,
                initial_components(),
                initial_components(),
                initial_components(),
            ) is None,
        },
{
    let ghost d = data.bytes();
    let ghost pos0 = data.position();
    let mut s: Vec<u32> = vec![0, 0, 0, ONE_BITS];
    let mut mn: Vec<u32> = vec![0, 0, 0, ONE_BITS];
    let mut mx: Vec<u32> = vec![0, 0, 0, ONE_BITS];
    let mut i: u8 = 0;
    while i < 3
        invariant
            i <= 3,
            data.bytes() == d,
            d == old(data).bytes(),
            pos0 == old(data).position(),
            s@.len() == 4 && mn@.len() == 4 && mx@.len() == 4,
            spec_components(d, pos0, mask, 0, initial_components(), initial_components(), initial_components())
                == spec_components(d, data.position(), mask, i as int, s@, mn@, mx@),
        decreases 3 - i,
    {
        let ghost p = data.position();
        proof {
            data.lemma_position();
        }
        if bit_of(mask, i) {
            match read_u32(data) {
                Some(v) => {
                    s.set(i as usize, v);
                },
                None => {
                    assert(spec_components(d, p, mask, i as int, s@, mn@, mx@) is None);
                    return None;
                },
            }
        } else if bit_of(mask, i + 4) {
            let lo = read_u32(data);
            let ghost q = data.position();
            let hi = read_u32(data);
            match (lo, hi) {
                (Some(lo), Some(hi)) => {
                    mn.set(i as usize, lo);
                    mx.set(i as usize, hi);
                },
                _ => {
                    assert(p + 8 > d.len()) by {
                        if lo is Some {
                            assert(q == p + 4);
                        } else {
                            assert(p + 4 > d.len());
                        }
                    }
                    assert(spec_components(d, p, mask, i as int, s@, mn@, mx@) is None);
                    return None;
                },
            }
        }
        i += 1;
    }
    Some((s, mn, mx))
}

/// Whether rounding `pos` up to a multiple of `align` fits in `usize`.
fn round_up_fits(pos: usize, align: usize) -> (r: bool)
    requires
        1 <= align <= 4,
    ensures
        r == (spec_round_up(pos as int, align as int) <= usize::MAX),
{
    let rem = pos % align;
    rem == 0 || pos <= usize::MAX - (align - rem)
}

/// One control point at `at`.
fn point_at(d: &[u8], at: usize, mask: u8, bpc: usize) -> (r: Vec<u32>)
    requires
        bpc == 1 || bpc == 2,
        point_size(mask) > 0 ==> at + bpc * point_size(mask) <= d@.len(),
    ensures
        r@ == spec_point(d@, at as int, mask, bpc as int),
{
    let len = d.len();
    let b4 = bit_of(mask, 4);
    let b5 = bit_of(mask, 5);
    let b6 = bit_of(mask, 6);
    let ghost w4: int = if b4 { 1 } else { 0 };
    let ghost w5: int = if b5 { 1 } else { 0 };
    let ghost w6: int = if b6 { 1 } else { 0 };
    assert(point_size(mask) == w4 + w5 + w6);
    assert(bpc * (w4 + w5 + w6) == bpc * w4 + bpc * w5 + bpc * w6) by (nonlinear_arith);
    assert(bpc * w4 == (if b4 { bpc as int } else { 0 }) && bpc * w5 == (if b5 { bpc as int } else { 0 })
        && bpc * w6 == (if b6 { bpc as int } else { 0 })) by (nonlinear_arith)
        requires
            w4 == (if b4 { 1int } else { 0 }),
            w5 == (if b5 { 1int } else { 0 }),
            w6 == (if b6 { 1int } else { 0 }),
    ;
    let o1 = if b4 { at + bpc } else { at };
    let o2 = if b5 { o1 + bpc } else { o1 };
    let v0 = if b4 { quantized_at(d, at, bpc) } else { 0 };
    let v1 = if b5 { quantized_at(d, o1, bpc) } else { 0 };
    let v2 = if b6 { quantized_at(d, o2, bpc) } else { 0 };
    let r = vec![v0, v1, v2, 0];
    assert(r@ =~= spec_point(d@, at as int, mask, bpc as int));
    r
}

fn quantized_at(d: &[u8], at: usize, bpc: usize) -> (r: u32)
    requires
        bpc == 1 || bpc == 2,
        at + bpc <= d@.len(),
    ensures
        r == quantized(d@, at as int, bpc as int),
{
    if bpc == 1 {
        d[at] as u32
    } else {
        d[at] as u32 + 256 * (d[at + 1] as u32)
    }
}

/// Reads the knot block and the values of a curve.
fn read_curve_head(data: &mut ByteReader, mask: u8, u: u8) -> (r: Option<
    (Option<RawKnots>, Vec<u32>, Vec<u32>, Vec<u32>),
>)
    ensures
        final(data).bytes() == old(data).bytes(),
        match r {
            Some((k, s, mn, mx)) => spec_curve_head(old(data).bytes(), old(data).position(), mask, u)
                == Some(
                (
                    match k {
                        Some(k) => Some(k.view()),
                        None => None,
                    },
                    s@,
                    mn@,
                    mx@,
                    final(data).position(),
                ),
            ),
            None => spec_curve_head(old(data).bytes(), old(data).position(), mask, u) is None,
        },
{
    let knots = if mask >= 16 {
        match read_knot_block(data, u) {
            None => {
                return None;
            },
            Some(k) => Some(k),
        }
    } else {
        None
    };
    let p1 = data.cursor_position();
    if !round_up_fits(p1, 4) {
        return None;
    }
    data.align(4);
    match read_components(data, mask) {
        None => None,
        Some((s, mn, mx)) => Some((knots, s, mn, mx)),
    }
}

/// Reads the control points of a curve with knot block `k`.
#[verifier::rlimit(40)]
fn read_curve_points(data: &mut ByteReader, k: &RawKnots, mask: u8, bpc: usize) -> (r: Option<
    Vec<Vec<u32>>,
>)
    requires
        bpc == 1 || bpc == 2,
        k.p <= k.span,
        k.n <= 65535,
        k.p <= 255,
    ensures
        final(data).bytes() == old(data).bytes(),
        match r {
            Some(points) => spec_curve_points(
                old(data).bytes(),
                old(data).position(),
                k.view(),
                mask,
                bpc as int,
            ) == Some((points@.map_values(|p: Vec<u32>| p@), final(data).position())),
            None => spec_curve_points(
                old(data).bytes(),
                old(data).position(),
                k.view(),
                mask,
                bpc as int,
            ) is None,
        },
{
    let ghost d = data.bytes();
    let p3 = data.cursor_position();
    if !round_up_fits(p3, 2) {
        return None;
    }
    data.align(2);
    let p4 = data.cursor_position();
    let size: usize = (if bit_of(mask, 4) { 1 } else { 0 }) + (if bit_of(mask, 5) { 1 } else { 0 }) + (
    if bit_of(mask, 6) {
        1
    } else {
        0
    });
    assert(bpc * size <= 6) by (nonlinear_arith)
        requires
            bpc <= 2,
            size <= 3,
    ;
    let step = bpc * size;
    let start = match step.checked_mul(k.span - k.p) {
        Some(x) => x.checked_add(p4),
        None => None,
    };
    let end = match step.checked_mul(k.n + 1) {
        Some(x) => x.checked_add(p4),
        None => None,
    };
    let (start, end) = match (start, end) {
        (Some(start), Some(end)) => (start, end),
        _ => {
            return None;
        },
    };
    let count: usize = if k.p + 1 < 4 {
        k.p + 1
    } else {
        4
    };
    let len = data.len();
    assert(count * step <= 24) by (nonlinear_arith)
        requires
            count <= 4,
            step <= 6,
    ;
    if step > 0 && (start > len || count * step > len - start) {
        return None;
    }
    let all = data.all();
    let mut points: Vec<Vec<u32>> = Vec::new();
    let mut i: usize = 0;
    while i < count
        invariant
            i <= count <= 4,
            step == bpc * point_size(mask),
            bpc == 1 || bpc == 2,
            all@ == d,
            len == d.len(),
            step > 0 ==> start + count * step <= len,
            points@.len() == i,
            forall|j: int|
                0 <= j < i ==> (#[trigger] points@[j])@ == spec_point(
                    d,
                    start + j * step,
                    mask,
                    bpc as int,
                ),
        decreases count - i,
    {
        assert(step > 0 ==> start + i * step + step <= len) by (nonlinear_arith)
            requires
                step > 0 ==> start + count * step <= len,
                i < count,
        ;
        let at = if step > 0 {
            start + i * step
        } else {
            start
        };
        assert(at == start + i * step) by (nonlinear_arith)
            requires
                step > 0 ==> at == start + i * step,
                step == 0 ==> at == start,
        ;
        points.push(point_at(all, at, mask, bpc));
        i += 1;
    }
    data.seek(end - p4);
    assert(points@.map_values(|p: Vec<u32>| p@) =~= Seq::new(
        count as nat,
        |j: int| spec_point(d, start + j * step, mask, bpc as int),
    ));
    Some(points)
}

/// Reads a curve of a track (see `spec_curve`); `None` where it cannot be
/// read.
pub fn read_curve(data: &mut ByteReader, mask: u8, u: u8, bpc: usize) -> (r: Option<RawCurve>)
    requires
        bpc == 1 || bpc == 2,
    ensures
        final(data).bytes() == old(data).bytes(),
        match r {
            Some(c) => spec_curve(old(data).bytes(), old(data).position(), mask, u, bpc as int) == Some(
                (c.view(), final(data).position()),
            ),
            None => spec_curve(old(data).bytes(), old(data).position(), mask, u, bpc as int) is None,
        },
{
    let ghost d = data.bytes();
    let ghost pos0 = data.position();
    let (knots, statics, mins, maxs) = match read_curve_head(data, mask, u) {
        None => {
            return None;
        },
        Some(h) => h,
    };
    match knots {
        None => {
            let r = RawCurve { knots: None, statics, mins, maxs, points: Vec::new() };
            assert(r.view().points =~= Seq::<Seq<u32>>::empty());
            Some(r)
        },
        Some(k) => {
            proof {
                assert(spec_read_knots(d, pos0, u) is Some);
                let n = spec_u16_le(d, pos0);
                let pp = d[pos0 + 2] as int;
                lemma_find_span_range(n, pp, u, d.subrange(pos0 + 3, d.len() as int));
            }
            match read_curve_points(data, &k, mask, bpc) {
                None => None,
                Some(points) => Some(RawCurve { knots: Some(k), statics, mins, maxs, points }),
            }
        },
    }
}

/// Bisection ends inside the range it searches.
proof fn lemma_bisect_range(knots: Seq<u8>, u: u8, low: int, high: int)
    requires
        low < high,
    ensures
        low <= crate::animation::spec_bisect(knots, u, low, high) < high,
    decreases high - low,
{
    let mid = low + (high - low) / 2;
    if high - low >= 2 {
        if u < knots[mid] {
            lemma_bisect_range(knots, u, low, mid);
        } else if u >= knots[mid + 1] {
            lemma_bisect_range(knots, u, mid, high);
        }
    }
}

/// The span found is at least the degree, and at most the last control
/// point or the degree itself.
proof fn lemma_find_span_range(n: int, p: int, u: u8, knots: Seq<u8>)
    requires
        0 <= p,
        0 <= n,
        p <= n || (u <= knots[0] && u < knots[n + 1]),
    ensures
        p <= spec_find_span(n, p, u, knots),
        spec_find_span(n, p, u, knots) <= n || spec_find_span(n, p, u, knots) == p,
{
    if !(u >= knots[n + 1]) && !(u <= knots[0]) {
        lemma_bisect_range(knots, u, p, n + 1);
    }
}

/// Alignment, in bytes, of the packed rotations of scheme `q`.
pub open spec fn spec_rotation_align(q: int) -> int {
    if q == 0 || q == 5 {
        4
    } else if q == 2 || q == 4 {
        2
    } else {
        1
    }
}

/// Bytes of one packed rotation of scheme `q`.
pub open spec fn spec_rotation_size(q: int) -> int {
    if q == 0 {
        4
    } else if q == 1 {
        5
    } else if q == 2 {
        6
    } else if q == 3 {
        3
    } else if q == 4 {
        2
    } else {
        16
    }
}

/// The rotation of a track as read: none (the identity), a static one, or
/// a curve with its knot block. The packed rotations themselves are not
/// decoded.
pub enum SpecRotation {
    Identity,
    Static,
    Curve(SpecKnots),
}

/// The rotation at `pos` (see `SpecRotation`) for quantized time `u`,
/// packed with scheme `q`, and the position after it; `None` where it
/// cannot be read.
pub open spec fn spec_rotation(d: Seq<u8>, pos: int, mask: u8, u: u8, q: int) -> Option<(SpecRotation, int)> {
    let a = spec_rotation_align(q);
    let b = spec_rotation_size(q);
    if mask >= 16 {
        match spec_read_knots(d, pos, u) {
            None => None,
            Some((k, p1)) => {
                let p2 = spec_round_up(p1, a);
                let end = p2 + b * (k.n + 1);
                if p2 > usize::MAX || p2 + b * k.span > d.len() || end > usize::MAX {
                    None
                } else {
                    Some((SpecRotation::Curve(k), end))
                }
            },
        }
    } else if mask % 16 != 0 {
        let p2 = spec_round_up(pos, a);
        if p2 > d.len() || p2 + b > usize::MAX {
            None
        } else {
            Some((SpecRotation::Static, p2 + b))
        }
    } else {
        Some((SpecRotation::Identity, pos))
    }
}

/// A rotation as read.
pub enum RawRotation {
    Identity,
    Static,
    Curve(RawKnots),
}

impl RawRotation {
    pub open spec fn view(&self) -> SpecRotation {
        match self {
            RawRotation::Identity => SpecRotation::Identity,
            RawRotation::Static => SpecRotation::Static,
            RawRotation::Curve(k) => SpecRotation::Curve(k.view()),
        }
    }
}

/// Reads the rotation of a track packed with scheme `q`.
pub fn read_rotation(data: &mut ByteReader, mask: u8, u: u8, q: u8) -> (r: Option<RawRotation>)
    requires
        q <= 5,
    ensures
        final(data).bytes() == old(data).bytes(),
        match r {
            Some(rot) => spec_rotation(old(data).bytes(), old(data).position(), mask, u, q as int) == Some(
                (rot.view(), final(data).position()),
            ),
            None => spec_rotation(old(data).bytes(), old(data).position(), mask, u, q as int) is None,
        },
{
    let ghost d = data.bytes();
    let ghost pos0 = data.position();
    let quantization = RotationQuantization::from_raw(q);
    let a = quantization.align();
    let b = quantization.bytes_per_quaternion();
    assert(a == spec_rotation_align(q as int) && b == spec_rotation_size(q as int));
    if mask >= 16 {
        let k = match read_knot_block(data, u) {
            None => {
                return None;
            },
            Some(k) => k,
        };
        proof {
            let n = spec_u16_le(d, pos0);
            let pp = d[pos0 + 2] as int;
            lemma_find_span_range(n, pp, u, d.subrange(pos0 + 3, d.len() as int));
        }
        let p1 = data.cursor_position();
        if !round_up_fits(p1, a) {
            return None;
        }
        data.align(a);
        let p2 = data.cursor_position();
        let len = data.len();
        if p2 > len || k.span > (len - p2) / b || k.n + 1 > (usize::MAX - p2) / b {
            proof {
                if p2 <= len && k.span > (len - p2) / (b as int) {
                    assert(p2 + b * k.span > len) by (nonlinear_arith)
                        requires
                            k.span > (len - p2) / (b as int),
                            b > 0,
                            p2 <= len,
                    ;
                }
                if p2 <= len && k.span <= (len - p2) / (b as int) && k.n + 1 > (usize::MAX - p2) / (b as int) {
                    assert(p2 + b * (k.n + 1) > usize::MAX) by (nonlinear_arith)
                        requires
                            k.n + 1 > (usize::MAX - p2) / (b as int),
                            b > 0,
                            p2 <= usize::MAX,
                    ;
                }
            }
            return None;
        }
        assert(p2 + b * k.span <= len && p2 + b * (k.n + 1) <= usize::MAX) by (nonlinear_arith)
            requires
                k.span <= (len - p2) / (b as int),
                k.n + 1 <= (usize::MAX - p2) / (b as int),
                b > 0,
                p2 <= len,
        ;
        data.seek(b * (k.n + 1));
        Some(RawRotation::Curve(k))
    } else if mask % 16 != 0 {
        let p1 = data.cursor_position();
        if !round_up_fits(p1, a) {
            return None;
        }
        data.align(a);
        let p2 = data.cursor_position();
        if p2 > data.len() || p2 > usize::MAX - b {
            return None;
        }
        data.seek(b);
        Some(RawRotation::Static)
    } else {
        Some(RawRotation::Identity)
    }
}

/// One transform track as read: its quantization byte, the masks of its
/// translation, rotation and scale, and what was read of each (a curve for
/// a translation or scale whose mask is not zero).
pub struct SpecTrack {
    pub quantization: u8,
    pub translation_mask: u8,
    pub rotation_mask: u8,
    pub scale_mask: u8,
    pub translation: Option<SpecCurve>,
    pub rotation: SpecRotation,
    pub scale: Option<SpecCurve>,
}

/// Bytes of a quantized value of scalar scheme `q`.
pub open spec fn scalar_bytes(q: int) -> int {
    if q == 0 {
        1
    } else {
        2
    }
}

/// A translation or scale with mask `mask` at `pos`, and the position after
/// it aligned to four bytes.
pub open spec fn spec_sampled_curve(d: Seq<u8>, pos: int, mask: u8, u: u8, bpc: int) -> Option<
    (Option<SpecCurve>, int),
> {
    let read = if mask != 0 {
        match spec_curve(d, pos, mask, u, bpc) {
            None => None,
            Some((c, e)) => Some((Some(c), e)),
        }
    } else {
        Some((None::<SpecCurve>, pos))
    };
    match read {
        None => None,
        Some((c, e)) => if spec_round_up(e, 4) > usize::MAX {
            None
        } else {
            Some((c, spec_round_up(e, 4)))
        },
    }
}

/// The track whose quantization byte and masks are at `mpos` of `md` and
/// whose data is at `dpos` of `d`, and the positions after them; `None`
/// where a mask is missing, a scheme is unknown, or the data cannot be read.
#[verifier::opaque]
pub open spec fn spec_track(md: Seq<u8>, mpos: int, d: Seq<u8>, dpos: int, u: u8) -> Option<(SpecTrack, int, int)> {
    if mpos < 0 || mpos + 4 > md.len() || !valid_quantization_types(md[mpos]) {
        None
    } else {
        let packed = md[mpos];
        let tmask = md[mpos + 1];
        let rmask = md[mpos + 2];
        let smask = md[mpos + 3];
        match spec_sampled_curve(d, dpos, tmask, u, scalar_bytes(packed as int % 4)) {
            None => None,
            Some((t, p1)) => match spec_rotation(d, p1, rmask, u, (packed as int / 4) % 16) {
                None => None,
                Some((r, p2)) => if spec_round_up(p2, 4) > usize::MAX {
                    None
                } else {
                    match spec_sampled_curve(
                        d,
                        spec_round_up(p2, 4),
                        smask,
                        u,
                        scalar_bytes(packed as int / 64),
                    ) {
                        None => None,
                        Some((sc, p3)) => Some(
                            (
                                SpecTrack {
                                    quantization: packed,
                                    translation_mask: tmask,
                                    rotation_mask: rmask,
                                    scale_mask: smask,
                                    translation: t,
                                    rotation: r,
                                    scale: sc,
                                },
                                mpos + 4,
                                p3,
                            ),
                        ),
                    }
                },
            },
        }
    }
}

/// `count` tracks, one after the other.
pub open spec fn spec_tracks(md: Seq<u8>, mpos: int, d: Seq<u8>, dpos: int, u: u8, count: nat) -> Option<
    Seq<SpecTrack>,
>
    decreases count,
{
    if count == 0 {
        Some(Seq::empty())
    } else {
        match spec_track(md, mpos, d, dpos, u) {
            None => None,
            Some((t, m2, d2)) => match spec_tracks(md, m2, d, d2, u, (count - 1) as nat) {
                None => None,
                Some(rest) => Some(seq![t] + rest),
            },
        }
    }
}

/// A track as read.
pub struct RawTrack {
    pub quantization: u8,
    pub translation_mask: u8,
    pub rotation_mask: u8,
    pub scale_mask: u8,
    pub translation: Option<RawCurve>,
    pub rotation: RawRotation,
    pub scale: Option<RawCurve>,
}

impl RawTrack {
    pub open spec fn view(&self) -> SpecTrack {
        SpecTrack {
            quantization: self.quantization,
            translation_mask: self.translation_mask,
            rotation_mask: self.rotation_mask,
            scale_mask: self.scale_mask,
            translation: match self.translation {
                Some(c) => Some(c.view()),
                None => None,
            },
            rotation: self.rotation.view(),
            scale: match self.scale {
                Some(c) => Some(c.view()),
                None => None,
            },
        }
    }
}

/// Reads a translation or scale, then aligns to four bytes.
fn read_sampled_curve(data: &mut ByteReader, mask: u8, u: u8, bpc: usize) -> (r: Option<Option<RawCurve>>)
    requires
        bpc == 1 || bpc == 2,
    ensures
        final(data).bytes() == old(data).bytes(),
        match r {
            Some(c) => spec_sampled_curve(old(data).bytes(), old(data).position(), mask, u, bpc as int)
                == Some(
                (
                    match c {
                        Some(c) => Some(c.view()),
                        None => None,
                    },
                    final(data).position(),
                ),
            ),
            None => spec_sampled_curve(old(data).bytes(), old(data).position(), mask, u, bpc as int) is None,
        },
{
    let curve = if mask != 0 {
        match read_curve(data, mask, u, bpc) {
            None => {
                return None;
            },
            Some(c) => Some(c),
        }
    } else {
        None
    };
    let p = data.cursor_position();
    if !round_up_fits(p, 4) {
        return None;
    }
    data.align(4);
    Some(curve)
}

/// Reads one track: its quantization byte and masks from `mask`, its data
/// from `data`.
#[verifier::spinoff_prover]
#[verifier::rlimit(40)]
pub fn read_track(mask: &mut ByteReader, data: &mut ByteReader, u: u8) -> (r: Option<RawTrack>)
    ensures
        final(mask).bytes() == old(mask).bytes(),
        final(data).bytes() == old(data).bytes(),
        match r {
            Some(t) => spec_track(
                old(mask).bytes(),
                old(mask).position(),
                old(data).bytes(),
                old(data).position(),
                u,
            ) == Some((t.view(), final(mask).position(), final(data).position())),
            None => spec_track(
                old(mask).bytes(),
                old(mask).position(),
                old(data).bytes(),
                old(data).position(),
                u,
            ) is None,
        },
{
    let ghost md = mask.bytes();
    let ghost mpos = mask.position();
    proof {
        mask.lemma_position();
        reveal(spec_track);
    }
    let mp = mask.cursor_position();
    let mlen = mask.len();
    if mp > mlen || mlen - mp < 4 {
        return None;
    }
    let packed = mask.read();
    if !(packed % 4 <= 1 && (packed / 4) % 16 <= 5 && packed / 64 <= 1) {
        return None;
    }
    let translation_mask = mask.read();
    let rotation_mask = mask.read();
    let scale_mask = mask.read();
    let (translation_type, _, scale_type) = unpack_quantization_types(packed);
    let tbpc = translation_type.bytes_per_component();
    let sbpc = scale_type.bytes_per_component();
    assert(tbpc == scalar_bytes(packed as int % 4) && sbpc == scalar_bytes(packed as int / 64));
    let translation = match read_sampled_curve(data, translation_mask, u, tbpc) {
        None => {
            return None;
        },
        Some(c) => c,
    };
    let rotation = match read_rotation(data, rotation_mask, u, (packed / 4) % 16) {
        None => {
            return None;
        },
        Some(r) => r,
    };
    let p = data.cursor_position();
    if !round_up_fits(p, 4) {
        return None;
    }
    data.align(4);
    let scale = match read_sampled_curve(data, scale_mask, u, sbpc) {
        None => {
            return None;
        },
        Some(c) => c,
    };
    Some(
        RawTrack {
            quantization: packed,
            translation_mask,
            rotation_mask,
            scale_mask,
            translation,
            rotation,
            scale,
        },
    )
}

/// The whole-number fields of a spline-compressed animation: its track
/// count, frame and block counts, where each block's masks and data start,
/// and the packed data.
pub struct SplineLayout {
    pub number_of_transform_tracks: usize,
    pub num_frames: usize,
    pub num_blocks: usize,
    pub max_frames_per_block: usize,
    pub mask_and_quantization_size: u32,
    pub block_offsets: Vec<u32>,
    pub data: Vec<u8>,
}

/// Where the masks of block `block` start: its offset.
pub open spec fn mask_start(l: &SplineLayout, block: int) -> int {
    l.block_offsets@[block] as int
}

/// Where the data of block `block` start: its offset plus the low 31 bits
/// of the mask size.
pub open spec fn data_start(l: &SplineLayout, block: int) -> int {
    l.block_offsets@[block] + l.mask_and_quantization_size % 0x8000_0000
}

/// The tracks of block `block` at quantized time `u`: `None` where the
/// block's offsets lie outside the data or a track cannot be read.
pub open spec fn spec_block_tracks(l: &SplineLayout, block: int, u: u8) -> Option<Seq<SpecTrack>> {
    if 0 <= block < l.block_offsets@.len() && data_start(l, block) <= u32::MAX && data_start(l, block)
        <= l.data@.len() && mask_start(l, block) <= l.data@.len() {
        spec_tracks(
            l.data@.subrange(mask_start(l, block), l.data@.len() as int),
            0,
            l.data@.subrange(data_start(l, block), l.data@.len() as int),
            0,
            u,
            l.number_of_transform_tracks as nat,
        )
    } else {
        None
    }
}

impl SplineLayout {
    /// The block of frame `frame` (the last block for frames past it) and
    /// the frame's index within it; blocks overlap by one frame.
    pub fn block_of_frame(&self, frame: usize) -> (r: (usize, usize))
        requires
            self.max_frames_per_block >= 2,
            self.num_blocks >= 1,
        ensures
            r.0 == (if (frame as int) / (self.max_frames_per_block - 1) < self.num_blocks - 1 {
                (frame as int) / (self.max_frames_per_block - 1)
            } else {
                self.num_blocks - 1
            }),
            r.1 == frame - r.0 * (self.max_frames_per_block - 1),
    {
        let step = self.max_frames_per_block - 1;
        let mut block = frame / step;
        if block > self.num_blocks - 1 {
            block = self.num_blocks - 1;
        }
        assert(block * step <= frame) by (nonlinear_arith)
            requires
                block <= frame / step,
                step > 0,
        ;
        let first_frame_of_block = block * step;
        (block, frame - first_frame_of_block)
    }

    /// The tracks of block `block` at quantized time `u`; the block's
    /// offsets must lie inside the data and its tracks must be readable.
    pub fn sample_tracks(&self, block: usize, u: u8) -> (r: Vec<RawTrack>)
        requires
            spec_block_tracks(self, block as int, u) is Some,
        ensures
            spec_block_tracks(self, block as int, u) == Some(r@.map_values(|t: RawTrack| t.view())),
    {
        self.try_sample_tracks(block, u).unwrap()
    }

    /// The tracks of block `block` at quantized time `u` as
    /// [`Self::sample_tracks`] reads them; `None` where the block's offsets
    /// lie outside the data or a track cannot be read.
    pub fn try_sample_tracks(&self, block: usize, u: u8) -> (r: Option<Vec<RawTrack>>)
        ensures
            match r {
                Some(v) => block < self.block_offsets@.len() && data_start(self, block as int)
                    <= u32::MAX && data_start(self, block as int) <= self.data@.len() && mask_start(
                    self,
                    block as int,
                ) <= self.data@.len() && spec_tracks(
                    self.data@.subrange(mask_start(self, block as int), self.data@.len() as int),
                    0,
                    self.data@.subrange(data_start(self, block as int), self.data@.len() as int),
                    0,
                    u,
                    self.number_of_transform_tracks as nat,
                ) == Some(v@.map_values(|t: RawTrack| t.view())),
                None => block < self.block_offsets@.len() && data_start(self, block as int)
                    <= u32::MAX && data_start(self, block as int) <= self.data@.len() && mask_start(
                    self,
                    block as int,
                ) <= self.data@.len() ==> spec_tracks(
                    self.data@.subrange(mask_start(self, block as int), self.data@.len() as int),
                    0,
                    self.data@.subrange(data_start(self, block as int), self.data@.len() as int),
                    0,
                    u,
                    self.number_of_transform_tracks as nat,
                ) is None,
            },
    {
        if block >= self.block_offsets.len() {
            return None;
        }
        let offset = self.block_offsets[block];
        let mqs = self.mask_and_quantization_size;
        let extra = mqs & 0x7fff_ffff;
        assert(mqs & 0x7fff_ffff == mqs % 0x8000_0000) by (bit_vector);
        if offset > u32::MAX - extra || (offset + extra) as usize > self.data.len() || offset as usize
            > self.data.len() {
            return None;
        }
        let ghost md = self.data@.subrange(mask_start(self, block as int), self.data@.len() as int);
        let ghost dd = self.data@.subrange(data_start(self, block as int), self.data@.len() as int);
        let mask_bytes = crate::animation::compute_packed_nurbs_offsets(
            self.data.as_slice(),
            self.block_offsets.as_slice(),
            block,
            0x8000_0000,
        );
        let data_bytes = crate::animation::compute_packed_nurbs_offsets(
            self.data.as_slice(),
            self.block_offsets.as_slice(),
            block,
            self.mask_and_quantization_size,
        );
        let mut mask = ByteReader::new(mask_bytes);
        let mut data = ByteReader::new(data_bytes);
        let count = self.number_of_transform_tracks;
        let mut result: Vec<RawTrack> = Vec::new();
        let mut k: usize = 0;
        while k < count
            invariant
                k <= count,
                count == self.number_of_transform_tracks,
                block < self.block_offsets@.len(),
                data_start(self, block as int) <= u32::MAX,
                data_start(self, block as int) <= self.data@.len(),
                mask_start(self, block as int) <= self.data@.len(),
                md == self.data@.subrange(mask_start(self, block as int), self.data@.len() as int),
                dd == self.data@.subrange(data_start(self, block as int), self.data@.len() as int),
                mask.bytes() == md,
                data.bytes() == dd,
                spec_tracks(md, 0, dd, 0, u, count as nat) == match spec_tracks(
                    md,
                    mask.position(),
                    dd,
                    data.position(),
                    u,
                    (count - k) as nat,
                ) {
                    None => None,
                    Some(rest) => Some(result@.map_values(|t: RawTrack| t.view()) + rest),
                },
            decreases count - k,
        {
            let ghost before = result@.map_values(|t: RawTrack| t.view());
            let ghost mp0 = mask.position();
            let ghost dp0 = data.position();
            let track = match read_track(&mut mask, &mut data, u) {
                None => {
                    assert(spec_tracks(md, mp0, dd, dp0, u, (count - k) as nat) is None);
                    return None;
                },
                Some(t) => t,
            };
            let ghost tv = track.view();
            result.push(track);
            assert(result@.map_values(|t: RawTrack| t.view()) =~= before + seq![tv]);
            k += 1;
            proof {
                match spec_tracks(md, mask.position(), dd, data.position(), u, (count - k) as nat) {
                    None => {},
                    Some(rest) => {
                        assert((before + seq![tv]) + rest =~= before + (seq![tv] + rest));
                    },
                }
            }
        }
        assert(result@.map_values(|t: RawTrack| t.view()) + Seq::<SpecTrack>::empty() =~= result@.map_values(
            |t: RawTrack| t.view(),
        ));
        Some(result)
    }
}

/// The static and dynamic component masks of a curve mask: the low four
/// bits, and the components with neither a static value nor a range.
pub open spec fn spec_curve_masks(mask: u8) -> (u8, u8) {
    (mask & 0x0f, (!mask >> 4u8) & (!mask & 0x0f))
}

/// Component `j` (of the first four) of a curve is static when bit `j` of
/// its mask is set, and dynamic (given by the identity value) when neither
/// bit `j` nor bit `j + 4` (a range) is set.
pub proof fn lemma_curve_masks(mask: u8, j: u8)
    requires
        j < 4,
    ensures
        bit(spec_curve_masks(mask).0, j) == bit(mask, j),
        bit(spec_curve_masks(mask).1, j) == (!bit(mask, j) && !bit(mask, (j + 4) as u8)),
        !bit(spec_curve_masks(mask).0, (j + 4) as u8),
        !bit(spec_curve_masks(mask).1, (j + 4) as u8),
{
    let j4 = (j + 4) as u8;
    assert((((mask & 0x0f) >> j) & 1 == 1) == ((mask >> j) & 1 == 1)) by (bit_vector)
        requires
            j < 4,
    ;
    assert(((((!mask >> 4u8) & (!mask & 0x0f)) >> j) & 1 == 1) == (!((mask >> j) & 1 == 1) && !((mask >> j4)
        & 1 == 1))) by (bit_vector)
        requires
            j < 4,
            j4 == j + 4,
    ;
    assert(!((((mask & 0x0f) >> j4) & 1) == 1)) by (bit_vector)
        requires
            j < 4,
            j4 == j + 4,
    ;
    assert(!(((((!mask >> 4u8) & (!mask & 0x0f)) >> j4) & 1) == 1)) by (bit_vector)
        requires
            j < 4,
            j4 == j + 4,
    ;
}

/// The static and dynamic component masks of a curve mask.
pub fn curve_masks(mask: u8) -> (r: (u8, u8))
    ensures
        r == spec_curve_masks(mask),
{
    (mask & 0x0f, (!mask >> 4) & (!mask & 0x0f))
}

/// Fills in the components of a value: a component set in the static mask
/// takes the static value, then one set in the dynamic mask takes the value
/// given for it. Values are carried as their bits.
pub fn recompose(stat_mask: u8, dyn_mask: u8, s: &[u32], i: &[u32], in_out: &mut Vec<u32>)
    requires
        s@.len() == 4,
        i@.len() == 4,
        old(in_out)@.len() == 4,
    ensures
        final(in_out)@.len() == 4,
        forall|k: int|
            0 <= k < 4 ==> #[trigger] final(in_out)@[k] == (if bit(dyn_mask, k as u8) {
                i@[k]
            } else if bit(stat_mask, k as u8) {
                s@[k]
            } else {
                old(in_out)@[k]
            }),
{
    let mut k: u8 = 0;
    while k < 4
        invariant
            k <= 4,
            s@.len() == 4,
            in_out@.len() == 4,
            forall|j: int|
                0 <= j < 4 ==> #[trigger] in_out@[j] == (if j < k && bit(stat_mask, j as u8) {
                    s@[j]
                } else {
                    old(in_out)@[j]
                }),
        decreases 4 - k,
    {
        if bit_of(stat_mask, k) {
            in_out.set(k as usize, s[k as usize]);
        }
        k += 1;
    }
    let ghost mid = in_out@;
    let mut k: u8 = 0;
    while k < 4
        invariant
            k <= 4,
            i@.len() == 4,
            in_out@.len() == 4,
            forall|j: int|
                0 <= j < 4 ==> #[trigger] in_out@[j] == (if j < k && bit(dyn_mask, j as u8) {
                    i@[j]
                } else {
                    mid[j]
                }),
        decreases 4 - k,
    {
        if bit_of(dyn_mask, k) {
            in_out.set(k as usize, i[k as usize]);
        }
        k += 1;
    }
}

/// The integers of a sequence of values; `None` when one of them is not an
/// integer.
pub open spec fn spec_int_items(items: Seq<SpecHavokValue>) -> Option<Seq<i32>>
    decreases items.len(),
{
    if items.len() == 0 {
        Some(Seq::empty())
    } else {
        match (spec_int_items(items.drop_last()), items.last()) {
            (Some(prev), SpecHavokValue::Integer(i)) => Some(prev.push(i)),
            _ => None,
        }
    }
}

/// Once a prefix holds a non-integer, so does the whole sequence.
proof fn lemma_int_items_none(items: Seq<SpecHavokValue>, k: int)
    requires
        0 <= k <= items.len(),
        spec_int_items(items.subrange(0, k)) is None,
    ensures
        spec_int_items(items) is None,
    decreases items.len() - k,
{
    if k < items.len() {
        assert(items.subrange(0, k + 1).drop_last() =~= items.subrange(0, k));
        lemma_int_items_none(items, k + 1);
    } else {
        assert(items.subrange(0, k) =~= items);
    }
}

/// The integer member `name` of an object.
pub open spec fn spec_int_member(o: SpecObject, name: Seq<char>) -> Option<i32> {
    match spec_get(o, name) {
        Some(SpecHavokValue::Integer(i)) => Some(i),
        _ => None,
    }
}

/// The integers of the array member `name` of an object.
pub open spec fn spec_int_array_member(o: SpecObject, name: Seq<char>) -> Option<Seq<i32>> {
    match spec_get(o, name) {
        Some(SpecHavokValue::Array(items)) => spec_int_items(items),
        _ => None,
    }
}

/// The whole-number fields of a spline-compressed animation object, each
/// integer converted as `as` converts it; `None` when a member is missing or
/// not of the expected kind.
pub open spec fn spec_layout(o: SpecObject) -> Option<
    (int, int, int, int, u32, Seq<u32>, Seq<u8>),
> {
    match (
        spec_int_member(o, "numberOfTransformTracks"@),
        spec_int_member(o, "numFrames"@),
        spec_int_member(o, "numBlocks"@),
        spec_int_member(o, "maxFramesPerBlock"@),
        spec_int_member(o, "maskAndQuantizationSize"@),
        spec_int_array_member(o, "blockOffsets"@),
        spec_int_array_member(o, "data"@),
    ) {
        (Some(t), Some(f), Some(b), Some(m), Some(q), Some(offsets), Some(data)) => Some(
            (
                t as usize as int,
                f as usize as int,
                b as usize as int,
                m as usize as int,
                q as u32,
                offsets.map_values(|x: i32| x as u32),
                data.map_values(|x: i32| x as u8),
            ),
        ),
        _ => None,
    }
}

/// The integer member `name`.
fn int_member(object: &HavokObject, name: &str) -> (r: Option<i32>)
    ensures
        r == spec_int_member(object.spec_view(), name@),
{
    match object.get(&name.to_owned()) {
        Some(v) => v.as_int(),
        None => None,
    }
}

/// The integers of the array member `name`.
fn int_array_member(object: &HavokObject, name: &str) -> (r: Option<Vec<i32>>)
    ensures
        match r {
            Some(v) => spec_int_array_member(object.spec_view(), name@) == Some(v@),
            None => spec_int_array_member(object.spec_view(), name@) is None,
        },
{
    let value = match object.get(&name.to_owned()) {
        Some(v) => v,
        None => {
            return None;
        },
    };
    let items = match value.as_array() {
        Some(items) => items,
        None => {
            return None;
        },
    };
    let ghost views = values_view(items@);
    proof {
        lemma_values_view(items@);
    }
    let mut r: Vec<i32> = Vec::new();
    let mut i: usize = 0;
    while i < items.len()
        invariant
            i <= items@.len(),
            views == values_view(items@),
            spec_get(object.spec_view(), name@) == Some(SpecHavokValue::Array(views)),
            views.len() == items@.len(),
            forall|j: int| 0 <= j < items@.len() ==> views[j] == (#[trigger] items@[j]).spec_view(),
            spec_int_items(views.subrange(0, i as int)) == Some(r@),
        decreases items@.len() - i,
    {
        assert(views.subrange(0, i + 1).drop_last() =~= views.subrange(0, i as int));
        match items[i].as_int() {
            Some(x) => {
                r.push(x);
            },
            None => {
                proof {
                    lemma_int_items_none(views, i + 1);
                }
                return None;
            },
        }
        i += 1;
    }
    assert(views.subrange(0, i as int) =~= views);
    Some(r)
}

impl SplineLayout {
    /// Reads the whole-number fields of a spline-compressed animation
    /// object, whose members must be present and of the expected kind.
    pub fn new(object: &HavokObject) -> (r: SplineLayout)
        requires
            spec_layout(object.spec_view()) is Some,
        ensures
            spec_layout(object.spec_view()) == Some(
                (
                    r.number_of_transform_tracks as int,
                    r.num_frames as int,
                    r.num_blocks as int,
                    r.max_frames_per_block as int,
                    r.mask_and_quantization_size,
                    r.block_offsets@,
                    r.data@,
                ),
            ),
    {
        Self::try_new(object).unwrap()
    }

    /// Reads the whole-number fields as [`Self::new`] does; `None` when a
    /// member is missing or not of the expected kind.
    pub fn try_new(object: &HavokObject) -> (r: Option<SplineLayout>)
        ensures
            match r {
                Some(l) => spec_layout(object.spec_view()) == Some(
                    (
                        l.number_of_transform_tracks as int,
                        l.num_frames as int,
                        l.num_blocks as int,
                        l.max_frames_per_block as int,
                        l.mask_and_quantization_size,
                        l.block_offsets@,
                        l.data@,
                    ),
                ),
                None => spec_layout(object.spec_view()) is None,
            },
    {
        let t = int_member(object, "numberOfTransformTracks");
        let f = int_member(object, "numFrames");
        let b = int_member(object, "numBlocks");
        let m = int_member(object, "maxFramesPerBlock");
        let q = int_member(object, "maskAndQuantizationSize");
        let offsets = int_array_member(object, "blockOffsets");
        let data = int_array_member(object, "data");
        match (t, f, b, m, q, offsets, data) {
            (Some(t), Some(f), Some(b), Some(m), Some(q), Some(offsets), Some(data)) => {
                let mut block_offsets: Vec<u32> = Vec::new();
                let mut i: usize = 0;
                while i < offsets.len()
                    invariant
                        i <= offsets@.len(),
                        block_offsets@ == offsets@.subrange(0, i as int).map_values(|x: i32| x as u32),
                    decreases offsets@.len() - i,
                {
                    block_offsets.push(#[verifier::truncate] (offsets[i] as u32));
                    i += 1;
                    assert(block_offsets@ =~= offsets@.subrange(0, i as int).map_values(
                        |x: i32| x as u32,
                    ));
                }
                assert(offsets@.subrange(0, i as int) =~= offsets@);
                let mut bytes: Vec<u8> = Vec::new();
                let mut i: usize = 0;
                while i < data.len()
                    invariant
                        i <= data@.len(),
                        bytes@ == data@.subrange(0, i as int).map_values(|x: i32| x as u8),
                    decreases data@.len() - i,
                {
                    bytes.push(#[verifier::truncate] (data[i] as u8));
                    i += 1;
                    assert(bytes@ =~= data@.subrange(0, i as int).map_values(|x: i32| x as u8));
                }
                assert(data@.subrange(0, i as int) =~= data@);
                Some(
                    SplineLayout {
                        number_of_transform_tracks: #[verifier::truncate] (t as usize),
                        num_frames: #[verifier::truncate] (f as usize),
                        num_blocks: #[verifier::truncate] (b as usize),
                        max_frames_per_block: #[verifier::truncate] (m as usize),
                        mask_and_quantization_size: #[verifier::truncate] (q as u32),
                        block_offsets,
                        data: bytes,
                    },
                )
            },
            _ => None,
        }
    }
}

} // verus!
