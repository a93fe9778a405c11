use ffxivtools::animation::{
    compute_packed_nurbs_offsets, find_span, read_knots, unpack_quantization_types, HavokAnimationBinding,
    HavokAnimationBlendHint, RotationQuantization, ScalarQuantization,
};
use ffxivtools::byte_reader::ByteReader;
use ffxivtools::havok::{HavokType, HavokValue};
use ffxivtools::havok_reader::HavokBinaryTagFileReader;

const SIGNATURE: [u8; 8] = [0x1e, 0x0d, 0xb0, 0xca, 0xce, 0xfa, 0x11, 0xd0];

/// A small integer in the tag file's packed form.
fn packed(v: i32) -> Vec<u8> {
    let (neg, mut m) = if v < 0 { (1u32, (-v) as u32) } else { (0, v as u32) };
    let mut first = ((m & 0x3f) << 1) | neg;
    m >>= 6;
    let mut out = Vec::new();
    if m != 0 {
        first |= 0x80;
    }
    out.push(first as u8);
    while m != 0 {
        let mut b = m & 0x7f;
        m >>= 7;
        if m != 0 {
            b |= 0x80;
        }
        out.push(b as u8);
    }
    out
}

fn string(s: &str) -> Vec<u8> {
    let mut out = packed(s.len() as i32);
    out.extend_from_slice(s.as_bytes());
    out
}

/// A file with one type `binding` (members `refs`, an array of objects of
/// class `x`, and `transformTrackToBoneIndices`, an array of integers never
/// present) and one object of it.
fn sample_file() -> Vec<u8> {
    let mut d = SIGNATURE.to_vec();
    d.extend(packed(1));
    d.extend(packed(3));
    d.extend(packed(2));
    d.extend(string("binding"));
    d.extend(packed(0));
    d.extend(packed(0));
    d.extend(packed(2));
    d.extend(string("refs"));
    d.extend(packed((HavokType::ARRAY | HavokType::OBJECT) as i32));
    d.extend(string("x"));
    d.extend(string("count"));
    d.extend(packed(HavokType::INT as i32));
    d.extend(packed(4));
    d.extend(packed(1));
    d.push(0b01);
    d.extend(packed(2));
    d.extend(packed(5));
    d.extend(packed(7));
    d.extend(packed(7));
    d
}

#[test]
fn tag_file_root_object() {
    let data = sample_file();
    let root = HavokBinaryTagFileReader::read(&data);
    match root.get(&"refs".to_string()) {
        Some(HavokValue::Array(items)) => {
            assert_eq!(items.len(), 2);
            assert!(matches!(items[0], HavokValue::ObjectReference(5)));
            assert!(matches!(items[1], HavokValue::ObjectReference(7)));
        }
        _ => panic!("refs is not an array"),
    }
    assert!(matches!(root.get(&"count".to_string()), Some(HavokValue::Integer(0))));
    assert!(root.get(&"missing".to_string()).is_none());
}

#[test]
fn tag_file_bad_signature() {
    let mut data = sample_file();
    data[0] = 0;
    assert!(HavokBinaryTagFileReader::try_read(&data).is_none());
    assert!(HavokBinaryTagFileReader::try_read(&data[..5]).is_none());
}

#[test]
fn tag_file_bad_version() {
    let mut data = SIGNATURE.to_vec();
    data.extend(packed(1));
    data.extend(packed(2));
    data.extend(packed(7));
    assert!(HavokBinaryTagFileReader::try_read(&data).is_none());
}

#[test]
fn tag_file_cut_short() {
    let data = sample_file();
    assert!(HavokBinaryTagFileReader::try_read(&data[..data.len() - 1]).is_none());
}

#[test]
fn havok_types() {
    let t = HavokType::from_bits(HavokType::ARRAY | HavokType::VEC12).unwrap();
    assert!(t.is_array());
    assert!(!t.is_tuple());
    assert!(t.is_vec());
    assert_eq!(t.vec_size(), 16);
    assert_eq!(t.base_type().bits, HavokType::VEC12);
    assert!(HavokType::from_bits(0x40).is_none());
    assert_eq!(HavokType::from_bits(HavokType::VEC8).unwrap().vec_size(), 8);
}

#[test]
fn binding_needs_its_members() {
    let data = sample_file();
    let root = HavokBinaryTagFileReader::read(&data);
    assert!(HavokAnimationBinding::try_new(&root).is_none());
}

#[test]
fn blend_hints() {
    assert!(matches!(HavokAnimationBlendHint::from_raw(0), HavokAnimationBlendHint::Normal));
    assert!(matches!(HavokAnimationBlendHint::from_raw(1), HavokAnimationBlendHint::Additive));
}

#[test]
fn quantizations() {
    let (t, r, s) = unpack_quantization_types(0b01_0010_00);
    assert!(matches!(t, ScalarQuantization::BITS8));
    assert!(matches!(r, RotationQuantization::THREECOMP48));
    assert!(matches!(s, ScalarQuantization::BITS16));
    assert_eq!(RotationQuantization::from_raw(1).bytes_per_quaternion(), 5);
    assert_eq!(RotationQuantization::from_raw(5).align(), 4);
    assert_eq!(ScalarQuantization::from_raw(1).bytes_per_component(), 2);
}

#[test]
fn spans() {
    let knots = [0u8, 0, 0, 10, 20, 30, 30, 30];
    assert_eq!(find_span(4, 2, 5, &knots), 2);
    assert_eq!(find_span(4, 2, 10, &knots), 3);
    assert_eq!(find_span(4, 2, 25, &knots), 4);
    assert_eq!(find_span(4, 2, 30, &knots), 4);
    assert_eq!(find_span(4, 2, 0, &knots), 2);
}

#[test]
fn nurbs_offsets() {
    let base: Vec<u8> = (0..32).collect();
    assert_eq!(compute_packed_nurbs_offsets(&base, &[4, 8], 1, 0x8000_0002), &base[10..]);
    assert_eq!(compute_packed_nurbs_offsets(&base, &[4, 8], 0, 0x8000_0000), &base[4..]);
}

#[test]
fn degree_above_last_point_before_first_knot() {
    let knots = [5u8, 5, 5, 9, 9];
    assert_eq!(find_span(1, 3, 2, &knots), 3);
    let data = [1u8, 0, 3, 5, 5, 5, 9, 9, 9, 9];
    let mut reader = ByteReader::new(&data);
    let (n, p, shifted, span) = read_knots(&mut reader, 2);
    assert_eq!((n, p, span), (1, 3, 3));
    assert_eq!(shifted, vec![5, 5, 9, 9, 9, 9]);
    assert_eq!(reader.cursor_position(), 9);
}
