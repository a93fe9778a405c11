use std::sync::Arc;

use ffxivtools::havok::{HavokObject, HavokObjectMemberType, HavokObjectType, HavokType, HavokValue};
use ffxivtools::spline::{curve_masks, recompose, RawRotation, SplineLayout, ONE_BITS};

fn layout(data: Vec<u8>, mask_size: u32) -> SplineLayout {
    SplineLayout {
        number_of_transform_tracks: 1,
        num_frames: 10,
        num_blocks: 2,
        max_frames_per_block: 4,
        mask_and_quantization_size: mask_size,
        block_offsets: vec![0, 0],
        data,
    }
}

#[test]
fn frames_to_blocks() {
    let l = layout(Vec::new(), 4);
    assert_eq!(l.block_of_frame(0), (0, 0));
    assert_eq!(l.block_of_frame(5), (1, 2));
    assert_eq!(l.block_of_frame(10), (1, 7));
}

#[test]
fn static_translation_track() {
    let mut data = vec![0x00, 0x01, 0x00, 0x00];
    data.extend_from_slice(&1.5f32.to_bits().to_le_bytes());
    let tracks = layout(data, 4).sample_tracks(0, 0);
    assert_eq!(tracks.len(), 1);
    let t = &tracks[0];
    let c = t.translation.as_ref().unwrap();
    assert!(c.knots.is_none());
    assert_eq!(c.statics, vec![1.5f32.to_bits(), 0, 0, ONE_BITS]);
    assert_eq!(c.mins, vec![0, 0, 0, ONE_BITS]);
    assert!(c.points.is_empty());
    assert!(matches!(t.rotation, RawRotation::Identity));
    assert!(t.scale.is_none());
}

#[test]
fn curve_translation_track() {
    let mut data = vec![0x00, 0x10, 0x00, 0x00];
    data.extend_from_slice(&[1, 0, 1, 0, 0, 10, 10, 0]);
    data.extend_from_slice(&(-2.0f32).to_bits().to_le_bytes());
    data.extend_from_slice(&2.0f32.to_bits().to_le_bytes());
    data.extend_from_slice(&[100, 200, 0, 0]);
    let tracks = layout(data, 4).sample_tracks(1, 5);
    let c = tracks[0].translation.as_ref().unwrap();
    let k = c.knots.as_ref().unwrap();
    assert_eq!((k.n, k.p, k.span), (1, 1, 1));
    assert_eq!(k.knots, vec![0, 10]);
    assert_eq!(c.mins[0], (-2.0f32).to_bits());
    assert_eq!(c.maxs[0], 2.0f32.to_bits());
    assert_eq!(c.points, vec![vec![100, 0, 0, 0], vec![200, 0, 0, 0]]);
}

#[test]
fn tracks_cut_short() {
    let data = vec![0x00, 0x01, 0x00, 0x00, 1, 2];
    assert!(layout(data.clone(), 4).try_sample_tracks(0, 0).is_none());
    assert!(layout(data.clone(), 4).try_sample_tracks(2, 0).is_none());
    assert!(layout(vec![0x00, 0x01], 4).try_sample_tracks(0, 0).is_none());
    let bad_scheme = vec![0x03, 0x00, 0x00, 0x00];
    assert!(layout(bad_scheme, 4).try_sample_tracks(0, 0).is_none());
}

#[test]
fn masks_and_recompose() {
    assert_eq!(curve_masks(0x13), (0x03, 0x0c));
    let mut v = vec![9, 9, 9, 9];
    recompose(0b0001, 0b0010, &[1, 2, 3, 4], &[5, 6, 7, 8], &mut v);
    assert_eq!(v, vec![1, 6, 9, 9]);
}

fn int_member(name: &str) -> HavokObjectMemberType {
    HavokObjectMemberType::new(Arc::new(name.to_string()), HavokType::from_bits(HavokType::INT).unwrap(), 0, None)
}

fn array_member(name: &str) -> HavokObjectMemberType {
    HavokObjectMemberType::new(
        Arc::new(name.to_string()),
        HavokType::from_bits(HavokType::ARRAY | HavokType::INT).unwrap(),
        0,
        None,
    )
}

#[test]
fn layout_from_object() {
    let members = vec![
        int_member("numberOfTransformTracks"),
        int_member("numFrames"),
        int_member("numBlocks"),
        int_member("maxFramesPerBlock"),
        int_member("maskAndQuantizationSize"),
        array_member("blockOffsets"),
        array_member("data"),
    ];
    let object_type = Arc::new(HavokObjectType::new(Arc::new("hkaSplineCompressedAnimation".to_string()), 0, None, members));
    let values = vec![
        HavokValue::Integer(3),
        HavokValue::Integer(76),
        HavokValue::Integer(1),
        HavokValue::Integer(256),
        HavokValue::Integer(12),
        HavokValue::Array(vec![HavokValue::Integer(0)]),
        HavokValue::Array(vec![HavokValue::Integer(1), HavokValue::Integer(300)]),
    ];
    let object = HavokObject::new(object_type.clone(), values);
    let l = SplineLayout::new(&object);
    assert_eq!(l.number_of_transform_tracks, 3);
    assert_eq!(l.num_frames, 76);
    assert_eq!(l.max_frames_per_block, 256);
    assert_eq!(l.mask_and_quantization_size, 12);
    assert_eq!(l.block_offsets, vec![0]);
    assert_eq!(l.data, vec![1, 44]);
    let missing = HavokObject::new(object_type, vec![HavokValue::Integer(3)]);
    assert!(SplineLayout::try_new(&missing).is_none());
}

#[test]
fn rotation_tracks() {
    let tracks = layout(vec![0x00, 0x00, 0x01, 0x00], 4).sample_tracks(0, 0);
    assert!(matches!(tracks[0].rotation, RawRotation::Static));

    let mut data = vec![0x04, 0x00, 0x10, 0x00];
    data.extend_from_slice(&[1, 0, 1, 0, 0, 10, 10]);
    data.extend_from_slice(&[0; 10]);
    let tracks = layout(data.clone(), 4).sample_tracks(0, 5);
    match &tracks[0].rotation {
        RawRotation::Curve(k) => {
            assert_eq!((k.n, k.p, k.span), (1, 1, 1));
            assert_eq!(k.knots, vec![0, 10]);
        }
        _ => panic!("rotation is not a curve"),
    }
    data.truncate(4 + 7 + 4);
    assert!(layout(data, 4).try_sample_tracks(0, 5).is_none());
}
