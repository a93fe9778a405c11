use ffxivtools::data::{
    file_block_start, frame_table_start, image_sizes_start, iterate_blocks, model_sizes_start, parse_block_sizes,
    total_block_size, DefaultFrameInfo, FileHeader, FileType, ImageFrameInfo, ModelFrameInfo, SqPackData,
};
use ffxivtools::text::{bytes_eq, parse_unsigned, split_bytes};
use ffxivtools::util::{round_up, StrExt};

#[test]
fn file_types() {
    assert_eq!(FileType::from_raw(2), FileType::Default);
    assert_eq!(FileType::from_raw(3), FileType::Model);
    assert_eq!(FileType::from_raw(4), FileType::Image);
}

#[test]
fn file_header_fields() {
    let mut d = vec![0u8; 24];
    d[0] = 0x80;
    d[4] = 2;
    d[8..12].copy_from_slice(&854u32.to_le_bytes());
    d[20] = 1;
    let h = FileHeader::parse(&d);
    assert_eq!((h.header_length, h.file_type, h.uncompressed_size, h.frame_count), (0x80, 2, 854, 1));
}

#[test]
fn frame_tables() {
    let d = [1u8, 0, 0, 0, 0x10, 0, 0x20, 0, 2, 0, 0, 0, 0x30, 0, 0x40, 0];
    let frames = DefaultFrameInfo::parse_many(&d, 2);
    assert_eq!(frames[1], DefaultFrameInfo { block_offset: 2, block_size: 0x30, uncompressed_size: 0x40 });
    let mut e = vec![0u8; 40];
    e[20] = 9;
    e[36] = 3;
    let images = ImageFrameInfo::parse_many(&e, 2);
    assert_eq!(images[1].block_offset, 9);
    assert_eq!(images[1].block_count, 3);
}

#[test]
fn model_frame() {
    let mut d = vec![0u8; 184];
    d[154] = 2;
    d[156] = 3;
    d[176] = 0x34;
    d[177] = 0x12;
    d[178] = 5;
    let f = ModelFrameInfo::parse(&d);
    assert_eq!(f.total_block_count(), Some(5));
    assert_eq!(f.header(), vec![0x34, 0x12, 5, 0]);
    let mut g = ModelFrameInfo::parse(&d);
    g.block_counts[0] = 0xffff;
    assert_eq!(g.total_block_count(), None);
}

#[test]
fn block_cutting() {
    assert_eq!(parse_block_sizes(&[3, 0, 2, 0], 2), vec![3, 2]);
    let blocks = iterate_blocks(b"abcde", &[3, 2]);
    assert_eq!(blocks, vec![b"abcde".to_vec(), b"de".to_vec()]);
}

#[test]
fn data_file_names() {
    assert_eq!(SqPackData::new("sqpack/ffxiv/0a0000.win32", 0).file_path, "sqpack/ffxiv/0a0000.win32.dat0");
    assert_eq!(SqPackData::new("x", 12).file_path, "x.dat12");
}

#[test]
fn text_helpers() {
    assert_eq!(split_bytes(b"a/b//c", b'/'), vec![b"a".to_vec(), b"b".to_vec(), Vec::new(), b"c".to_vec()]);
    assert!(bytes_eq(b"abc", b"abc"));
    assert!(!bytes_eq(b"abc", b"abd"));
    assert_eq!(parse_unsigned(b"ff", 16, 0xffff_ffff), Some(255));
    assert_eq!(parse_unsigned(b"256", 10, 255), None);
    assert_eq!(round_up(5, 4), 8);
    assert_eq!(round_up(8, 4), 8);
    assert_eq!(round_up(5, 0), 5);
}

#[test]
fn null_terminated_text() {
    assert_eq!(<str as StrExt>::from_null_terminated_utf8(b"abc\0def"), Ok("abc"));
    assert_eq!(<str as StrExt>::from_null_terminated_utf8(b"\0"), Ok(""));
    assert!(<str as StrExt>::from_null_terminated_utf8(b"\xff\0").is_err());
}

#[test]
fn data_file_offsets() {
    assert_eq!(file_block_start(1000, 128, 16), 1144);
    assert_eq!(frame_table_start(1000), 1024);
    assert_eq!(model_sizes_start(1000), 1208);
    assert_eq!(image_sizes_start(1000, 3), 1084);
    assert_eq!(total_block_size(&[16, 256, 4]), 276);
    assert_eq!(total_block_size(&[]), 0);
}
