use ffxivtools::reference::{
    index_file_archive, is_archive_dir, SqPackArchiveId, SqPackFileHash, SqPackFileReference, SqPackReaderError,
};

fn id(root: u8, ex: u8, part: u8) -> SqPackArchiveId {
    SqPackArchiveId { root, ex, part }
}

#[test]
fn archive_of_exd_path() {
    assert_eq!(SqPackArchiveId::try_from_file_path("exd/item.exh"), Some(id(10, 0, 0)));
}

#[test]
fn archive_of_every_root() {
    let roots = [
        "common", "bgcommon", "bg", "cut", "chara", "shader", "ui", "sound", "vfx", "ui_script", "exd",
        "game_script", "music",
    ];
    for (index, root) in roots.iter().enumerate() {
        let path = if *root == "bg" || *root == "cut" || *root == "music" {
            format!("{}/ffxiv/x/file", root)
        } else {
            format!("{}/file", root)
        };
        assert_eq!(SqPackArchiveId::try_from_file_path(&path), Some(id(index as u8, 0, 0)), "{}", path);
    }
}

#[test]
fn archive_of_expansion_paths() {
    assert_eq!(SqPackArchiveId::try_from_file_path("bg/ex1/01_roc_r2/twn/r2t1/level/bg.lgb"), Some(id(2, 1, 1)));
    assert_eq!(SqPackArchiveId::try_from_file_path("bg/ex2/05_xyz/a.lvb"), Some(id(2, 2, 5)));
    assert_eq!(SqPackArchiveId::try_from_file_path("bg/ex3/xx_zone/a.lvb"), Some(id(2, 3, 0)));
    assert_eq!(SqPackArchiveId::try_from_file_path("bg/ffxiv/sea_s1/a.lvb"), Some(id(2, 0, 0)));
    assert_eq!(SqPackArchiveId::try_from_file_path("cut/ex2/01_a/b.cutb"), Some(id(3, 2, 0)));
    assert_eq!(SqPackArchiveId::try_from_file_path("music/ex4/bgm.scd"), Some(id(12, 4, 0)));
}

#[test]
fn archive_of_bad_paths() {
    assert_eq!(SqPackArchiveId::try_from_file_path("unknown/file"), None);
    assert_eq!(SqPackArchiveId::try_from_file_path("bg"), None);
    assert_eq!(SqPackArchiveId::try_from_file_path("bg/exx/a"), None);
    assert_eq!(SqPackArchiveId::try_from_file_path("bg/ex1"), None);
    assert_eq!(SqPackArchiveId::try_from_file_path("bg/ex1/1x_zone/a"), None);
    assert_eq!(SqPackArchiveId::try_from_file_path("bg/ex1/1"), None);
    assert_eq!(SqPackArchiveId::try_from_file_path("bg/ex1/\u{0663}\u{0663}/a"), None);
    assert_eq!(SqPackArchiveId::try_from_file_path("bg/ex1/\u{00e9}t\u{00e9}/a"), Some(id(2, 1, 0)));
}

#[test]
fn archive_of_index_file_names() {
    assert_eq!(SqPackArchiveId::try_from_sqpack_file_name("0a0000.win32.index"), Some(id(10, 0, 0)));
    assert_eq!(SqPackArchiveId::try_from_sqpack_file_name("020104.win32.dat0"), Some(id(2, 1, 4)));
    assert_eq!(SqPackArchiveId::try_from_sqpack_file_name("0c0300"), Some(id(12, 3, 0)));
    assert_eq!(SqPackArchiveId::try_from_sqpack_file_name("zz.index"), None);
    assert_eq!(SqPackArchiveId::try_from_sqpack_file_name(".index"), None);
}

#[test]
fn hash_of_item_exh() {
    let hash = SqPackFileHash::new("exd/item.exh");
    assert_eq!(hash.path, 0xb118d1a9);
    assert_eq!(hash.folder, 0xe39b7999);
    assert_eq!(hash.file, 0xdebb8979);
}

#[test]
fn hash_of_model_path() {
    let hash = SqPackFileHash::new("chara/accessory/a0001/model/c0101a0001_ear.mdl");
    assert_eq!(hash.path, 0x2245e53d);
    assert_eq!(hash.folder, 0xc9bc76b4);
    assert_eq!(hash.file, 0xe78f98da);
}

#[test]
fn hash_needs_a_folder() {
    assert_eq!(SqPackFileHash::try_new("item.exh"), None);
}

#[test]
fn hash_from_raw_keeps_fields() {
    let hash = SqPackFileHash::from_raw_hash(1, 2, 3);
    assert_eq!((hash.path, hash.folder, hash.file), (1, 2, 3));
}

#[test]
fn reference_ignores_ascii_case() {
    let lower = SqPackFileReference::new("exd/item.exh");
    let upper = SqPackFileReference::new("EXD/Item.EXH");
    assert_eq!(lower, upper);
    assert_eq!(lower.archive_id, id(10, 0, 0));
    assert_eq!(lower.hash, SqPackFileHash::new("exd/item.exh"));
}

#[test]
fn reference_of_bad_paths() {
    assert_eq!(SqPackFileReference::try_new("nowhere/file"), None);
    assert_eq!(SqPackFileReference::try_new("exd"), None);
}

#[test]
fn error_messages() {
    assert_eq!(SqPackReaderError::NoSuchFolder.to_string(), "No such folder");
    assert_eq!(SqPackReaderError::NoSuchFile.to_string(), "No such file");
    assert_eq!(SqPackReaderError::ReadError.to_string(), "Read error");
}

#[test]
fn part_numbers() {
    assert_eq!(SqPackArchiveId::part_number(b"03_zone", true), Some(3));
    assert_eq!(SqPackArchiveId::part_number(b"03_zone", false), Some(0));
    assert_eq!(SqPackArchiveId::part_number(b"", true), Some(0));
    assert_eq!(SqPackArchiveId::part_number(b"3", true), None);
    assert_eq!(SqPackArchiveId::part_number(b"3x", true), None);
}

#[test]
fn hash_from_checksums() {
    let hash = SqPackFileHash::from_checksums(0x4ee72e56, 0x1c648666, 0x21447686);
    assert_eq!(hash, SqPackFileHash::new("exd/item.exh"));
}

#[test]
fn archive_directories() {
    assert!(is_archive_dir("ffxiv"));
    assert!(is_archive_dir("ex1"));
    assert!(!is_archive_dir("boot"));
    assert!(!is_archive_dir("e"));
}

#[test]
fn index_files_name_their_archive() {
    assert_eq!(
        index_file_archive("0a0000.win32.index"),
        Some(SqPackArchiveId { root: 10, ex: 0, part: 0 })
    );
    assert_eq!(
        index_file_archive("020301.win32.index"),
        Some(SqPackArchiveId { root: 2, ex: 3, part: 1 })
    );
    assert_eq!(index_file_archive("0a0000.win32.dat0"), None);
    assert_eq!(index_file_archive("0a0000.win32.index2"), None);
    assert_eq!(SqPackArchiveId::try_from_sqpack_file_name("readme.index"), None);
}

#[test]
fn hash_is_the_ieee_crc32() {
    // The check value of CRC-32 (IEEE) is 0xcbf43926 for "123456789".
    let hash = SqPackFileHash::new("a/123456789");
    assert_eq!(hash.file, !0xcbf4_3926u32);
}
