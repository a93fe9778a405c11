use ffxivtools::index::SqPackIndex;
use ffxivtools::reference::SqPackReaderError;

fn put(d: &mut Vec<u8>, at: usize, v: u32) {
    d[at..at + 4].copy_from_slice(&v.to_le_bytes());
}

/// An index with folders 10 (files 1, 5, 9) and 20 (file 7), and a folder 30
/// whose file list points past the file table.
fn sample_index() -> Vec<u8> {
    let header_length = 0x400usize;
    let file_offset = 0x800u32;
    let folder_offset = 0xa00u32;
    let mut d = vec![0u8; 0xc00];
    put(&mut d, 12, header_length as u32);
    put(&mut d, 20, 2);
    let h = header_length;
    put(&mut d, h, 300);
    put(&mut d, h + 8, file_offset);
    put(&mut d, h + 12, 4 * 16);
    put(&mut d, h + 80, 3);
    put(&mut d, h + 228, folder_offset);
    put(&mut d, h + 232, 3 * 16);
    let files = [(1u32, 10u32, 0x100u32), (5, 10, 0x200), (9, 10, 0x300), (7, 20, 0x400)];
    for (k, (file, folder, offset)) in files.iter().enumerate() {
        let at = file_offset as usize + 16 * k;
        put(&mut d, at, *file);
        put(&mut d, at + 4, *folder);
        put(&mut d, at + 8, *offset);
    }
    let folders = [(10u32, file_offset, 48u32), (20, file_offset + 48, 16), (30, file_offset + 64, 16)];
    for (k, (folder, list, size)) in folders.iter().enumerate() {
        let at = folder_offset as usize + 16 * k;
        put(&mut d, at, *folder);
        put(&mut d, at + 4, *list);
        put(&mut d, at + 8, *size);
    }
    d
}

#[test]
fn index_reads_tables() {
    let index = SqPackIndex::from_bytes(&sample_index());
    assert_eq!(index.dat_count, 3);
    assert_eq!(index.folders(), vec![10, 20, 30]);
    assert_eq!(index.files(10), Ok(vec![1, 5, 9]));
    assert_eq!(index.files(20), Ok(vec![7]));
}

#[test]
fn index_finds_offsets() {
    let index = SqPackIndex::from_bytes(&sample_index());
    assert_eq!(index.find_offset(10, 1), Ok(0x100));
    assert_eq!(index.find_offset(10, 5), Ok(0x200));
    assert_eq!(index.find_offset(10, 9), Ok(0x300));
    assert_eq!(index.find_offset(20, 7), Ok(0x400));
}

#[test]
fn index_errors() {
    let index = SqPackIndex::from_bytes(&sample_index());
    assert_eq!(index.find_offset(11, 1), Err(SqPackReaderError::NoSuchFolder));
    assert_eq!(index.find_offset(10, 7), Err(SqPackReaderError::NoSuchFile));
    assert_eq!(index.find_offset(30, 1), Err(SqPackReaderError::ReadError));
    assert_eq!(index.files(11), Err(SqPackReaderError::NoSuchFolder));
    assert_eq!(index.files(30), Err(SqPackReaderError::ReadError));
}

#[test]
fn index_refuses_short_data() {
    let d = sample_index();
    assert!(SqPackIndex::try_from_bytes(&d[..20]).is_none());
    assert!(SqPackIndex::try_from_bytes(&d[..0x400 + 299]).is_none());
    assert!(SqPackIndex::try_from_bytes(&d[..0xa00 + 47]).is_none());
}
