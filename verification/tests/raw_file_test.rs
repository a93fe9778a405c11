use ffxivtools::raw_file::{get_block_size, ExtractedSqPackRawFile, SqPackRawFile};

fn stored_block(data: &[u8]) -> Vec<u8> {
    let mut b = Vec::new();
    b.extend_from_slice(&16u32.to_le_bytes());
    b.extend_from_slice(&0u32.to_le_bytes());
    b.extend_from_slice(&32000u32.to_le_bytes());
    b.extend_from_slice(&(data.len() as u32).to_le_bytes());
    b.extend_from_slice(data);
    b
}

fn deflated_block() -> Vec<u8> {
    let deflated = [203u8, 72, 205, 201, 201, 87, 200, 64, 144, 0];
    let mut b = Vec::new();
    b.extend_from_slice(&16u32.to_le_bytes());
    b.extend_from_slice(&0u32.to_le_bytes());
    b.extend_from_slice(&(deflated.len() as u32).to_le_bytes());
    b.extend_from_slice(&17u32.to_le_bytes());
    b.extend_from_slice(&deflated);
    b
}

#[test]
fn block_sizes() {
    assert_eq!(get_block_size(&stored_block(b"abc")), 19);
    assert_eq!(get_block_size(&deflated_block()), 26);
}

#[test]
fn decoded_stored_blocks() {
    let file = SqPackRawFile::from_blocks(6, b"HD".to_vec(), vec![stored_block(b"abc"), stored_block(b"def")]);
    assert_eq!(file.try_into_decoded(), Some(b"HDabcdef".to_vec()));
}

#[test]
fn decoded_deflated_block() {
    let file = SqPackRawFile::from_blocks(17, Vec::new(), vec![deflated_block()]);
    assert_eq!(file.try_into_decoded(), Some(b"hello hello hello".to_vec()));
}

#[test]
fn decoded_block_cut_short() {
    let mut block = deflated_block();
    block.truncate(20);
    let file = SqPackRawFile::from_blocks(17, Vec::new(), vec![block]);
    assert_eq!(file.try_into_decoded(), None);
    let mut stored = stored_block(b"abc");
    stored.truncate(18);
    let file = SqPackRawFile::from_blocks(3, Vec::new(), vec![stored]);
    assert_eq!(file.try_into_decoded(), None);
}

#[test]
fn compressed_layout() {
    let file = SqPackRawFile::from_blocks(3, Vec::new(), vec![stored_block(b"abc")]);
    let bytes = file.into_compressed();
    let mut expected = vec![3, 0, 0, 0, 0, 0, 0, 0, 1, 0, 0, 0];
    expected.extend_from_slice(&stored_block(b"abc"));
    expected.push(0);
    assert_eq!(bytes, expected);
}

#[test]
fn compressed_roundtrip() {
    let file = SqPackRawFile::from_blocks(20, Vec::new(), vec![stored_block(b"abc"), deflated_block()]);
    let bytes = file.into_compressed();
    let again = SqPackRawFile::from_compressed_file(&bytes);
    assert_eq!(again.try_into_decoded(), Some(b"abchello hello hello".to_vec()));
    let again = SqPackRawFile::from_compressed_file(&bytes);
    assert_eq!(again.into_compressed(), bytes);
}

#[test]
fn compressed_file_cut_short() {
    let file = SqPackRawFile::from_blocks(3, Vec::new(), vec![stored_block(b"abc")]);
    let bytes = file.into_compressed();
    assert!(SqPackRawFile::try_from_compressed_file(&bytes[..8]).is_none());
    assert!(SqPackRawFile::try_from_compressed_file(&bytes[..20]).is_none());
}

#[test]
fn extracted_roundtrip() {
    let file = SqPackRawFile::from_blocks(3, Vec::new(), vec![stored_block(b"abc")]);
    let bytes = file.into_extracted();
    let again = SqPackRawFile::from_extracted_file(bytes);
    assert_eq!(again.try_into_decoded(), Some(b"abc".to_vec()));
}

#[test]
fn decoded_whole_file() {
    let file = SqPackRawFile::from_blocks(20, b"HD".to_vec(), vec![stored_block(b"abc"), deflated_block()]);
    assert_eq!(file.into_decoded(), b"HDabchello hello hello".to_vec());
}

#[test]
fn block_of_reserved_type_is_refused() {
    // A final block whose type bits give the reserved type 3.
    let mut block = Vec::new();
    block.extend_from_slice(&16u32.to_le_bytes());
    block.extend_from_slice(&0u32.to_le_bytes());
    block.extend_from_slice(&2u32.to_le_bytes());
    block.extend_from_slice(&4u32.to_le_bytes());
    block.extend_from_slice(&[0x07, 0x00]);
    let file = SqPackRawFile::from_blocks(4, Vec::new(), vec![block]);
    assert_eq!(file.try_into_decoded(), None);
}

#[test]
fn long_block_is_cut_when_written() {
    let mut block = stored_block(b"abc");
    block.extend_from_slice(b"junk");
    let bytes = SqPackRawFile::from_blocks(3, Vec::new(), vec![block]).into_compressed();
    assert_eq!(bytes.len(), 12 + 20);
    let again = SqPackRawFile::from_compressed_file(&bytes);
    let exact = SqPackRawFile::from_blocks(3, Vec::new(), vec![stored_block(b"abc")]).into_compressed();
    assert_eq!(again.into_compressed(), exact);
    assert_eq!(SqPackRawFile::from_compressed_file(&bytes).into_decoded(), b"abc".to_vec());
}
