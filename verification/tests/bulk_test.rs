use ffxivtools::bulk::{bulk_body, bulk_paths, parse_bulk_request, parse_bulk_response, push_bulk_item};
use ffxivtools::provider::{ExtractedFileProviderLocal, ExtractedFileProviderWeb};
use ffxivtools::reference::{SqPackFileHash, SqPackFileReference};

fn hash(folder: u32, file: u32, path: u32) -> SqPackFileHash {
    SqPackFileHash::from_raw_hash(path, folder, file)
}

#[test]
fn bulk_paths_are_hex_triples() {
    let hashes = vec![hash(0xe39b7999, 0xdebb8979, 0xb118d1a9), hash(0, 10, 255)];
    let text = bulk_paths(&hashes);
    assert_eq!(String::from_utf8(text).unwrap(), "e39b7999-debb8979-b118d1a9.0-a-ff");
}

#[test]
fn bulk_request_roundtrip() {
    let hashes = vec![hash(1, 2, 3), hash(0xffffffff, 0, 0x1234abcd)];
    let text = bulk_paths(&hashes);
    assert_eq!(parse_bulk_request(&text), Some(hashes));
}

#[test]
fn bulk_request_accepts_upper_case_and_plus() {
    assert_eq!(parse_bulk_request(b"A-b-C"), Some(vec![hash(10, 11, 12)]));
    assert_eq!(parse_bulk_request(b"+1-2-3"), Some(vec![hash(1, 2, 3)]));
}

#[test]
fn bulk_request_refuses_bad_names() {
    assert_eq!(parse_bulk_request(b""), None);
    assert_eq!(parse_bulk_request(b"1-2"), None);
    assert_eq!(parse_bulk_request(b"1-2-3-4"), None);
    assert_eq!(parse_bulk_request(b"1-2-g"), None);
    assert_eq!(parse_bulk_request(b"1-2-3."), None);
    assert_eq!(parse_bulk_request(b"1-2-100000000"), None);
}

#[test]
fn bulk_body_layout() {
    let mut out = Vec::new();
    push_bulk_item(&mut out, &hash(1, 2, 3), b"xyz");
    assert_eq!(out, vec![1, 0, 0, 0, 2, 0, 0, 0, 3, 0, 0, 0, 3, 0, 0, 0, b'x', b'y', b'z']);
}

#[test]
fn bulk_body_roundtrip() {
    let files = vec![(hash(1, 2, 3), b"hello".to_vec()), (hash(4, 5, 6), Vec::new()), (hash(7, 8, 9), vec![0; 40])];
    let body = bulk_body(&files);
    assert_eq!(body.len(), 16 * 3 + 5 + 0 + 40);
    assert_eq!(parse_bulk_response(&body, 3), Some(files.clone()));
    assert_eq!(parse_bulk_response(&body, 2), Some(files[..2].to_vec()));
    assert_eq!(ExtractedFileProviderWeb::read_bulk_response(&body, 3), Some(files));
}

#[test]
fn bulk_response_cut_short() {
    let files = vec![(hash(1, 2, 3), b"hello".to_vec())];
    let body = bulk_body(&files);
    assert_eq!(parse_bulk_response(&body[..body.len() - 1], 1), None);
    assert_eq!(parse_bulk_response(&body[..10], 1), None);
    assert_eq!(parse_bulk_response(&body, 2), None);
    assert_eq!(parse_bulk_response(&[], 0), Some(Vec::new()));
}

#[test]
fn web_uris() {
    let provider = ExtractedFileProviderWeb::new("https://example.net/compressed/");
    assert_eq!(provider.fetch_uri(&hash(12, 345, 6789)), "https://example.net/compressed/12/345/6789");
    let r1 = SqPackFileReference::new("exd/item.exh");
    let r2 = SqPackFileReference { archive_id: r1.archive_id, hash: hash(0, 1, 2) };
    assert_eq!(
        provider.bulk_uri(&[r1, r2]),
        "https://example.net/compressed/bulk/e39b7999-debb8979-b118d1a9.0-1-2"
    );
}

#[test]
fn local_paths() {
    let provider = ExtractedFileProviderLocal::with_path("/data/kor_505");
    assert_eq!(provider.base_dirs(), &vec!["/data/kor_505".to_string()]);
    assert_eq!(ExtractedFileProviderLocal::relative_path(&hash(3818617241, 3736832377, 1)), "3818617241/3736832377");
    let both = ExtractedFileProviderLocal::with_paths(vec!["a".to_string(), "b".to_string()]);
    assert_eq!(both.base_dirs().len(), 2);
}
