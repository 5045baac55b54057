use wavetool::riff::{insert_vendor_chunk, locate_chunk, vendor_chunk, RiffError};

fn le32(v: u32) -> Vec<u8> {
    v.to_le_bytes().to_vec()
}

fn chunk(id: &[u8; 4], body: &[u8]) -> Vec<u8> {
    let mut c = id.to_vec();
    c.extend(le32(body.len() as u32));
    c.extend_from_slice(body);
    if body.len() % 2 == 1 {
        c.push(0);
    }
    c
}

fn container(chunks: &[Vec<u8>]) -> Vec<u8> {
    let body: Vec<u8> = chunks.concat();
    let mut w = b"RIFF".to_vec();
    w.extend(le32(body.len() as u32 + 4));
    w.extend_from_slice(b"WAVE");
    w.extend(body);
    w
}

#[test]
fn finds_the_data_chunk() {
    let w = container(&[chunk(b"fmt ", &[0u8; 16]), chunk(b"data", &[1, 2, 3, 4])]);
    assert_eq!(locate_chunk(&w, 12, *b"data", *b"data"), Some(36));
    assert_eq!(locate_chunk(&w, 12, *b"clm ", *b"data"), None);
}

#[test]
fn vendor_chunk_before_data_is_kept() {
    let w = container(&[
        chunk(b"fmt ", &[0u8; 16]),
        chunk(b"clm ", b"<!>2048 10000000"),
        chunk(b"data", &[1, 2, 3, 4]),
    ]);
    assert_eq!(vendor_chunk(&w).ok(), Some(Some(b"<!>2048 10000000".to_vec())));
}

#[test]
fn vendor_chunk_after_data_is_ignored() {
    let w = container(&[
        chunk(b"fmt ", &[0u8; 16]),
        chunk(b"data", &[1, 2, 3, 4]),
        chunk(b"clm ", b"late"),
    ]);
    assert_eq!(vendor_chunk(&w).ok(), Some(None));
}

#[test]
fn long_vendor_chunk_is_kept_whole() {
    let long: Vec<u8> = (0..200u32).map(|i| i as u8).collect();
    let w = container(&[chunk(b"clm ", &long), chunk(b"data", &[])]);
    assert_eq!(vendor_chunk(&w).ok(), Some(Some(long.clone())));
    let plain = container(&[chunk(b"fmt ", &[0u8; 16]), chunk(b"data", &[5, 6])]);
    let saved = insert_vendor_chunk(&plain, &long).ok().unwrap();
    assert_eq!(vendor_chunk(&saved).ok(), Some(Some(long)));
}

#[test]
fn truncated_vendor_chunk_is_refused() {
    let mut w = b"RIFF".to_vec();
    w.extend(le32(20));
    w.extend_from_slice(b"WAVE");
    w.extend_from_slice(b"clm ");
    w.extend(le32(50));
    w.extend_from_slice(&[1, 2, 3, 4]);
    assert_eq!(vendor_chunk(&w).err(), Some(RiffError::TruncatedChunk));
}

#[test]
fn vendor_chunk_goes_before_data() {
    let plain = container(&[chunk(b"fmt ", &[7u8; 16]), chunk(b"data", &[1, 2, 3, 4])]);
    let out = insert_vendor_chunk(&plain, &b"abc".to_vec()).ok().unwrap();
    let expected = container(&[
        chunk(b"fmt ", &[7u8; 16]),
        chunk(b"clm ", b"abc"),
        chunk(b"data", &[1, 2, 3, 4]),
    ]);
    assert_eq!(out, expected);
    assert_eq!(vendor_chunk(&out).ok(), Some(Some(b"abc".to_vec())));
}

#[test]
fn no_data_chunk_is_refused() {
    let w = container(&[chunk(b"fmt ", &[0u8; 16])]);
    assert_eq!(insert_vendor_chunk(&w, &vec![1u8]).err(), Some(RiffError::NoDataChunk));
    assert_eq!(insert_vendor_chunk(&b"RIFF".to_vec(), &vec![1u8]).err(), Some(RiffError::NoDataChunk));
}

#[test]
fn oversized_container_is_refused() {
    let mut w = container(&[chunk(b"data", &[0u8; 4])]);
    w[4..8].copy_from_slice(&le32(u32::MAX - 4));
    assert_eq!(insert_vendor_chunk(&w, &vec![1u8, 2]).err(), Some(RiffError::TooLarge));
}
