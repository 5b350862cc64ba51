use redundant_backup::block::Block;
use redundant_backup::redundancy::redun::{
    generate_key, generate_nonce, nonce_from, PartialIndexKind, RedunFile, Redundancy,
};
use redundant_backup::redundancy::{redundancy, redundancy_copy};

#[test]
fn test_redundancy() {
    let data1 = [0u8, 30, 128, 10, 84];
    let data2 = [90u8, 1, 74, 121, 3];
    let mut out = [0u8; 5];
    redundancy(&data1, &data2, &mut out);
    assert_eq!(out, [90u8, 31, 202, 115, 87]);
}

#[test]
fn test_redundancy_copy() {
    let data1 = [0u8, 30, 128, 10, 84, b'a', b'b', b'c', b'd', b'e', b'f'];
    let data2 = [90u8, 1, 74, 121, 3];
    let mut out = [0u8; 11];
    redundancy_copy(&data1, &data2, &mut out);
    assert_eq!(
        out,
        [90u8, 31, 202, 115, 87, b'a', b'b', b'c', b'd', b'e', b'f']
    );
}

#[test]
fn redundancy_copy_shorter_first() {
    let data1 = [1u8, 2];
    let data2 = [3u8, 4, 5];
    let mut out = [0u8; 3];
    redundancy_copy(&data1, &data2, &mut out);
    assert_eq!(out, [1 ^ 3, 2 ^ 4, 5]);
}

const BLOCK_SIZE: usize = 4096;

#[test]
fn test_redun_file() {
    let rfile = RedunFile::new("test_redun_file")
        .with_enc_key(&generate_key().expect("generate_key"));

    let mut blocks = vec![];

    let mut buf = vec![0u8; BLOCK_SIZE];
    let data = "I can only imagine".as_bytes();
    buf[..data.len()].copy_from_slice(data);
    let block = redundant_backup::redundancy::redun::Block::new(
        &generate_nonce().expect("generate_nonce"),
        buf,
    );
    blocks.push(block);

    let mut buf = vec![0u8; BLOCK_SIZE];
    let data = "What it will be like".as_bytes();
    buf[..data.len()].copy_from_slice(data);
    let block = redundant_backup::redundancy::redun::Block::new(
        &generate_nonce().expect("generate_nonce"),
        buf,
    );
    blocks.push(block);

    let bytes = rfile.encode_blocks(&blocks, BLOCK_SIZE);
    assert_eq!(bytes.len(), 2 * (BLOCK_SIZE + 16));
    assert_eq!(rfile.path(), "test_redun_file");
}

/// The first AES-128 block of an all-zero key and counter is a well-known
/// value, so a zero payload encrypts to it.
#[test]
fn encryption_is_aes_ctr() {
    let rfile = RedunFile::new("x").with_enc_key(&[0u8; 16]);
    let block = redundant_backup::redundancy::redun::Block::new(&[0u8; 16], vec![0u8; 16]);
    let bytes = rfile.encode_blocks(&[block], 16);
    assert_eq!(&bytes[..16], &[0u8; 16]);
    assert_eq!(
        &bytes[16..],
        &[
            0x66, 0xe9, 0x4b, 0xd4, 0xef, 0x8a, 0x2c, 0x3b, 0x88, 0x4c, 0xfa, 0x59, 0xca, 0x34,
            0x2b, 0x2e
        ]
    );
}

#[test]
fn nonce_layout() {
    let random = [9u8, 8, 7, 6, 5, 4, 3, 2];
    let nonce = nonce_from(0x1_0000_0002, 3, &random);
    // low 32 bits of the seconds (2) above the nanoseconds (3), little-endian
    assert_eq!(&nonce[..8], &[3, 0, 0, 0, 2, 0, 0, 0]);
    assert_eq!(&nonce[8..], &random);
}

#[test]
fn generated_key_and_nonce_lengths() {
    assert_eq!(generate_key().unwrap().len(), 16);
    assert_eq!(generate_nonce().unwrap().len(), 16);
}

fn sha1_abc() -> [u8; 20] {
    [
        0xa9, 0x99, 0x3e, 0x36, 0x47, 0x06, 0x81, 0x6a, 0xba, 0x3e, 0x25, 0x71, 0x78, 0x50,
        0xc2, 0x6c, 0x9c, 0xd0, 0xd8, 0x9d,
    ]
}

#[test]
fn replication_records_sha1_of_block() {
    let mut engine = Redundancy::new(8).key(&[1u8; 16]);
    let block = Block::new(3, 4, b"abc".to_vec());
    let full = engine.push(Some(block), None, &[0u8; 16]);
    assert!(!full);
    let (bytes, indices) = engine.spill();
    assert_eq!(bytes.len(), 16 + 8);
    assert_eq!(indices.len(), 1);
    let p = &indices[0];
    assert_eq!(p.id, 0);
    assert_eq!(p.len, 3);
    assert_eq!(p.hash, sha1_abc());
    match &p.kind {
        PartialIndexKind::Replication { original } => {
            assert_eq!(original.file, 3);
            assert_eq!(original.block, 4);
            assert_eq!(original.size, 3);
            assert_eq!(original.hash, sha1_abc());
        }
        _ => panic!("expected a replication"),
    }
}

/// Two ten-byte files cut into five-byte blocks: the first pair of blocks
/// gives their parity; once the right side runs out, the left block is copied.
#[test]
fn xor_recovery_scenario() {
    let l: [u8; 10] = [0x00, 0x1E, 0x80, 0x0A, 0x54, 0x61, 0x62, 0x63, 0x64, 0x65];
    let r: [u8; 5] = [0x5A, 0x01, 0x4A, 0x79, 0x03];
    let mut engine = Redundancy::new(5);
    engine.push(
        Some(Block::new(0, 0, l[..5].to_vec())),
        Some(Block::new(1, 0, r.to_vec())),
        &[0u8; 16],
    );
    engine.push(Some(Block::new(0, 1, l[5..].to_vec())), None, &[0u8; 16]);
    let (_, indices) = engine.spill();
    assert_eq!(indices.len(), 2);
    assert!(matches!(indices[0].kind, PartialIndexKind::Redundancy { .. }));
    assert!(matches!(indices[1].kind, PartialIndexKind::Replication { .. }));
    assert_eq!(indices[1].id, 1);

    let mut parity = [0u8; 5];
    redundancy_copy(&l[..5], &r, &mut parity);
    assert_eq!(parity, [0x5A, 0x1F, 0xCA, 0x73, 0x57]);
    // the lost right block comes back from the left block and the parity
    let mut back = [0u8; 5];
    redundancy(&parity, &l[..5], &mut back);
    assert_eq!(back, r);
}

#[test]
fn queue_reports_full_at_limit() {
    let mut engine = Redundancy::new(1);
    for i in 0..999 {
        assert!(!engine.push(Some(Block::new(0, i, vec![1])), None, &[0u8; 16]));
    }
    assert!(engine.push(Some(Block::new(0, 999, vec![1])), None, &[0u8; 16]));
    let (bytes, indices) = engine.spill();
    assert_eq!(indices.len(), 1000);
    assert_eq!(bytes.len(), 1000 * 17);
    assert!(engine.is_empty());
}

#[test]
fn key_holds_given_bytes() {
    let bytes: Vec<u8> = (0..16).collect();
    assert_eq!(
        redundant_backup::redundancy::redun::key_from(&bytes).to_vec(),
        bytes
    );
}
