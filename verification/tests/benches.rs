use std::io::Read;

use aes::cipher::{BlockEncrypt, KeyInit};

use faasrail::cipher::{aes_roundtrips, encrypt, encrypt_then_decrypt};
use faasrail::compress::{gzip, gzip_report, report_sizes};
use faasrail::disk::{
    block_offset, fill_bytes, mib_bytes, random_access_plan, random_block_offset, DiskPlanError,
    SequentialWrite, MIB,
};
use faasrail::entropy::random_bytes;
use faasrail::json::json_roundtrip;
use faasrail::timer::Timer;

#[test]
fn fill_bytes_pattern() {
    let mut buf = vec![0u8; 6];
    fill_bytes(&mut buf);
    let expected: Vec<u8> = (0..6u32)
        .map(|i| ((i.wrapping_mul(131) ^ 0xA5) % 256) as u8)
        .collect();
    assert_eq!(buf, expected);
    assert_eq!(&buf[..3], &[165, 38, 163]);
}

#[test]
fn random_access_plan_layout() {
    let p = random_access_plan(4096, 2).ok().unwrap();
    assert_eq!(p.block_size, 4096);
    assert_eq!(p.total_bytes, 2 * 1024 * 1024);
    assert_eq!(p.num_blocks, 512);
    let q = random_access_plan(3000, 1).ok().unwrap();
    assert_eq!(q.num_blocks, 349);
    assert!(matches!(random_access_plan(0, 1), Err(DiskPlanError::ZeroBlockSize)));
    assert!(matches!(
        random_access_plan(1, usize::MAX / MIB + 1),
        Err(DiskPlanError::SizeOverflow)
    ));
}

#[test]
fn block_offset_multiplies_index_by_size() {
    assert_eq!(block_offset(0, 4096, 10), 0);
    assert_eq!(block_offset(3, 4096, 10), 12288);
    assert_eq!(block_offset(9, 7, 10), 63);
}

#[test]
fn random_block_offsets_stay_in_file() {
    for _ in 0..1000 {
        let off = random_block_offset(4096, 7);
        assert_eq!(off % 4096, 0);
        assert!(off + 4096 <= 7 * 4096);
    }
    assert_eq!(random_block_offset(100, 1), 0);
}

#[test]
fn sequential_write_chunks_cover_file() {
    let mut w = SequentialWrite::new(300_000, 1).ok().unwrap();
    let mut chunks = Vec::new();
    while let Some(n) = w.next_chunk() {
        chunks.push(n);
    }
    assert_eq!(chunks, vec![300_000, 300_000, 300_000, 148_576]);
    assert_eq!(chunks.iter().sum::<usize>(), MIB);
    assert_eq!(w.next_chunk(), None);
}

#[test]
fn sequential_write_edge_cases() {
    let mut empty = SequentialWrite::new(0, 0).ok().unwrap();
    assert_eq!(empty.next_chunk(), None);
    assert!(matches!(SequentialWrite::new(0, 1), Err(DiskPlanError::ZeroBlockSize)));
    let mut one = SequentialWrite::new(MIB * 4, 1).ok().unwrap();
    assert_eq!(one.next_chunk(), Some(MIB));
    assert_eq!(one.next_chunk(), None);
}

#[test]
fn random_bytes_length() {
    let v = random_bytes(1000).unwrap();
    assert_eq!(v.len(), 1000);
    assert!(v.iter().any(|&b| b != 0));
    assert!(random_bytes(0).unwrap().is_empty());
}

#[test]
fn aes_ctr_encrypts_and_decrypts() {
    let message: Vec<u8> = b"hello world! this is my plaintext.".to_vec();
    let c = encrypt(&message);
    assert_eq!(c.len(), message.len());
    assert_ne!(c, message);
    assert_eq!(encrypt(&c), message);
    assert_eq!(encrypt_then_decrypt(&message), message);
}

#[test]
fn aes_ctr_matches_known_keystream() {
    // The keystream of the fixed key and nonce, applied to zero bytes, is
    // the AES-256 encryption of the nonce block followed by its successors.
    let key = b"This is a key123This is a key123";
    let mut block = aes::cipher::generic_array::GenericArray::clone_from_slice(b"This is an IV456");
    aes::Aes256::new(key.into()).encrypt_block(&mut block);
    let c = encrypt(&vec![0u8; 16]);
    assert_eq!(&c[..], &block[..]);
}

#[test]
fn aes_roundtrips_succeed() {
    assert!(aes_roundtrips(1000, 3).unwrap());
    assert!(aes_roundtrips(0, 1).unwrap());
}

#[test]
fn gzip_output_decompresses() {
    let data: Vec<u8> = (0..5000u32).map(|i| (i % 7) as u8).collect();
    let z = gzip(&data).unwrap();
    assert_eq!(&z[..2], &[0x1f, 0x8b]);
    let mut out = Vec::new();
    flate2::read::GzDecoder::new(&z[..]).read_to_end(&mut out).unwrap();
    assert_eq!(out, data);
    let rep = gzip_report(&data).unwrap();
    assert_eq!(rep.original_size, 5000);
    assert_eq!(rep.compressed_size, z.len());
    assert!(rep.compressed_size < 5000);
}

#[test]
fn gzip_of_random_mebibyte() {
    let data = random_bytes(mib_bytes(1).unwrap()).unwrap();
    let rep = gzip_report(&data).unwrap();
    assert_eq!(rep.original_size, MIB);
    assert!(rep.compressed_size > 0);
}

#[test]
fn report_sizes_counts_both_buffers() {
    let rep = report_sizes(&vec![0u8; 9], &vec![1u8; 4]);
    assert_eq!(rep.original_size, 9);
    assert_eq!(rep.compressed_size, 4);
}

#[test]
fn mib_bytes_checks_overflow() {
    assert_eq!(mib_bytes(3), Some(3 * 1024 * 1024));
    assert_eq!(mib_bytes(0), Some(0));
    assert_eq!(mib_bytes(usize::MAX / MIB + 1), None);
}

#[test]
fn json_roundtrip_reports_length() {
    let r = json_roundtrip("{ \"a\" : [1, 2, {\"b\": null}] }").unwrap();
    assert_eq!(r.serialized_length, "{\"a\":[1,2,{\"b\":null}]}".len());
    assert_eq!(r.parsed["a"][1], serde_json::Value::from(2));
    assert!(json_roundtrip("{not json").is_err());
}

#[test]
fn timer_measures_elapsed_time() {
    let t = Timer::start();
    let a = t.elapsed();
    let mut x = 0u64;
    for i in 0..100_000u64 {
        x = x.wrapping_add(i * i);
    }
    assert!(x > 0);
    let b = t.elapsed();
    assert!(b >= a);
}
