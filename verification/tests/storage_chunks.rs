use qurb::bench::{
    check_chunk, fixed_hashes, human, index_cost, ingest, reassemble, stored_bytes, survived,
    sweep_cuts, sweep_file, WriteStats, FIXED_BLOCK,
};
use qurb::probe::{
    binding_request, mapped_address, transaction, verdict, ReplyError, Verdict,
};
use qurb::signal::message::{IpAddr, SocketAddr};
use qurb::storage::cas::{hash_named, parse_hash, Cas};
use qurb::storage::chunker::{chunk_bytes, MAX_CHUNK};
use qurb::storage::error::Error;
use qurb::storage::sealing::{open, seal, ChunkKey};

/// Deterministic, non-periodic test bytes.
fn pseudo_random(seed: u32, len: usize) -> Vec<u8> {
    let mut out = Vec::with_capacity(len);
    let mut x = seed | 1;
    for _ in 0..len {
        x ^= x << 13;
        x ^= x >> 17;
        x ^= x << 5;
        out.push(x as u8);
    }
    out
}

#[test]
fn empty_input_produces_no_chunks() {
    let m = chunk_bytes(b"");
    assert_eq!(m.size, 0);
    assert!(m.chunks.is_empty());
}

#[test]
fn chunks_cover_the_input_exactly_once() {
    let data = pseudo_random(1, 5_000_000);
    let m = chunk_bytes(&data);

    let mut expected_offset = 0u64;
    for c in &m.chunks {
        assert_eq!(c.offset, expected_offset, "chunks must be contiguous");
        expected_offset += c.len as u64;
    }
    assert_eq!(expected_offset, data.len() as u64, "chunks must cover the whole input");
}

#[test]
fn insertion_leaves_distant_chunks_untouched() {
    // The property that justifies content-defined chunking at all.
    let data = pseudo_random(2, 8_000_000);
    let mut shifted = vec![0xAAu8];
    shifted.extend_from_slice(&data);

    let before: std::collections::HashSet<_> =
        chunk_bytes(&data).chunks.iter().map(|c| c.hash).collect();
    let after: std::collections::HashSet<_> =
        chunk_bytes(&shifted).chunks.iter().map(|c| c.hash).collect();

    let reused = before.intersection(&after).count();
    let pct = reused as f64 / before.len() as f64;
    assert!(pct > 0.8, "expected most chunks to survive an insertion, got {:.1}%", pct * 100.0);
}

#[test]
fn every_chunk_has_its_hash_and_fits() {
    let data = pseudo_random(3, 6_000_000);
    let m = chunk_bytes(&data);
    assert_eq!(&m.file_hash, blake3::hash(&data).as_bytes());
    assert!(m.chunks.len() > 1);
    for c in &m.chunks {
        let bytes = &data[c.offset as usize..c.offset as usize + c.len as usize];
        assert_eq!(&c.hash, blake3::hash(bytes).as_bytes());
        assert!(c.len <= MAX_CHUNK);
    }
}

#[test]
fn round_trip_compressible() {
    let key = ChunkKey::generate();
    let data = vec![b'a'; 100_000];
    let sealed = seal(&key, &data).unwrap();
    assert!(sealed.len() < data.len(), "repetitive data should compress");
    assert_eq!(open(&key, &sealed, "test").unwrap(), data);
}

#[test]
fn round_trip_incompressible() {
    let key = ChunkKey::generate();
    let data = pseudo_random(4, 100_000);

    let sealed = seal(&key, &data).unwrap();
    assert_eq!(sealed[5] & 1, 0, "random data must not be stored compressed");
    assert_eq!(open(&key, &sealed, "test").unwrap(), data);
}

#[test]
fn round_trip_empty() {
    let key = ChunkKey::generate();
    let sealed = seal(&key, b"").unwrap();
    assert_eq!(open(&key, &sealed, "test").unwrap(), Vec::<u8>::new());
}

#[test]
fn wrong_key_is_rejected() {
    let sealed = seal(&ChunkKey::generate(), b"secret").unwrap();
    assert!(matches!(
        open(&ChunkKey::generate(), &sealed, "test"),
        Err(Error::Decrypt { .. })
    ));
}

#[test]
fn tampering_with_ciphertext_is_detected() {
    let key = ChunkKey::generate();
    let mut sealed = seal(&key, b"hello world").unwrap();
    let last = sealed.len() - 1;
    sealed[last] ^= 0xFF;
    assert!(matches!(open(&key, &sealed, "test"), Err(Error::Decrypt { .. })));
}

#[test]
fn tampering_with_the_header_is_detected() {
    // The header is not encrypted, so it must at least be authenticated:
    // flipping the compression flag has to fail rather than mis-decode.
    let key = ChunkKey::generate();
    let mut sealed = seal(&key, &vec![b'a'; 10_000]).unwrap();
    sealed[5] ^= 1;
    assert!(matches!(open(&key, &sealed, "test"), Err(Error::Decrypt { .. })));
}

#[test]
fn nonces_differ_between_seals() {
    let key = ChunkKey::generate();
    let a = seal(&key, b"same input").unwrap();
    let b = seal(&key, b"same input").unwrap();
    assert_ne!(a, b, "nonce reuse would be catastrophic for this cipher");
}

#[test]
fn truncated_input_is_rejected() {
    let key = ChunkKey::generate();
    let sealed = seal(&key, b"hello").unwrap();
    assert!(matches!(
        open(&key, &sealed[..10], "test"),
        Err(Error::ChunkFormat { .. })
    ));
}

#[test]
fn a_payload_that_is_none_of_ours_is_told_apart() {
    let key = ChunkKey::from_bytes([1; 32]);
    let mut sealed = seal(&key, b"hello").unwrap();
    sealed[4] = 9;
    assert_eq!(
        open(&key, &sealed, "h"),
        Err(Error::ChunkFormat {
            hash: "h".to_string(),
            detail: "unsupported format version 9".to_string(),
        })
    );
    sealed[0] = 0;
    assert_eq!(
        open(&key, &sealed, "h"),
        Err(Error::ChunkFormat { hash: "h".to_string(), detail: "bad magic".to_string() })
    );
    assert_eq!(
        open(&key, &[1, 2, 3], "h").unwrap_err().to_string(),
        "unrecognised chunk format in h: truncated: 3 bytes, need at least 32"
    );
}

#[test]
fn a_chunk_lies_in_the_directory_of_its_first_byte() {
    let cas = Cas::new("/store/chunks");
    assert_eq!(cas.root(), "/store/chunks");
    let name = "ab".repeat(32);
    assert_eq!(cas.path_for(&[0xAB; 32]), format!("/store/chunks/ab/{name}"));
    assert_eq!(cas.temp_for(&[0xAB; 32]), format!("/store/chunks/ab/.{name}.tmp"));
    assert_eq!(parse_hash(&name), Ok([0xAB; 32]));
    assert_eq!(parse_hash("ab"), Err(()));
    assert_eq!(parse_hash(&"zz".repeat(32)), Err(()));
}

#[test]
fn storing_counts_what_was_new() {
    let block = pseudo_random(5, 3_000_000);
    let m = chunk_bytes(&block);
    let n = m.chunks.len() as u64;
    let all = m.distinct_chunks();
    assert_eq!(all.len() as u64, n);
    assert_eq!(
        ingest(&m, &Vec::new()),
        WriteStats { written: n, deduped: 0, bytes_written: 3_000_000, bytes_deduped: 0 }
    );
    assert_eq!(
        ingest(&m, &all),
        WriteStats { written: 0, deduped: n, bytes_written: 0, bytes_deduped: 3_000_000 }
    );
    assert_eq!(survived(&all, &all), all.len());
    assert_eq!(survived(&all, &all[1..].to_vec()), all.len() - 1);
}

#[test]
fn a_file_is_rebuilt_or_refused() {
    let data = pseudo_random(6, 2_000_000);
    let m = chunk_bytes(&data);
    let mut read: Vec<Vec<u8>> = m
        .chunks
        .iter()
        .map(|c| data[c.offset as usize..c.offset as usize + c.len as usize].to_vec())
        .collect();
    assert_eq!(reassemble(&m, &read), Ok(data.clone()));
    read[0][0] ^= 1;
    assert!(reassemble(&m, &read).unwrap_err().contains("failed integrity check"));
    read[0][0] ^= 1;
    let mut wrong = chunk_bytes(&data);
    wrong.file_hash = [0; 32];
    assert!(reassemble(&wrong, &read).unwrap_err().starts_with("reassembled file hash mismatch"));
    let mut short = chunk_bytes(&data);
    short.chunks[0].len -= 1;
    assert!(reassemble(&short, &read).unwrap_err().ends_with("has wrong length"));
    assert_eq!(check_chunk(blake3::hash(b"x").as_bytes(), b"x"), Ok(()));
}

#[test]
fn static_blocks_are_hashed_one_by_one() {
    assert!(fixed_hashes(&[]).is_empty());
    let data = vec![7u8; FIXED_BLOCK + 5];
    let hashes = fixed_hashes(&data);
    assert_eq!(hashes.len(), 2);
    assert_eq!(&hashes[0], blake3::hash(&data[..FIXED_BLOCK]).as_bytes());
    assert_eq!(&hashes[1], blake3::hash(&data[FIXED_BLOCK..]).as_bytes());
    // Blocks that are the same count once.
    assert_eq!(fixed_hashes(&vec![0u8; 2 * FIXED_BLOCK]).len(), 1);
}

#[test]
fn a_sweep_counts_every_chunk_and_stores_each_once() {
    let data = pseudo_random(3, 600_000);
    let mut seen = Vec::new();
    let n = sweep_file(&mut seen, &data, 16 << 10, 64 << 10, 256 << 10);
    assert_eq!(seen.len() as u64, n);
    assert!(n > 1);
    assert_eq!(stored_bytes(&seen), 600_000);
    // The same data again adds chunks to the count, and nothing to store.
    assert_eq!(sweep_file(&mut seen, &data, 16 << 10, 64 << 10, 256 << 10), n);
    assert_eq!(seen.len() as u64, n);
    assert_eq!(stored_bytes(&seen), 600_000);
    assert_eq!(sweep_file(&mut seen, &[], 16 << 10, 64 << 10, 256 << 10), 0);

    let mut seen = Vec::new();
    sweep_cuts(&mut seen, b"ababc", &vec![(0, 2), (2, 2), (4, 1)]);
    let hash = |b: &[u8]| *blake3::hash(b).as_bytes();
    assert_eq!(seen, vec![(hash(b"ab"), 2), (hash(b"c"), 1)]);
    assert_eq!(stored_bytes(&seen), 3);
}

#[test]
fn only_hexadecimal_digits_name_a_chunk() {
    assert_eq!(parse_hash(&"+1".repeat(32)), Err(()));
    assert_eq!(parse_hash(&format!("a\u{e9}{}", "0".repeat(61))), Err(()));
    assert_eq!(hash_named(&format!("a\u{e9}{}", "0".repeat(61))), None);
    assert_eq!(hash_named(&"0a".repeat(32)), Some([10; 32]));
}

#[test]
fn a_broken_frame_says_what_is_wrong() {
    let why = Error::Io { path: "<zstd>".to_string(), why: "incomplete frame".to_string() };
    assert_eq!(why.to_string(), "io error at <zstd>: incomplete frame");
}

#[test]
fn the_index_costs_by_the_chunk() {
    assert_eq!(index_cost(0, 0), (0, 0));
    assert_eq!(index_cost(1 << 20, 2), (1 << 19, (1 << 21) * 96));
}

#[test]
fn measured_sizes_have_two_decimals() {
    assert_eq!(human(0), "0.00 B");
    assert_eq!(human(1023), "1023.00 B");
    assert_eq!(human(131072), "128.00 KiB");
    assert_eq!(human(1 << 20), "1.00 MiB");
    for bytes in [1_000_000u64, 123_456_789, 5_000_000_000, u64::MAX, 1029, 1029 << 20] {
        let units = ["B", "KiB", "MiB", "GiB", "TiB"];
        let mut v = bytes as f64;
        let mut i = 0;
        while v >= 1024.0 && i < 4 {
            v /= 1024.0;
            i += 1;
        }
        assert_eq!(human(bytes), format!("{v:.2} {}", units[i]));
    }
}

fn reply(attributes: &[u8]) -> Vec<u8> {
    let mut out = vec![1, 1, 0, 0, 0x21, 0x12, 0xA4, 0x42];
    out.extend_from_slice(&[0; 12]);
    out.extend_from_slice(attributes);
    out
}

fn at(octets: [u8; 4], port: u16) -> SocketAddr {
    SocketAddr { ip: IpAddr::V4(octets), port, flow: 0, scope: 0 }
}

#[test]
fn a_request_asks_under_its_number() {
    let txn = transaction(0x0102_0304);
    assert_eq!(txn, [4, 3, 2, 1, 0, 0, 0, 0, 0, 0, 0, 0]);
    let request = binding_request(&txn);
    assert_eq!(request.len(), 20);
    assert_eq!(&request[..8], &[0, 1, 0, 0, 0x21, 0x12, 0xA4, 0x42]);
    assert_eq!(&request[8..], &txn);
}

#[test]
fn a_reply_tells_the_public_address() {
    // 192.0.2.1:32853, masked.
    let address = [0, 0x20, 0, 8, 0, 1, 0xa1, 0x47, 0xe1, 0x12, 0xa6, 0x43];
    assert_eq!(mapped_address(&reply(&address)), Ok(at([192, 0, 2, 1], 32853)));

    // Behind an attribute of three bytes, padded to four.
    let mut behind = vec![0x80, 0x22, 0, 3, b'a', b'b', b'c', 0];
    behind.extend_from_slice(&address);
    assert_eq!(mapped_address(&reply(&behind)), Ok(at([192, 0, 2, 1], 32853)));
}

#[test]
fn a_reply_that_tells_nothing_is_refused() {
    assert_eq!(mapped_address(&[1, 1]), Err(ReplyError::NotASuccess));
    let mut failed = reply(&[]);
    failed[1] = 0x11;
    assert_eq!(mapped_address(&failed), Err(ReplyError::NotASuccess));
    assert_eq!(mapped_address(&reply(&[])), Err(ReplyError::NoAddress));
    assert_eq!(mapped_address(&reply(&[0, 0x20, 0, 8, 0, 1])), Err(ReplyError::NoAddress));
    assert_eq!(mapped_address(&reply(&[9, 9, 0xff, 0xff])), Err(ReplyError::NoAddress));
    let six = [0, 0x20, 0, 8, 0, 2, 0xa1, 0x47, 0xe1, 0x12, 0xa6, 0x43];
    assert_eq!(mapped_address(&reply(&six)), Err(ReplyError::NoAddress));
    assert_eq!(ReplyError::NotASuccess.to_string(), "not a binding success response");
    assert_eq!(ReplyError::NoAddress.to_string(), "no XOR-MAPPED-ADDRESS in response");
}

#[test]
fn the_same_address_twice_means_holes_can_be_punched() {
    let a = at([1, 2, 3, 4], 5);
    assert_eq!(verdict(&vec![]), Verdict::NoResponse);
    assert_eq!(verdict(&vec![a]), Verdict::Inconclusive);
    assert_eq!(verdict(&vec![a, a]), Verdict::EndpointIndependent);
    assert_eq!(verdict(&vec![a, at([1, 2, 3, 4], 6)]), Verdict::Symmetric);
    assert_eq!(verdict(&vec![a, a, at([1, 2, 3, 5], 5)]), Verdict::Symmetric);
    let six = SocketAddr { ip: IpAddr::V6([1, 0, 0, 0, 0, 0, 0, 2]), port: 5, flow: 0, scope: 0 };
    assert_eq!(verdict(&vec![six, six]), Verdict::EndpointIndependent);
    assert_eq!(verdict(&vec![a, six]), Verdict::Symmetric);
}
