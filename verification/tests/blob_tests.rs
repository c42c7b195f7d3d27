use p2p_transfer::blob_store::{
    AssembleError, BaoBlob, BaoReceiver, BaoStore, BlobCollection, BlobHash, BlobHashError,
    BlobStore,
};
use p2p_transfer::hex;

#[test]
fn test_blob_hash() {
    let data = b"Hello, World!";
    let hash1 = BlobHash::from_bytes(data);
    let hash2 = BlobHash::from_bytes(data);
    assert_eq!(hash1, hash2);

    let hex = hash1.to_hex();
    let parsed = BlobHash::from_hex(&hex).unwrap();
    assert_eq!(hash1, parsed);
}

#[test]
fn test_blob_store() {
    let mut store = BlobStore::new();
    let hash = store.add("test.txt".to_string(), b"test data".to_vec());

    assert!(store.contains(&hash));

    let blob = store.get(&hash).unwrap();
    assert_eq!(blob.info.name, "test.txt");
    assert!(blob.verify());
}

#[test]
fn test_blob_collection() {
    let mut collection = BlobCollection::new();
    let hash1 = BlobHash::from_bytes(b"file1");
    let hash2 = BlobHash::from_bytes(b"file2");

    collection.add(hash1, "file1.txt".to_string());
    collection.add(hash2, "file2.txt".to_string());

    let share_string = collection.to_share_string();
    let parsed = BlobCollection::from_share_string(&share_string).unwrap();

    assert_eq!(parsed.hashes.len(), 2);
    assert_eq!(parsed.name_of(&hash1), Some("file1.txt".to_string()));
}

#[test]
fn blob_hash_of_empty_input_is_the_blake3_constant() {
    assert_eq!(
        BlobHash::from_bytes(&[]).to_hex(),
        "af1349b9f5f9a1a6a0404dea36dcc9499bcb25c9adc112b7cc9a93cae41f3262"
    );
}

#[test]
fn blob_hash_from_hex_errors() {
    assert_eq!(BlobHash::from_hex("abcd"), Err(BlobHashError::InvalidLength(2)));
    let bad = "zz".repeat(32);
    assert_eq!(
        BlobHash::from_hex(&bad),
        Err(BlobHashError::Hex(hex::HexError::InvalidChar))
    );
    assert_eq!(
        BlobHash::from_hex("abc"),
        Err(BlobHashError::Hex(hex::HexError::OddLength))
    );
}

#[test]
fn blob_store_add_get_remove() {
    let mut store = BlobStore::new();
    let a = store.add("a".to_string(), b"alpha".to_vec());
    let b = store.add("b".to_string(), b"beta!".to_vec());
    assert_eq!(store.total_size(), 10);
    assert_eq!(store.list().len(), 2);

    // The same content under another name replaces the entry rather than adding one.
    let again = store.add("a2".to_string(), b"alpha".to_vec());
    assert_eq!(again, a);
    assert_eq!(store.list().len(), 2);
    assert_eq!(store.get(&a).unwrap().info.name, "a2");

    let removed = store.remove(&a).unwrap();
    assert_eq!(removed.data, b"alpha".to_vec());
    assert!(!store.contains(&a));
    assert!(store.contains(&b));
    assert!(store.remove(&a).is_none());

    let files = store.get_all_files();
    assert_eq!(files, vec![("b".to_string(), b"beta!".to_vec())]);
    store.clear();
    assert_eq!(store.total_size(), 0);
}

#[test]
fn bao_blob_blocks_are_sixteen_kib() {
    let data: Vec<u8> = (0..40000u32).map(|i| (i % 251) as u8).collect();
    let blob = BaoBlob::new("big.bin".to_string(), data.clone());
    assert_eq!(blob.chunk_count(), 40);
    assert_eq!(blob.get_chunk(0).unwrap(), data[..16384].to_vec());
    assert_eq!(blob.get_chunk(2).unwrap(), data[32768..].to_vec());
    assert!(blob.get_chunk(3).is_none());
    assert!(blob.verify_chunk(1, &data[16384..32768]));
    assert!(!blob.verify_chunk(1, &data[16384..32767]));
    assert_eq!(
        blob.chunk_hash(2).unwrap(),
        BlobHash::from_bytes(&data[32768..])
    );
}

#[test]
fn bao_store_keeps_one_blob_per_hash() {
    let mut store = BaoStore::new();
    let blob = store.add("x".to_string(), vec![1, 2, 3]);
    assert!(store.contains(&blob.hash));
    store.add("y".to_string(), vec![1, 2, 3]);
    assert_eq!(store.list().len(), 1);
    assert_eq!(store.total_chunks(), 1);
}

#[test]
fn bao_receiver_assembles_and_verifies() {
    let data: Vec<u8> = (0..20000u32).map(|i| (i % 13) as u8).collect();
    let blob = BaoBlob::new("r.bin".to_string(), data.clone());
    let mut receiver = BaoReceiver::new(BlobHash::from_bytes(&data), data.len() as u64);
    assert_eq!(receiver.missing_chunks(), vec![0, 1]);
    assert!(matches!(receiver.assemble_and_verify(), Err(AssembleError::Missing(2))));
    assert!(receiver.add_chunk(1, blob.get_chunk(1).unwrap()));
    assert!(!receiver.add_chunk(2, vec![0]));
    assert_eq!(receiver.missing_chunks(), vec![0]);
    assert!(!receiver.is_complete());
    assert!(receiver.add_chunk(0, blob.get_chunk(0).unwrap()));
    assert!(receiver.is_complete());
    assert_eq!(receiver.assemble_and_verify().unwrap(), data);

    let mut wrong = BaoReceiver::new(BlobHash::from_bytes(b"other"), data.len() as u64);
    wrong.add_chunk(0, blob.get_chunk(0).unwrap());
    wrong.add_chunk(1, blob.get_chunk(1).unwrap());
    assert!(matches!(
        wrong.assemble_and_verify(),
        Err(AssembleError::HashMismatch { .. })
    ));
}

#[test]
fn collection_hash_covers_all_hashes_in_order() {
    let h1 = BlobHash::from_bytes(b"1");
    let h2 = BlobHash::from_bytes(b"2");
    let mut c = BlobCollection::new();
    c.add(h1, "one".to_string());
    c.add(h2, "two".to_string());
    let mut all = h1.0.to_vec();
    all.extend_from_slice(&h2.0);
    assert_eq!(c.collection_hash(), BlobHash::from_bytes(&all));
    assert_eq!(
        c.to_share_string(),
        format!("{}:one,{}:two", h1.to_hex(), h2.to_hex())
    );
    assert!(BlobCollection::from_share_string("nothex:name").is_err());
}

#[test]
fn hex_encode_and_decode() {
    assert_eq!(hex::encode(&[0x00, 0xab, 0xff]), "00abff");
    assert_eq!(hex::decode("00abFF").unwrap(), vec![0x00, 0xab, 0xff]);
    assert!(hex::decode("abc").is_err());
    assert!(hex::decode("zz").is_err());
}

#[test]
fn error_messages_name_what_went_wrong() {
    assert_eq!(
        BlobHashError::InvalidLength(3).message(),
        "Invalid hash length: expected 32 bytes, got 3"
    );
    assert_eq!(BlobHashError::Hex(hex::HexError::OddLength).message(), "Invalid hex string length");
    assert_eq!(BlobHashError::Hex(hex::HexError::InvalidChar).message(), "Invalid hex character");
    assert_eq!(AssembleError::Missing(2).message(), "Missing 2 chunks");
    assert_eq!(AssembleError::MissingChunk(7).message(), "Missing chunk 7");
    let a = BlobHash([0u8; 32]);
    let b = BlobHash([0xffu8; 32]);
    assert_eq!(
        AssembleError::HashMismatch { expected: a, computed: b }.message(),
        format!("Hash mismatch: expected {}, got {}", "00".repeat(32), "ff".repeat(32))
    );
}
