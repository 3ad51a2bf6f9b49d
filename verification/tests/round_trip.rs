use crypto::aes::{ctr, KeySize};
use crypto::digest::Digest;
use crypto::sha2::Sha512;
use crypto::symmetriccipher::SynchronousStreamCipher;
use self_encryption::datamap::DataMap;
use self_encryption::encryption::{decrypt_chunk, encrypt_chunk};
use self_encryption::storage::{ChunkStore, StoreError};
use self_encryption::stream::decrypt;
use self_encryption::{EncryptorError, SelfEncryptor};

fn pattern(length: usize, seed: u32) -> Vec<u8> {
    let mut state = seed;
    let mut bytes = Vec::with_capacity(length);
    for _ in 0..length {
        state = state.wrapping_mul(1_664_525).wrapping_add(1_013_904_223);
        bytes.push((state >> 24) as u8);
    }
    bytes
}

fn sha512_of(data: &[u8]) -> Vec<u8> {
    let mut hasher = Sha512::new();
    hasher.input(data);
    let mut hash = vec![0u8; 64];
    hasher.result(&mut hash);
    hash
}

fn encrypt_stream(content: &[u8], store: ChunkStore) -> (DataMap, ChunkStore) {
    let mut encryptor = SelfEncryptor::new(store, 0, false);
    encryptor.write(content, content.len() as u32, 0).unwrap();
    let data_map = encryptor.close().unwrap();
    (data_map, encryptor.into_storage())
}

fn names(data_map: &DataMap) -> Vec<Vec<u8>> {
    match data_map {
        DataMap::Chunked { chunks, .. } => chunks.iter().map(|c| c.post_hash.clone()).collect(),
        DataMap::Inline { .. } => vec![],
    }
}

#[test]
fn short_stream_is_kept_inline() {
    let content = pattern(3071, 1);
    let (data_map, store) = encrypt_stream(&content, ChunkStore::new());
    assert_eq!(data_map, DataMap::Inline { content: content.clone() });
    assert_eq!(store.len(), 0);
    assert_eq!(decrypt(&data_map, &store), Ok(content));
}

#[test]
fn empty_stream_is_kept_inline() {
    let (data_map, store) = encrypt_stream(&[], ChunkStore::new());
    assert_eq!(data_map, DataMap::Inline { content: vec![] });
    assert_eq!(decrypt(&data_map, &store), Ok(vec![]));
}

#[test]
fn stream_of_three_minimal_chunks_is_cut() {
    let content = pattern(3072, 2);
    let (data_map, store) = encrypt_stream(&content, ChunkStore::new());
    match &data_map {
        DataMap::Chunked { chunks, total_size } => {
            assert_eq!(*total_size, 3072);
            assert_eq!(chunks.len(), 3);
            for (i, chunk) in chunks.iter().enumerate() {
                assert_eq!(chunk.source_size, 1024);
                assert_eq!(chunk.pre_hash, sha512_of(&content[i * 1024..(i + 1) * 1024]));
                let stored = store.get(&chunk.post_hash).unwrap();
                assert_eq!(stored.len(), 1024);
                assert_eq!(chunk.post_hash, sha512_of(&stored));
                assert_ne!(stored, content[i * 1024..(i + 1) * 1024].to_vec());
            }
        }
        DataMap::Inline { .. } => panic!("a stream of 3072 bytes is cut"),
    }
    assert_eq!(store.len(), 3);
    assert_eq!(decrypt(&data_map, &store), Ok(content));
}

#[test]
fn chunk_is_encrypted_under_the_hashes_of_its_neighbours() {
    let content = pattern(5000, 3);
    let (data_map, store) = encrypt_stream(&content, ChunkStore::new());
    let chunks = match &data_map {
        DataMap::Chunked { chunks, .. } => chunks.clone(),
        DataMap::Inline { .. } => panic!("a stream of 5000 bytes is cut"),
    };
    assert_eq!(chunks.len(), 3);
    let sizes: Vec<u32> = chunks.iter().map(|c| c.source_size).collect();
    assert_eq!(sizes, vec![1666, 1666, 1668]);
    let mut joined = chunks[2].pre_hash.clone();
    joined.extend_from_slice(&chunks[1].pre_hash);
    let pad = sha512_of(&joined);
    let mut expected = vec![0u8; 1666];
    ctr(KeySize::KeySize256, &pad[0..32], &pad[32..48]).process(&content[0..1666], &mut expected);
    assert_eq!(store.get(&chunks[0].post_hash), Ok(expected));
}

#[test]
fn round_trip_of_streams_of_many_lengths() {
    for (seed, length) in [0usize, 1, 1024, 3071, 3072, 3073, 4097, 10_000, 65_536]
        .into_iter()
        .enumerate()
    {
        let content = pattern(length, seed as u32 + 10);
        let (data_map, store) = encrypt_stream(&content, ChunkStore::new());
        assert_eq!(decrypt(&data_map, &store), Ok(content));
    }
}

#[test]
fn round_trip_of_a_long_stream() {
    let length = 3 * 1_048_576 + 500;
    let content = pattern(length, 77);
    let (data_map, store) = encrypt_stream(&content, ChunkStore::new());
    match &data_map {
        DataMap::Chunked { chunks, total_size } => {
            assert_eq!(*total_size, length as u64);
            let sizes: Vec<u32> = chunks.iter().map(|c| c.source_size).collect();
            assert_eq!(sizes, vec![1_048_576, 1_048_576, 1_048_576 - 1024, 1024 + 500]);
        }
        DataMap::Inline { .. } => panic!("a long stream is cut"),
    }
    assert_eq!(decrypt(&data_map, &store), Ok(content));
}

#[test]
fn round_trip_of_a_stream_written_in_pieces() {
    let content = pattern(9000, 5);
    let mut encryptor = SelfEncryptor::new(ChunkStore::new(), 0, false);
    encryptor.write(&content[6000..], 3000, 6000).unwrap();
    encryptor.write(&content[..2500], 2500, 0).unwrap();
    encryptor.write(&content[2500..6000], 3500, 2500).unwrap();
    let data_map = encryptor.close().unwrap();
    let (whole_map, _) = encrypt_stream(&content, ChunkStore::new());
    assert_eq!(data_map, whole_map);
    assert_eq!(decrypt(&data_map, encryptor.storage()), Ok(content));
}

#[test]
fn round_trip_of_a_stream_that_was_never_written() {
    let mut encryptor = SelfEncryptor::new(ChunkStore::new(), 4000, false);
    let data_map = encryptor.close().unwrap();
    assert_eq!(decrypt(&data_map, encryptor.storage()), Ok(vec![0u8; 4000]));
}

#[test]
fn closing_twice_fails_and_leaves_the_store_alone() {
    let content = pattern(4000, 6);
    let mut encryptor = SelfEncryptor::new(ChunkStore::new(), 0, false);
    encryptor.write(&content, 4000, 0).unwrap();
    let data_map = encryptor.close().unwrap();
    let mut held: Vec<Vec<u8>> = encryptor.storage().names();
    held.sort();
    assert_eq!(held.len(), 3);
    assert_eq!(encryptor.close(), Err(EncryptorError::AlreadyClosedError));
    assert_eq!(encryptor.close(), Err(EncryptorError::AlreadyClosedError));
    let mut after: Vec<Vec<u8>> = encryptor.storage().names();
    after.sort();
    assert_eq!(after, held);
    for name in &held {
        assert!(names(&data_map).contains(name));
    }
    assert_eq!(encryptor.len(), 4000);
    assert_eq!(decrypt(&data_map, encryptor.storage()), Ok(content));
}

#[test]
fn equal_streams_give_equal_chunks() {
    let content = pattern(7000, 8);
    let (first_map, store) = encrypt_stream(&content, ChunkStore::new());
    assert_eq!(store.len(), 3);
    let (second_map, store) = encrypt_stream(&content.clone(), store);
    assert_eq!(first_map, second_map);
    assert_eq!(names(&first_map), names(&second_map));
    assert_eq!(store.len(), 3);
    let (third_map, other_store) = encrypt_stream(&content, ChunkStore::new());
    assert_eq!(names(&first_map), names(&third_map));
    for name in names(&first_map) {
        assert_eq!(store.get(&name), other_store.get(&name));
    }
}

#[test]
fn streams_of_one_length_share_boundaries_not_chunks() {
    let (first_map, _) = encrypt_stream(&pattern(7000, 8), ChunkStore::new());
    let (second_map, _) = encrypt_stream(&pattern(7000, 9), ChunkStore::new());
    match (&first_map, &second_map) {
        (DataMap::Chunked { chunks: first, .. }, DataMap::Chunked { chunks: second, .. }) => {
            assert_eq!(first.len(), second.len());
            for (a, b) in first.iter().zip(second.iter()) {
                assert_eq!(a.source_size, b.source_size);
                assert_ne!(a.pre_hash, b.pre_hash);
                assert_ne!(a.post_hash, b.post_hash);
            }
        }
        _ => panic!("streams of 7000 bytes are cut"),
    }
}

#[test]
fn change_in_one_chunk_changes_its_neighbours_too() {
    let content = pattern(4 * 1_048_576, 11);
    let mut changed = content.clone();
    changed[0] ^= 1;
    let (first_map, _) = encrypt_stream(&content, ChunkStore::new());
    let (second_map, _) = encrypt_stream(&changed, ChunkStore::new());
    let first = names(&first_map);
    let second = names(&second_map);
    assert_eq!(first.len(), 4);
    assert_ne!(first[0], second[0]);
    assert_ne!(first[1], second[1]);
    assert_eq!(first[2], second[2]);
    assert_ne!(first[3], second[3]);
}

#[test]
fn missing_chunk_is_not_found() {
    let content = pattern(4000, 12);
    let (data_map, _) = encrypt_stream(&content, ChunkStore::new());
    assert_eq!(
        decrypt(&data_map, &ChunkStore::new()),
        Err(EncryptorError::StoreError(StoreError::NotFound))
    );
    let mut partial = ChunkStore::new();
    let (_, full) = encrypt_stream(&content, ChunkStore::new());
    let all = names(&data_map);
    partial.put(all[0].clone(), full.get(&all[0]).unwrap()).unwrap();
    partial.put(all[2].clone(), full.get(&all[2]).unwrap()).unwrap();
    assert_eq!(
        decrypt(&data_map, &partial),
        Err(EncryptorError::StoreError(StoreError::NotFound))
    );
}

#[test]
fn chunk_that_does_not_hash_to_its_name_is_refused() {
    let content = pattern(4000, 13);
    let (data_map, full) = encrypt_stream(&content, ChunkStore::new());
    let all = names(&data_map);
    let mut forged = ChunkStore::new();
    let mut wrong = full.get(&all[1]).unwrap();
    wrong[5] ^= 0x40;
    forged.put(all[0].clone(), full.get(&all[0]).unwrap()).unwrap();
    forged.put(all[1].clone(), wrong).unwrap();
    forged.put(all[2].clone(), full.get(&all[2]).unwrap()).unwrap();
    assert_eq!(decrypt(&data_map, &forged), Err(EncryptorError::IntegrityError));
}

#[test]
fn first_faulty_chunk_decides_the_error() {
    let content = pattern(4000, 14);
    let (data_map, full) = encrypt_stream(&content, ChunkStore::new());
    let all = names(&data_map);
    let mut store = ChunkStore::new();
    store.put(all[0].clone(), vec![1, 2, 3]).unwrap();
    assert_eq!(decrypt(&data_map, &store), Err(EncryptorError::IntegrityError));
    let mut store = ChunkStore::new();
    store.put(all[0].clone(), full.get(&all[0]).unwrap()).unwrap();
    store.put(all[2].clone(), vec![1, 2, 3]).unwrap();
    assert_eq!(
        decrypt(&data_map, &store),
        Err(EncryptorError::StoreError(StoreError::NotFound))
    );
}

#[test]
fn store_that_holds_other_bytes_under_a_name_keeps_them() {
    let content = pattern(4000, 15);
    let (data_map, _) = encrypt_stream(&content, ChunkStore::new());
    let all = names(&data_map);
    let mut store = ChunkStore::new();
    store.put(all[1].clone(), vec![9, 9, 9]).unwrap();
    let (again, store) = encrypt_stream(&content, store);
    assert_eq!(again, data_map);
    assert_eq!(store.get(&all[1]), Ok(vec![9, 9, 9]));
    assert_eq!(decrypt(&data_map, &store), Err(EncryptorError::IntegrityError));
}

#[test]
fn decrypting_a_chunk_undoes_encrypting_it() {
    let previous = sha512_of(b"before");
    let next = sha512_of(b"after");
    let plain = pattern(2000, 16);
    let cipher = encrypt_chunk(&previous, &next, &plain);
    assert_eq!(cipher.len(), plain.len());
    assert_ne!(cipher, plain);
    assert_eq!(decrypt_chunk(&previous, &next, &cipher), plain);
    assert_ne!(decrypt_chunk(&next, &previous, &cipher), plain);
    assert_eq!(encrypt_chunk(&previous, &next, &[]), Vec::<u8>::new());
}

#[test]
fn chunk_cipher_is_aes_256_in_counter_mode() {
    let previous = vec![1u8; 64];
    let next = vec![2u8; 64];
    let mut joined = previous.clone();
    joined.extend_from_slice(&next);
    let pad = sha512_of(&joined);
    let plain = pattern(100, 17);
    let mut expected = vec![0u8; 100];
    ctr(KeySize::KeySize256, &pad[0..32], &pad[32..48]).process(&plain, &mut expected);
    assert_eq!(encrypt_chunk(&previous, &next, &plain), expected);
}

#[test]
fn hash_of_a_chunk_is_sha_512() {
    let content = vec![b'a'; 3072];
    let (data_map, _) = encrypt_stream(&content, ChunkStore::new());
    let expected: [u8; 64] = [
        0x74, 0xb2, 0x24, 0x92, 0xe3, 0xb9, 0xa8, 0x6a,
        0x9c, 0x93, 0xc2, 0x3a, 0x69, 0xf8, 0x21, 0xeb,
        0xaf, 0xa4, 0x29, 0x30, 0x2c, 0x1f, 0x40, 0x54,
        0xb4, 0xbc, 0x37, 0x35, 0x6a, 0x4b, 0xae, 0x05,
        0x6d, 0x9c, 0xcb, 0xc6, 0xf2, 0x40, 0x93, 0xa2,
        0x57, 0x04, 0xfa, 0xaa, 0x72, 0xbd, 0x21, 0xa5,
        0xf3, 0x37, 0xca, 0x9e, 0xc9, 0x2f, 0x32, 0x36,
        0x9d, 0x24, 0xe6, 0xb9, 0xfa, 0xe9, 0x54, 0xd8,
    ];
    match &data_map {
        DataMap::Chunked { chunks, .. } => {
            assert_eq!(chunks[0].pre_hash.len(), 64);
            assert_eq!(chunks[0].pre_hash, chunks[1].pre_hash);
            assert_eq!(chunks[0].pre_hash, expected.to_vec());
        }
        DataMap::Inline { .. } => panic!("a stream of 3072 bytes is cut"),
    }
}
