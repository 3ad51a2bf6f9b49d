use self_encryption::storage::ChunkStore;
use self_encryption::{EncryptorError, SelfEncryptor};

#[test]
fn check_write() {
    let mut se = SelfEncryptor::new(ChunkStore::new(), 0, false);
    let mut se_ctr = SelfEncryptor::new(ChunkStore::new(), 0, false);
    se.write("dsd".as_bytes(), 3u32, 5u64).unwrap();
    se_ctr.write("fkghguguykghj".as_bytes(), 30u32, 50u64).unwrap();
    assert_eq!(se.len(), 8u64);
    assert_eq!(se_ctr.len(), 80u64);
}

#[test]
fn new_stream_is_zero() {
    let encryptor = SelfEncryptor::new(ChunkStore::new(), 16, false);
    assert_eq!(encryptor.len(), 16);
    assert_eq!(encryptor.read(0, 16), Ok(vec![0u8; 16]));
    assert_eq!(encryptor.read(16, 0), Ok(vec![]));
}

#[test]
fn write_lays_data_over_the_stream() {
    let mut encryptor = SelfEncryptor::new(ChunkStore::new(), 0, false);
    assert_eq!(encryptor.write(b"dsd", 3, 5), Ok(()));
    assert_eq!(encryptor.read(0, 8), Ok(vec![0, 0, 0, 0, 0, b'd', b's', b'd']));
    assert_eq!(encryptor.write(b"xy", 2, 6), Ok(()));
    assert_eq!(encryptor.len(), 8);
    assert_eq!(encryptor.read(4, 4), Ok(vec![0, b'd', b'x', b'y']));
}

#[test]
fn write_within_the_stream_keeps_its_length() {
    let mut encryptor = SelfEncryptor::new(ChunkStore::new(), 100, false);
    encryptor.write(b"abc", 3, 10).unwrap();
    assert_eq!(encryptor.len(), 100);
    assert_eq!(encryptor.read(9, 5), Ok(vec![0, b'a', b'b', b'c', 0]));
}

#[test]
fn write_longer_than_its_data_keeps_the_rest_of_the_range() {
    let mut encryptor = SelfEncryptor::new(ChunkStore::new(), 0, false);
    encryptor.write(&[7u8; 70], 70, 0).unwrap();
    encryptor.write(b"fkghguguykghj", 30, 50).unwrap();
    assert_eq!(encryptor.len(), 80);
    let mut expected = vec![7u8; 50];
    expected.extend_from_slice(b"fkghguguykghj");
    expected.extend_from_slice(&[7u8; 7]);
    expected.extend_from_slice(&[0u8; 10]);
    assert_eq!(encryptor.read(0, 80), Ok(expected));
}

#[test]
fn write_shorter_than_its_data_takes_the_start_of_the_data() {
    let mut encryptor = SelfEncryptor::new(ChunkStore::new(), 0, false);
    encryptor.write(b"abcdef", 2, 1).unwrap();
    assert_eq!(encryptor.len(), 3);
    assert_eq!(encryptor.read(0, 3), Ok(vec![0, b'a', b'b']));
}

#[test]
fn empty_write_past_the_end_grows_the_stream() {
    let mut encryptor = SelfEncryptor::new(ChunkStore::new(), 4, false);
    encryptor.write(b"", 0, 9).unwrap();
    assert_eq!(encryptor.len(), 9);
    assert_eq!(encryptor.read(0, 9), Ok(vec![0u8; 9]));
}

#[test]
fn random_access_write_and_read() {
    let first: Vec<u8> = (0..100u8).map(|i| i + 1).collect();
    let second: Vec<u8> = (0..100u8).map(|i| 200 - i).collect();
    let mut encryptor = SelfEncryptor::new(ChunkStore::new(), 10_000, false);
    encryptor.write(&first, 100, 0).unwrap();
    encryptor.write(&second, 100, 5000).unwrap();
    assert_eq!(encryptor.len(), 10_000);
    let mut expected: Vec<u8> = first[90..].to_vec();
    expected.extend_from_slice(&[0u8; 10]);
    assert_eq!(encryptor.read(90, 20), Ok(expected));
    let mut across: Vec<u8> = vec![0u8; 5];
    across.extend_from_slice(&second);
    across.extend_from_slice(&[0u8; 5]);
    assert_eq!(encryptor.read(4995, 110), Ok(across));
    assert_eq!(encryptor.read(9990, 10), Ok(vec![0u8; 10]));
}

#[test]
fn read_past_the_end_fails() {
    let mut encryptor = SelfEncryptor::new(ChunkStore::new(), 0, false);
    encryptor.write(b"12345678", 8, 0).unwrap();
    assert_eq!(encryptor.read(0, 9), Err(EncryptorError::OutOfRangeError));
    assert_eq!(encryptor.read(8, 1), Err(EncryptorError::OutOfRangeError));
    assert_eq!(encryptor.read(9, 0), Err(EncryptorError::OutOfRangeError));
    assert_eq!(encryptor.read(u64::MAX, u32::MAX), Err(EncryptorError::OutOfRangeError));
    assert_eq!(encryptor.read(7, 1), Ok(vec![b'8']));
}

#[test]
fn closed_encryptor_takes_no_write() {
    let mut encryptor = SelfEncryptor::new(ChunkStore::new(), 0, false);
    encryptor.write(b"abc", 3, 0).unwrap();
    encryptor.close().unwrap();
    assert_eq!(encryptor.write(b"xyz", 3, 0), Err(EncryptorError::ClosedError));
    assert_eq!(encryptor.write(b"xyz", 3, 10), Err(EncryptorError::ClosedError));
    assert_eq!(encryptor.len(), 3);
    assert_eq!(encryptor.read(0, 3), Ok(b"abc".to_vec()));
}

#[test]
fn encryptor_made_closed_takes_no_write() {
    let mut encryptor = SelfEncryptor::new(ChunkStore::new(), 5, true);
    assert_eq!(encryptor.write(b"a", 1, 0), Err(EncryptorError::ClosedError));
    assert_eq!(encryptor.close(), Err(EncryptorError::AlreadyClosedError));
    assert_eq!(encryptor.read(0, 5), Ok(vec![0u8; 5]));
}

#[test]
fn chunks_of_the_stream_as_it_stands() {
    let mut encryptor = SelfEncryptor::new(ChunkStore::new(), 3071, false);
    assert_eq!(encryptor.get_num_chunks(), 0);
    assert_eq!(encryptor.get_chunk_size(0), 0);
    assert_eq!(encryptor.get_start_end_position(0), (0, 0));
    encryptor.write(b"a", 1, 3071).unwrap();
    assert_eq!(encryptor.get_num_chunks(), 3);
    assert_eq!(encryptor.get_chunk_size(2), 1024);
    assert_eq!(encryptor.get_start_end_position(0), (0, 1024));
    assert_eq!(encryptor.get_start_end_position(1), (1024, 2048));
    assert_eq!(encryptor.get_start_end_position(2), (2048, 3072));
    assert_eq!(encryptor.get_start_end_position(3), (3072, 3072));
}

#[test]
fn chunks_of_a_long_stream() {
    let encryptor = SelfEncryptor::new(ChunkStore::new(), 4 * 1_048_576 + 500, false);
    assert_eq!(encryptor.get_num_chunks(), 5);
    assert_eq!(encryptor.get_chunk_size(3), 1_048_576 - 1024);
    assert_eq!(encryptor.get_chunk_size(4), 1024 + 500);
    assert_eq!(
        encryptor.get_start_end_position(3),
        (3 * 1_048_576, 4 * 1_048_576 - 1024)
    );
    assert_eq!(
        encryptor.get_start_end_position(4),
        (4 * 1_048_576 - 1024, 4 * 1_048_576 + 500)
    );
}

#[test]
fn stream_that_was_never_written_takes_no_memory() {
    let encryptor = SelfEncryptor::new(ChunkStore::new(), u64::MAX, false);
    assert_eq!(encryptor.len(), u64::MAX);
    assert_eq!(encryptor.get_num_chunks(), 1 << 44);
    assert_eq!(encryptor.read(u64::MAX - 5, 5), Ok(vec![0u8; 5]));
    assert_eq!(encryptor.read(u64::MAX - 5, 6), Err(EncryptorError::OutOfRangeError));
    assert_eq!(
        encryptor.get_start_end_position((1 << 44) - 1),
        (u64::MAX - 1_048_575, u64::MAX)
    );
}
