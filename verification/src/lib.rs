//! Convergent encryption of byte streams.
//!
//! A stream is cut into chunks whose boundaries depend on its length alone.
//! Each chunk is encrypted under a key taken from the hashes of its two
//! neighbours, and named by the hash of its ciphertext, so that equal streams
//! give equal chunks wherever they are encrypted.

use crate::chunking::{
    chunk_index, chunk_offset, chunk_size, lemma_chunk_within_stream, num_chunks,
    spec_chunk_offset, spec_chunk_size, spec_num_chunks, MIN_CHUNK_SIZE,
};
use crate::datamap::{spec_descriptor_fits, spec_well_formed, ChunkDescriptor, DataMap};
use crate::encryption::{encrypt_chunk, sha512, HASH_SIZE};
use crate::storage::{ChunkStore, StoreError};
use crate::stream::{
    lemma_ring_neighbours, spec_chunk_plain, spec_data_map, spec_descriptor, spec_pre_hash,
    spec_store_chunks, spec_store_stream, spec_write,
};
use vstd::prelude::*;

pub mod bytes;
pub mod chunking;
pub mod datamap;
pub mod encryption;
pub mod storage;
pub mod stream;
pub mod wire;

verus! {

/// Why an operation on a stream failed.
#[derive(Clone, Copy, Debug, PartialEq, Eq, Structural)]
pub enum EncryptorError {
    /// A write was asked of an encryptor that is closed.
    ClosedError,
    /// An encryptor that is closed was asked to close.
    AlreadyClosedError,
    /// A read reaches past the end of the stream.
    OutOfRangeError,
    /// The store of chunks failed.
    StoreError(StoreError),
    /// A chunk that was fetched does not hash to the name it was fetched by.
    IntegrityError,
}

/// Takes the bytes of a stream through writes at any position, gives them
/// back through reads, and at the end encrypts the stream chunk by chunk into
/// a store and hands out its data map.
///
/// The encryptor keeps the stream in memory from its start up to the end of
/// the last chunk that a write has reached into. What lies beyond has never
/// been written: it is zero and takes no memory.
pub struct SelfEncryptor {
    storage: ChunkStore,
    sequencer: Vec<u8>,
    file_size: u64,
    closed: bool,
}

impl SelfEncryptor {
    #[verifier::type_invariant]
    spec fn well_formed(&self) -> bool {
        self.sequencer@.len() <= self.file_size
    }

    /// The bytes of the stream as it stands.
    pub closed spec fn content(&self) -> Seq<u8> {
        Seq::new(
            self.file_size as nat,
            |i: int|
                if i < self.sequencer@.len() {
                    self.sequencer@[i]
                } else {
                    0u8
                },
        )
    }

    /// Whether the encryptor is closed.
    pub closed spec fn is_closed(&self) -> bool {
        self.closed
    }

    /// What the store of the encryptor holds.
    pub closed spec fn stored(&self) -> Map<Seq<u8>, Seq<u8>> {
        self.storage@
    }

    /// Makes an encryptor for a stream of `file_size` bytes, all of them
    /// zero, that puts its chunks into `storage`. An encryptor that is made
    /// closed takes no writes.
    pub fn new(storage: ChunkStore, file_size: u64, closed: bool) -> (encryptor: SelfEncryptor)
        ensures
            encryptor.content() == Seq::new(file_size as nat, |i: int| 0u8),
            encryptor.is_closed() == closed,
            encryptor.stored() == storage@,
    {
        SelfEncryptor { storage, sequencer: Vec::new(), file_size, closed }
    }

    /// Gives the number of bytes of the stream as it stands.
    pub fn len(&self) -> (size: u64)
        ensures
            size == self.content().len(),
    {
        self.file_size
    }

    /// Gives the store of the encryptor.
    pub fn storage(&self) -> (storage: &ChunkStore)
        ensures
            storage@ == self.stored(),
    {
        &self.storage
    }

    /// Ends the encryptor and gives its store.
    pub fn into_storage(self) -> (storage: ChunkStore)
        ensures
            storage@ == self.stored(),
    {
        self.storage
    }

    /// Counts the chunks that the stream would be cut into as it stands.
    pub fn get_num_chunks(&self) -> (count: u64)
        ensures
            count == spec_num_chunks(self.content().len()),
    {
        num_chunks(self.file_size)
    }

    /// Gives the size of chunk `chunk` of the stream as it stands.
    pub fn get_chunk_size(&self, chunk: u64) -> (size: u32)
        ensures
            size == spec_chunk_size(self.content().len(), chunk as nat),
    {
        chunk_size(self.file_size, chunk)
    }

    /// Gives the positions where chunk `chunk` of the stream as it stands
    /// starts and ends.
    pub fn get_start_end_position(&self, chunk: u64) -> (range: (u64, u64))
        ensures
            range.0 == spec_chunk_offset(self.content().len(), chunk as nat),
            range.1 == range.0 + spec_chunk_size(self.content().len(), chunk as nat),
    {
        proof {
            lemma_chunk_within_stream(self.file_size as nat, chunk as nat);
        }
        let start: u64 = chunk_offset(self.file_size, chunk);
        (start, start + chunk_size(self.file_size, chunk) as u64)
    }

    /// Makes room in memory for a write of `length` bytes at `position`: for
    /// the range of the write, and for the rest of the last chunk that the
    /// range reaches into, as the stream would be cut at this time. The
    /// stream itself stays as it is. A read needs no room.
    fn prepare_window(&mut self, length: u32, position: u64, write: bool)
        requires
            position + length <= usize::MAX,
            position + length <= old(self).file_size,
        ensures
            final(self).content() == old(self).content(),
            final(self).file_size == old(self).file_size,
            final(self).closed == old(self).closed,
            final(self).storage == old(self).storage,
            write ==> final(self).sequencer@.len() >= position + length,
            !write ==> final(self).sequencer == old(self).sequencer,
    {
        if !write {
            return ;
        }
        proof {
            use_type_invariant(&*self);
        }
        let mut reach: u64 = position + length as u64;
        if length > 0 {
            match chunk_index(self.file_size, reach - 1) {
                Some(last) => {
                    proof {
                        lemma_chunk_within_stream(self.file_size as nat, last as nat);
                    }
                    let chunk_end: u64 = chunk_offset(self.file_size, last) + chunk_size(
                        self.file_size,
                        last,
                    ) as u64;
                    if chunk_end <= usize::MAX as u64 {
                        reach = chunk_end;
                    }
                },
                None => {},
            }
        }
        let end: usize = reach as usize;
        let mut sequencer: Vec<u8> = Vec::new();
        core::mem::swap(&mut self.sequencer, &mut sequencer);
        let ghost held = sequencer@;
        while sequencer.len() < end
            invariant
                held.len() <= sequencer@.len(),
                sequencer@.len() <= held.len() || sequencer@.len() <= end,
                sequencer@.subrange(0, held.len() as int) == held,
                forall|k: int| held.len() <= k < sequencer@.len() ==> sequencer@[k] == 0u8,
            decreases end - sequencer@.len(),
        {
            sequencer.push(0u8);
            assert(sequencer@.subrange(0, held.len() as int) =~= held);
        }
        core::mem::swap(&mut self.sequencer, &mut sequencer);
        assert forall|k: int| 0 <= k < self.file_size implies self.content()[k] == old(
            self,
        ).content()[k] by {
            if k < held.len() {
                assert(self.sequencer@[k] == self.sequencer@.subrange(0, held.len() as int)[k]);
            }
        }
        assert(self.content() =~= old(self).content());
    }

    /// Writes `length` bytes at `position`. The stream grows to hold the
    /// range of the write, and what it did not hold before is zero. The bytes
    /// come from the start of `data`; where `data` is shorter than `length`,
    /// the rest of the range keeps what it held. A closed encryptor takes no
    /// write and stays as it is.
    pub fn write(&mut self, data: &[u8], length: u32, position: u64) -> (done: Result<
        (),
        EncryptorError,
    >)
        requires
            position + length <= usize::MAX,
        ensures
            old(self).is_closed() ==> {
                &&& done == Err::<(), EncryptorError>(EncryptorError::ClosedError)
                &&& *final(self) == *old(self)
            },
            !old(self).is_closed() ==> {
                &&& done is Ok
                &&& !final(self).is_closed()
                &&& final(self).stored() == old(self).stored()
                &&& final(self).content() == spec_write(
                    old(self).content(),
                    data@,
                    length as nat,
                    position as nat,
                )
            },
    {
        if self.closed {
            return Err(EncryptorError::ClosedError);
        }
        proof {
            use_type_invariant(&*self);
        }
        let end: u64 = position + length as u64;
        if end > self.file_size {
            self.file_size = end;
        }
        let ghost grown = self.content();
        self.prepare_window(length, position, true);
        proof {
            use_type_invariant(&*self);
        }
        let start: usize = position as usize;
        let copied: usize = if (length as usize) <= data.len() {
            length as usize
        } else {
            data.len()
        };
        let held: usize = self.sequencer.len();
        let mut i: usize = 0;
        while i < copied
            invariant
                i <= copied,
                held == self.sequencer@.len(),
                copied <= data@.len(),
                copied <= length,
                start == position,
                start + length <= self.sequencer@.len(),
                self.sequencer@.len() <= self.file_size,
                self.file_size == grown.len(),
                self.closed == old(self).closed,
                self.storage == old(self).storage,
                self.content() == Seq::new(
                    grown.len(),
                    |k: int|
                        if position <= k < position + i {
                            data@[k - position]
                        } else {
                            grown[k]
                        },
                ),
            decreases copied - i,
        {
            let ghost before = self.content();
            self.sequencer[start + i] = data[i];
            i = i + 1;
            assert forall|k: int| 0 <= k < grown.len() implies self.content()[k] == (if position
                <= k < position + i {
                data@[k - position]
            } else {
                grown[k]
            }) by {
                if k != position + i - 1 {
                    assert(self.content()[k] == before[k]);
                }
            }
            assert(self.content() =~= Seq::new(
                grown.len(),
                |k: int|
                    if position <= k < position + i {
                        data@[k - position]
                    } else {
                        grown[k]
                    },
            ));
        }
        assert(self.content() =~= spec_write(
            old(self).content(),
            data@,
            length as nat,
            position as nat,
        ));
        Ok(())
    }

    /// Copies `length` bytes of the stream from `start` on.
    fn copy_range(&self, start: u64, length: u32) -> (bytes: Vec<u8>)
        requires
            start + length <= self.file_size,
        ensures
            bytes@ == self.content().subrange(start as int, start + length),
    {
        let held: usize = self.sequencer.len();
        let mut bytes: Vec<u8> = Vec::new();
        let mut i: u32 = 0;
        while i < length
            invariant
                i <= length,
                start + length <= self.file_size,
                held == self.sequencer@.len(),
                bytes@ == self.content().subrange(start as int, start + i),
            decreases length - i,
        {
            let position: u64 = start + i as u64;
            let byte: u8 = if position < held as u64 {
                self.sequencer[position as usize]
            } else {
                0u8
            };
            bytes.push(byte);
            i = i + 1;
            assert(bytes@ =~= self.content().subrange(start as int, start + i));
        }
        bytes
    }

    /// Reads `length` bytes at `position`. A read that reaches past the end
    /// of the stream fails. A closed encryptor can still be read.
    pub fn read(&self, position: u64, length: u32) -> (found: Result<Vec<u8>, EncryptorError>)
        ensures
            match found {
                Ok(bytes) => position + length <= self.content().len() && bytes@
                    == self.content().subrange(position as int, position + length),
                Err(error) => position + length > self.content().len() && error
                    == EncryptorError::OutOfRangeError,
            },
    {
        if position > self.file_size || length as u64 > self.file_size - position {
            return Err(EncryptorError::OutOfRangeError);
        }
        Ok(self.copy_range(position, length))
    }

    /// Closes the encryptor and gives the data map of the stream. A stream
    /// too short to be cut is handed out in the data map as it is, and the
    /// store is left alone. Any other stream is cut into chunks by its final
    /// length; each chunk is encrypted under the key that its neighbours
    /// give and put into the store under the hash of its ciphertext, and the
    /// data map describes the chunks in their order. An encryptor that is
    /// closed fails, and neither it nor its store changes.
    pub fn close(&mut self) -> (map: Result<DataMap, EncryptorError>)
        ensures
            old(self).is_closed() ==> {
                &&& map matches Err(error)
                &&& error == EncryptorError::AlreadyClosedError
                &&& *final(self) == *old(self)
            },
            !old(self).is_closed() ==> {
                &&& map matches Ok(data_map)
                &&& data_map@ == spec_data_map(old(self).content())
                &&& spec_well_formed(data_map@)
                &&& final(self).is_closed()
                &&& final(self).content() == old(self).content()
                &&& final(self).stored() == spec_store_stream(
                    old(self).stored(),
                    old(self).content(),
                )
            },
    {
        if self.closed {
            return Err(EncryptorError::AlreadyClosedError);
        }
        proof {
            use_type_invariant(&*self);
        }
        let ghost content = self.content();
        let total_size: u64 = self.file_size;
        if total_size < 3 * (MIN_CHUNK_SIZE as u64) {
            let bytes: Vec<u8> = self.copy_range(0, total_size as u32);
            assert(bytes@ =~= content);
            self.closed = true;
            return Ok(DataMap::Inline { content: bytes });
        }
        let count: u64 = num_chunks(total_size);
        let mut pre_hashes: Vec<Vec<u8>> = Vec::new();
        let mut i: u64 = 0;
        while i < count
            invariant
                i <= count,
                count == spec_num_chunks(content.len()),
                total_size == content.len(),
                total_size == self.file_size,
                self.content() == content,
                pre_hashes@.len() == i,
                forall|k: int|
                    0 <= k < i ==> (#[trigger] pre_hashes@[k])@ == spec_pre_hash(content, k as nat)
                        && pre_hashes@[k]@.len() == HASH_SIZE,
            decreases count - i,
        {
            let plain: Vec<u8> = self.chunk_plain(i);
            pre_hashes.push(sha512(plain.as_slice()));
            i = i + 1;
        }
        let known: usize = pre_hashes.len();
        let mut store: ChunkStore = ChunkStore::new();
        core::mem::swap(&mut self.storage, &mut store);
        let mut chunks: Vec<ChunkDescriptor> = Vec::new();
        let mut i: u64 = 0;
        while i < count
            invariant
                i <= count,
                known == count,
                count == spec_num_chunks(content.len()),
                total_size >= 3 * MIN_CHUNK_SIZE,
                total_size == content.len(),
                total_size == self.file_size,
                self.content() == content,
                pre_hashes@.len() == count,
                forall|k: int|
                    0 <= k < count ==> (#[trigger] pre_hashes@[k])@ == spec_pre_hash(
                        content,
                        k as nat,
                    ) && pre_hashes@[k]@.len() == HASH_SIZE,
                chunks@.len() == i,
                forall|k: int|
                    0 <= k < i ==> (#[trigger] chunks@[k])@ == spec_descriptor(content, k as nat)
                        && spec_descriptor_fits(chunks@[k]@, total_size as nat, k as nat),
                store@ == spec_store_chunks(old(self).storage@, content, i as nat),
            decreases count - i,
        {
            proof {
                lemma_ring_neighbours(i as nat, count as nat);
            }
            let previous: u64 = if i == 0 {
                count - 1
            } else {
                i - 1
            };
            let next: u64 = if i + 1 == count {
                0
            } else {
                i + 1
            };
            let plain: Vec<u8> = self.chunk_plain(i);
            let cipher: Vec<u8> = encrypt_chunk(
                pre_hashes[previous as usize].as_slice(),
                pre_hashes[next as usize].as_slice(),
                plain.as_slice(),
            );
            let post_hash: Vec<u8> = sha512(cipher.as_slice());
            let name: Vec<u8> = vstd::slice::slice_to_vec(post_hash.as_slice());
            let _ = store.put(name, cipher);
            chunks.push(
                ChunkDescriptor {
                    pre_hash: vstd::slice::slice_to_vec(pre_hashes[i as usize].as_slice()),
                    post_hash,
                    source_size: chunk_size(total_size, i),
                },
            );
            i = i + 1;
        }
        core::mem::swap(&mut self.storage, &mut store);
        self.closed = true;
        let data_map = DataMap::Chunked { chunks, total_size };
        assert(data_map@->chunks =~= spec_data_map(content)->chunks);
        assert forall|k: int| 0 <= k < data_map@->chunks.len() implies spec_descriptor_fits(
            #[trigger] data_map@->chunks[k],
            total_size as nat,
            k as nat,
        ) by {
            assert(data_map@->chunks[k] == chunks@[k]@);
        }
        Ok(data_map)
    }

    /// Copies chunk `index` of the stream as it stands.
    fn chunk_plain(&self, index: u64) -> (plain: Vec<u8>)
        ensures
            plain@ == spec_chunk_plain(self.content(), index as nat),
    {
        proof {
            lemma_chunk_within_stream(self.file_size as nat, index as nat);
        }
        let start: u64 = chunk_offset(self.file_size, index);
        self.copy_range(start, chunk_size(self.file_size, index))
    }
}

} // verus!
