//! A stream as a whole: the chunks it is cut into, what each of them is
//! encrypted to, the data map that describes them, and how the stream is put
//! together again from its data map and a store that holds the chunks.

use crate::bytes::{append_bytes, bytes_equal};
use crate::chunking::{
    lemma_chunk_sizes_cover_stream, lemma_chunk_within_stream, spec_chunk_offset,
    spec_chunk_size, spec_num_chunks, MIN_CHUNK_SIZE,
};
use crate::datamap::{ChunkDescriptor, ChunkDescriptorView, DataMap, DataMapView};
use crate::encryption::{
    decrypt_chunk, lemma_decrypt_encrypt, sha512, spec_decrypt_chunk, spec_encrypt_chunk,
    spec_sha512,
};
use crate::storage::{spec_put, ChunkStore, StoreError};
use crate::EncryptorError;
use vstd::prelude::*;

verus! {

/// The stream `content` after a write of `length` bytes at `position`. The
/// stream grows to hold the range of the write, and what it did not hold
/// before is zero. The bytes of `data` are laid over the start of the range,
/// as many of them as the range has room for; where `data` is shorter than
/// the range, the rest of the range keeps what it held.
pub open spec fn spec_write(content: Seq<u8>, data: Seq<u8>, length: nat, position: nat) -> Seq<
    u8,
> {
    let size = if content.len() >= position + length {
        content.len()
    } else {
        position + length
    };
    let copied = if length <= data.len() {
        length
    } else {
        data.len()
    };
    Seq::new(
        size,
        |i: int|
            if position <= i < position + copied {
                data[i - position]
            } else if i < content.len() {
                content[i]
            } else {
                0u8
            },
    )
}

/// The index before `index` in a ring of `count` chunks: the first chunk
/// comes after the last.
pub open spec fn spec_ring_previous(index: nat, count: nat) -> nat {
    ((index + count - 1) % (count as int)) as nat
}

/// The index after `index` in a ring of `count` chunks: the last chunk comes
/// before the first.
pub open spec fn spec_ring_next(index: nat, count: nat) -> nat {
    (index + 1) % count
}

/// The bytes of chunk `index` of the stream `content`.
pub open spec fn spec_chunk_plain(content: Seq<u8>, index: nat) -> Seq<u8> {
    let start = spec_chunk_offset(content.len(), index);
    content.subrange(start as int, (start + spec_chunk_size(content.len(), index)) as int)
}

/// The hash of chunk `index` of the stream `content` before encryption.
pub open spec fn spec_pre_hash(content: Seq<u8>, index: nat) -> Seq<u8> {
    spec_sha512(spec_chunk_plain(content, index))
}

/// Chunk `index` of the stream `content` after encryption under the key
/// that its two neighbours in the ring give.
pub open spec fn spec_chunk_cipher(content: Seq<u8>, index: nat) -> Seq<u8> {
    let count = spec_num_chunks(content.len());
    spec_encrypt_chunk(
        spec_pre_hash(content, spec_ring_previous(index, count)),
        spec_pre_hash(content, spec_ring_next(index, count)),
        spec_chunk_plain(content, index),
    )
}

/// The hash of chunk `index` of the stream `content` after encryption: the
/// name of the chunk.
pub open spec fn spec_post_hash(content: Seq<u8>, index: nat) -> Seq<u8> {
    spec_sha512(spec_chunk_cipher(content, index))
}

/// The descriptor of chunk `index` of the stream `content`.
pub open spec fn spec_descriptor(content: Seq<u8>, index: nat) -> ChunkDescriptorView {
    ChunkDescriptorView {
        pre_hash: spec_pre_hash(content, index),
        post_hash: spec_post_hash(content, index),
        source_size: spec_chunk_size(content.len(), index) as u32,
    }
}

/// The data map of the stream `content`: the bytes themselves where the
/// stream is too short to be cut, else the descriptors of its chunks in their
/// order.
pub open spec fn spec_data_map(content: Seq<u8>) -> DataMapView {
    if content.len() < 3 * MIN_CHUNK_SIZE {
        DataMapView::Inline { content }
    } else {
        DataMapView::Chunked {
            chunks: Seq::new(
                spec_num_chunks(content.len()),
                |i: int| spec_descriptor(content, i as nat),
            ),
            total_size: content.len() as u64,
        }
    }
}

/// The store `store` after the first `count` encrypted chunks of the stream
/// `content` were put into it, each under its name.
pub open spec fn spec_store_chunks(
    store: Map<Seq<u8>, Seq<u8>>,
    content: Seq<u8>,
    count: nat,
) -> Map<Seq<u8>, Seq<u8>>
    decreases count,
{
    if count == 0 {
        store
    } else {
        spec_put(
            spec_store_chunks(store, content, (count - 1) as nat),
            spec_post_hash(content, (count - 1) as nat),
            spec_chunk_cipher(content, (count - 1) as nat),
        )
    }
}

/// The store `store` after all encrypted chunks of the stream `content` were
/// put into it.
pub open spec fn spec_store_stream(store: Map<Seq<u8>, Seq<u8>>, content: Seq<u8>) -> Map<
    Seq<u8>,
    Seq<u8>,
> {
    spec_store_chunks(store, content, spec_num_chunks(content.len()))
}

/// What is wrong with the chunk that `store` holds for descriptor `index`,
/// if anything: the store has no chunk of that name, or the chunk it has does
/// not hash to the name.
pub open spec fn spec_chunk_fault(
    chunks: Seq<ChunkDescriptorView>,
    store: Map<Seq<u8>, Seq<u8>>,
    index: int,
) -> Option<EncryptorError> {
    let name = chunks[index].post_hash;
    if !store.dom().contains(name) {
        Some(EncryptorError::StoreError(StoreError::NotFound))
    } else if spec_sha512(store[name]) != name {
        Some(EncryptorError::IntegrityError)
    } else {
        None
    }
}

/// The bytes that the chunk which `store` holds for descriptor `index`
/// decrypts to, under the key that the descriptors of its neighbours give.
pub open spec fn spec_fetched_plain(
    chunks: Seq<ChunkDescriptorView>,
    store: Map<Seq<u8>, Seq<u8>>,
    index: int,
) -> Seq<u8> {
    spec_decrypt_chunk(
        chunks[spec_ring_previous(index as nat, chunks.len()) as int].pre_hash,
        chunks[spec_ring_next(index as nat, chunks.len()) as int].pre_hash,
        store[chunks[index].post_hash],
    )
}

/// The first `count` chunks fetched, checked, decrypted and joined in their
/// order, or what is wrong with the first chunk that something is wrong
/// with.
pub open spec fn spec_reassemble(
    chunks: Seq<ChunkDescriptorView>,
    store: Map<Seq<u8>, Seq<u8>>,
    count: nat,
) -> Result<Seq<u8>, EncryptorError>
    decreases count,
{
    if count == 0 {
        Ok(Seq::empty())
    } else {
        match spec_reassemble(chunks, store, (count - 1) as nat) {
            Err(error) => Err(error),
            Ok(bytes) => match spec_chunk_fault(chunks, store, count - 1) {
                Some(error) => Err(error),
                None => Ok(bytes + spec_fetched_plain(chunks, store, count - 1)),
            },
        }
    }
}

/// The stream that a data map and a store give: the bytes of an inline map,
/// the reassembled chunks of a chunked one.
pub open spec fn spec_decrypt(map: DataMapView, store: Map<Seq<u8>, Seq<u8>>) -> Result<
    Seq<u8>,
    EncryptorError,
> {
    match map {
        DataMapView::Inline { content } => Ok(content),
        DataMapView::Chunked { chunks, total_size } => spec_reassemble(chunks, store, chunks.len()),
    }
}

/// Tells whether the encrypted chunks of the stream `content` can all be
/// kept in `store` at once. Under the name of a chunk the store holds nothing
/// or that chunk, and two chunks of the stream that share a name are the same
/// bytes. Both hold unless two different byte strings have one hash, or
/// something was put into the store under a name that is not its hash.
pub open spec fn spec_names_agree(store: Map<Seq<u8>, Seq<u8>>, content: Seq<u8>) -> bool {
    let count = spec_num_chunks(content.len());
    &&& forall|i: nat|
        i < count && store.dom().contains(#[trigger] spec_post_hash(content, i))
            ==> store[spec_post_hash(content, i)] == spec_chunk_cipher(content, i)
    &&& forall|i: nat, j: nat|
        i < count && j < count && #[trigger] spec_post_hash(content, i)
            == #[trigger] spec_post_hash(content, j) ==> spec_chunk_cipher(content, i)
            == spec_chunk_cipher(content, j)
}

/// After the first `count` chunks were put, the store holds each of them.
proof fn lemma_store_chunks_holds(
    store: Map<Seq<u8>, Seq<u8>>,
    content: Seq<u8>,
    count: nat,
    index: nat,
)
    requires
        spec_names_agree(store, content),
        index < count <= spec_num_chunks(content.len()),
    ensures
        spec_store_chunks(store, content, count).dom().contains(spec_post_hash(content, index)),
        spec_store_chunks(store, content, count)[spec_post_hash(content, index)]
            == spec_chunk_cipher(content, index),
    decreases count,
{
    let before = spec_store_chunks(store, content, (count - 1) as nat);
    let name = spec_post_hash(content, index);
    let last = (count - 1) as nat;
    if index < last {
        lemma_store_chunks_holds(store, content, last, index);
    } else {
        if before.dom().contains(name) {
            lemma_store_chunks_origin(store, content, last, name);
        }
    }
}

/// Whatever a store holds after chunks were put, it held before or is one of
/// the chunks.
proof fn lemma_store_chunks_origin(
    store: Map<Seq<u8>, Seq<u8>>,
    content: Seq<u8>,
    count: nat,
    name: Seq<u8>,
)
    requires
        spec_store_chunks(store, content, count).dom().contains(name),
    ensures
        (store.dom().contains(name) && spec_store_chunks(store, content, count)[name]
            == store[name]) || (exists|j: nat|
            j < count && #[trigger] spec_post_hash(content, j) == name && spec_store_chunks(
                store,
                content,
                count,
            )[name] == spec_chunk_cipher(content, j)),
    decreases count,
{
    if count > 0 {
        let last = (count - 1) as nat;
        let before = spec_store_chunks(store, content, last);
        if before.dom().contains(name) {
            lemma_store_chunks_origin(store, content, last, name);
        } else {
            assert(spec_post_hash(content, last) == name);
        }
    }
}

/// The chunks of a stream up to chunk `count`, joined, are the stream up to
/// where chunk `count` starts.
proof fn lemma_chunks_join(content: Seq<u8>, count: nat)
    requires
        count <= spec_num_chunks(content.len()),
    ensures
        spec_joined_chunks(content, count) == content.subrange(
            0,
            spec_chunk_offset(content.len(), count) as int,
        ),
        spec_chunk_offset(content.len(), count) <= content.len(),
    decreases count,
{
    if count > 0 {
        let last = (count - 1) as nat;
        lemma_chunks_join(content, last);
        lemma_chunk_within_stream(content.len(), last);
        let start = spec_chunk_offset(content.len(), last) as int;
        let end = spec_chunk_offset(content.len(), count) as int;
        assert(content.subrange(0, start) + content.subrange(start, end) =~= content.subrange(
            0,
            end,
        ));
    } else {
        assert(content.subrange(0, 0) =~= Seq::<u8>::empty());
    }
}

/// The first `count` chunks of the stream `content`, joined in their order.
pub open spec fn spec_joined_chunks(content: Seq<u8>, count: nat) -> Seq<u8>
    decreases count,
{
    if count == 0 {
        Seq::empty()
    } else {
        spec_joined_chunks(content, (count - 1) as nat) + spec_chunk_plain(
            content,
            (count - 1) as nat,
        )
    }
}

/// A stream is its chunks joined in their order, if it is long enough to be
/// cut.
pub proof fn lemma_stream_is_joined_chunks(content: Seq<u8>)
    requires
        content.len() >= 3 * MIN_CHUNK_SIZE,
    ensures
        spec_joined_chunks(content, spec_num_chunks(content.len())) == content,
{
    let count = spec_num_chunks(content.len());
    lemma_chunks_join(content, count);
    lemma_chunk_sizes_cover_stream(content.len());
    assert(content.subrange(0, content.len() as int) =~= content);
}

/// The neighbours of a chunk in the ring are chunks of the ring.
pub proof fn lemma_ring_neighbours(index: nat, count: nat)
    requires
        index < count,
    ensures
        spec_ring_previous(index, count) < count,
        spec_ring_next(index, count) < count,
        spec_ring_previous(index, count) == if index == 0 {
            (count - 1) as nat
        } else {
            (index - 1) as nat
        },
        spec_ring_next(index, count) == if index + 1 == count {
            0nat
        } else {
            index + 1
        },
{
    let c = count as int;
    if index == 0 {
        vstd::arithmetic::div_mod::lemma_small_mod((count - 1) as nat, count);
    } else {
        assert((index + count - 1) % c == (index - 1) % c) by {
            vstd::arithmetic::div_mod::lemma_mod_add_multiples_vanish(index - 1, c);
        }
        vstd::arithmetic::div_mod::lemma_small_mod((index - 1) as nat, count);
    }
    if index + 1 == count {
        vstd::arithmetic::div_mod::lemma_mod_self_0(c);
    } else {
        vstd::arithmetic::div_mod::lemma_small_mod(index + 1, count);
    }
}

/// With the chunks of a stream in the store, reassembling the first `count`
/// of them gives the stream up to where chunk `count` starts.
proof fn lemma_reassemble_stored(content: Seq<u8>, store: Map<Seq<u8>, Seq<u8>>, count: nat)
    requires
        content.len() <= u64::MAX,
        count <= spec_num_chunks(content.len()),
        spec_data_map(content) is Chunked,
        forall|i: nat|
            i < spec_num_chunks(content.len()) ==> store.dom().contains(
                #[trigger] spec_post_hash(content, i),
            ) && store[spec_post_hash(content, i)] == spec_chunk_cipher(content, i),
    ensures
        spec_reassemble(spec_data_map(content)->chunks, store, count) == Ok::<
            Seq<u8>,
            EncryptorError,
        >(spec_joined_chunks(content, count)),
    decreases count,
{
    if count > 0 {
        let last = (count - 1) as nat;
        let total = spec_num_chunks(content.len());
        let chunks = spec_data_map(content)->chunks;
        lemma_reassemble_stored(content, store, last);
        lemma_ring_neighbours(last, total);
        assert(store.dom().contains(spec_post_hash(content, last)));
        assert(chunks[last as int] == spec_descriptor(content, last));
        assert(chunks[spec_ring_previous(last, total) as int] == spec_descriptor(
            content,
            spec_ring_previous(last, total),
        ));
        assert(chunks[spec_ring_next(last, total) as int] == spec_descriptor(
            content,
            spec_ring_next(last, total),
        ));
        lemma_decrypt_encrypt(
            spec_pre_hash(content, spec_ring_previous(last, total)),
            spec_pre_hash(content, spec_ring_next(last, total)),
            spec_chunk_plain(content, last),
        );
        assert(spec_chunk_fault(chunks, store, last as int) is None);
        assert(spec_fetched_plain(chunks, store, last as int) == spec_chunk_plain(content, last));
    }
}

/// A stream comes back from its data map and the store that its encrypted
/// chunks were put into: where all of `content` is written at the start of an
/// empty stream, the stream is `content`, and decrypting its data map from
/// the store gives exactly those bytes, whatever they are and however many.
/// This rests on the store being able to keep the chunks apart by their
/// names.
pub proof fn lemma_round_trip(content: Seq<u8>, store: Map<Seq<u8>, Seq<u8>>)
    requires
        content.len() <= u64::MAX,
        spec_names_agree(store, content),
    ensures
        spec_write(Seq::empty(), content, content.len(), 0) == content,
        spec_decrypt(spec_data_map(content), spec_store_stream(store, content)) == Ok::<
            Seq<u8>,
            EncryptorError,
        >(content),
{
    assert(spec_write(Seq::empty(), content, content.len(), 0) =~= content);
    if content.len() >= 3 * MIN_CHUNK_SIZE {
        let count = spec_num_chunks(content.len());
        let after = spec_store_stream(store, content);
        assert forall|i: nat| i < count implies after.dom().contains(
            #[trigger] spec_post_hash(content, i),
        ) && after[spec_post_hash(content, i)] == spec_chunk_cipher(content, i) by {
            lemma_store_chunks_holds(store, content, count, i);
        }
        lemma_reassemble_stored(content, after, count);
        lemma_stream_is_joined_chunks(content);
    }
}

/// No chunk is put under a name that holds other bytes: while the chunks of
/// a stream are put into a store that can keep them apart by their names, the
/// store holds under the name of each chunk either nothing or that chunk. So
/// it is when a second encryptor puts the chunks of the same stream.
pub proof fn lemma_puts_never_conflict(
    content: Seq<u8>,
    store: Map<Seq<u8>, Seq<u8>>,
    count: nat,
    index: nat,
)
    requires
        spec_names_agree(store, content),
        count <= spec_num_chunks(content.len()),
        index < spec_num_chunks(content.len()),
        spec_store_chunks(store, content, count).dom().contains(spec_post_hash(content, index)),
    ensures
        spec_store_chunks(store, content, count)[spec_post_hash(content, index)]
            == spec_chunk_cipher(content, index),
        spec_names_agree(spec_store_stream(store, content), content),
{
    lemma_store_chunks_origin(store, content, count, spec_post_hash(content, index));
    let total = spec_num_chunks(content.len());
    assert forall|i: nat|
        i < total implies spec_store_stream(store, content)[#[trigger] spec_post_hash(content, i)]
        == spec_chunk_cipher(content, i) by {
        lemma_store_chunks_holds(store, content, total, i);
    }
}

/// Encrypting a stream that the store already holds adds nothing: where a
/// second encryptor is given the bytes that a first was given, it builds the
/// same data map, and each chunk it puts is under a name that is taken, so the
/// store stays as the first encryptor left it.
pub proof fn lemma_same_stream_same_chunks(
    first: Seq<u8>,
    second: Seq<u8>,
    store: Map<Seq<u8>, Seq<u8>>,
)
    requires
        first == second,
    ensures
        spec_data_map(first) == spec_data_map(second),
        spec_store_stream(spec_store_stream(store, first), second) == spec_store_stream(
            store,
            first,
        ),
{
    let after = spec_store_stream(store, first);
    lemma_store_again(store, first, spec_num_chunks(first.len()));
}

/// Putting the first `count` chunks of a stream once more, into the store
/// that holds all of them, changes nothing.
proof fn lemma_store_again(store: Map<Seq<u8>, Seq<u8>>, content: Seq<u8>, count: nat)
    requires
        count <= spec_num_chunks(content.len()),
    ensures
        spec_store_chunks(spec_store_stream(store, content), content, count) == spec_store_stream(
            store,
            content,
        ),
    decreases count,
{
    if count > 0 {
        let last = (count - 1) as nat;
        lemma_store_again(store, content, last);
        lemma_store_chunks_contains(store, content, spec_num_chunks(content.len()), last);
    }
}

/// After the first `count` chunks were put, the store holds something under
/// the name of each of them.
proof fn lemma_store_chunks_contains(
    store: Map<Seq<u8>, Seq<u8>>,
    content: Seq<u8>,
    count: nat,
    index: nat,
)
    requires
        index < count,
    ensures
        spec_store_chunks(store, content, count).dom().contains(spec_post_hash(content, index)),
    decreases count,
{
    if index + 1 < count {
        lemma_store_chunks_contains(store, content, (count - 1) as nat, index);
    }
}

/// Once a chunk is found wrong, reassembling more chunks fails in the same
/// way.
proof fn lemma_reassemble_stays_failed(
    chunks: Seq<ChunkDescriptorView>,
    store: Map<Seq<u8>, Seq<u8>>,
    failed: nat,
    count: nat,
)
    requires
        failed <= count,
        spec_reassemble(chunks, store, failed) is Err,
    ensures
        spec_reassemble(chunks, store, count) == spec_reassemble(chunks, store, failed),
    decreases count,
{
    if failed < count {
        lemma_reassemble_stays_failed(chunks, store, failed, (count - 1) as nat);
    }
}

/// Puts a stream together again from its data map and the store that holds
/// its chunks. The bytes of an inline map are handed back as they are. For a
/// chunked map each chunk is fetched by its name, checked against that name,
/// decrypted under the key that the descriptors of its neighbours give, and
/// joined to the chunks before it. The first chunk that the store does not
/// hold, or that does not hash to its name, ends the work with its error.
pub fn decrypt(data_map: &DataMap, store: &ChunkStore) -> (stream: Result<Vec<u8>, EncryptorError>)
    ensures
        match stream {
            Ok(bytes) => spec_decrypt(data_map@, store@) == Ok::<Seq<u8>, EncryptorError>(bytes@),
            Err(error) => spec_decrypt(data_map@, store@) == Err::<Seq<u8>, EncryptorError>(error),
        },
{
    match data_map {
        DataMap::Inline { content } => Ok(vstd::slice::slice_to_vec(content.as_slice())),
        DataMap::Chunked { chunks, total_size } => {
            let ghost views = data_map@->chunks;
            let count: usize = chunks.len();
            let mut bytes: Vec<u8> = Vec::new();
            let mut i: usize = 0;
            while i < count
                invariant
                    i <= count,
                    count == chunks@.len(),
                    views == Seq::new(chunks@.len(), |k: int| chunks@[k]@),
                    data_map@ is Chunked,
                    data_map@->chunks == views,
                    spec_reassemble(views, store@, i as nat) == Ok::<Seq<u8>, EncryptorError>(
                        bytes@,
                    ),
                decreases count - i,
            {
                let descriptor: &ChunkDescriptor = &chunks[i];
                assert(views[i as int] == descriptor@);
                let cipher: Vec<u8> = match store.get(descriptor.post_hash.as_slice()) {
                    Ok(cipher) => cipher,
                    Err(error) => {
                        proof {
                            lemma_reassemble_stays_failed(
                                views,
                                store@,
                                (i + 1) as nat,
                                count as nat,
                            );
                        }
                        return Err(EncryptorError::StoreError(error));
                    },
                };
                let name: Vec<u8> = sha512(cipher.as_slice());
                if !bytes_equal(name.as_slice(), descriptor.post_hash.as_slice()) {
                    proof {
                        lemma_reassemble_stays_failed(views, store@, (i + 1) as nat, count as nat);
                    }
                    return Err(EncryptorError::IntegrityError);
                }
                let previous: usize = if i == 0 {
                    count - 1
                } else {
                    i - 1
                };
                let next: usize = if i + 1 == count {
                    0
                } else {
                    i + 1
                };
                proof {
                    lemma_ring_neighbours(i as nat, count as nat);
                }
                let plain: Vec<u8> = decrypt_chunk(
                    chunks[previous].pre_hash.as_slice(),
                    chunks[next].pre_hash.as_slice(),
                    cipher.as_slice(),
                );
                append_bytes(&mut bytes, plain.as_slice());
                i = i + 1;
            }
            Ok(bytes)
        },
    }
}

} // verus!
