//! The data map: what is needed to find the chunks of a stream and to put
//! the stream together again.

use crate::chunking::{
    chunk_size, lemma_chunk_sizes_cover_stream, num_chunks, spec_chunk_offset, spec_chunk_size,
    spec_num_chunks, MIN_CHUNK_SIZE,
};
use crate::encryption::HASH_SIZE;
use vstd::prelude::*;

verus! {

/// What is kept of one chunk.
#[derive(Clone, Debug, PartialEq, Eq)]
pub struct ChunkDescriptor {
    /// Hash of the chunk before encryption.
    pub pre_hash: Vec<u8>,
    /// Hash of the chunk after encryption, which is the name that a store
    /// keeps it under.
    pub post_hash: Vec<u8>,
    /// Number of bytes of the chunk before encryption.
    pub source_size: u32,
}

/// A chunk descriptor as contracts speak of it.
pub struct ChunkDescriptorView {
    pub pre_hash: Seq<u8>,
    pub post_hash: Seq<u8>,
    pub source_size: u32,
}

impl View for ChunkDescriptor {
    type V = ChunkDescriptorView;

    open spec fn view(&self) -> ChunkDescriptorView {
        ChunkDescriptorView {
            pre_hash: self.pre_hash@,
            post_hash: self.post_hash@,
            source_size: self.source_size,
        }
    }
}

/// How to put a stream together again.
#[derive(Clone, Debug, PartialEq, Eq)]
pub enum DataMap {
    /// The stream was cut into chunks, which are described in the order in
    /// which they follow each other in the stream.
    Chunked { chunks: Vec<ChunkDescriptor>, total_size: u64 },
    /// The stream was too short to be cut: these are its bytes, as they are.
    Inline { content: Vec<u8> },
}

/// A data map as contracts speak of it.
pub enum DataMapView {
    Chunked { chunks: Seq<ChunkDescriptorView>, total_size: u64 },
    Inline { content: Seq<u8> },
}

impl View for DataMap {
    type V = DataMapView;

    open spec fn view(&self) -> DataMapView {
        match self {
            DataMap::Chunked { chunks, total_size } => DataMapView::Chunked {
                chunks: Seq::new(chunks@.len(), |i: int| chunks@[i]@),
                total_size: *total_size,
            },
            DataMap::Inline { content } => DataMapView::Inline { content: content@ },
        }
    }
}

/// Tells whether a descriptor can be the one of chunk `index` of a stream of
/// `total_size` bytes: its size is that of the chunk and its hashes have the
/// length of a hash.
pub open spec fn spec_descriptor_fits(
    descriptor: ChunkDescriptorView,
    total_size: nat,
    index: nat,
) -> bool {
    &&& descriptor.source_size == spec_chunk_size(total_size, index)
    &&& descriptor.pre_hash.len() == HASH_SIZE
    &&& descriptor.post_hash.len() == HASH_SIZE
}

/// Tells whether a data map can be that of a stream. A chunked map is of a
/// stream long enough to be cut, and holds one fitting descriptor for each
/// chunk of a stream of its size, so the sizes of its chunks add up to its
/// size. An inline map is of a stream too short to be cut.
pub open spec fn spec_well_formed(map: DataMapView) -> bool {
    match map {
        DataMapView::Chunked { chunks, total_size } => {
            &&& total_size >= 3 * MIN_CHUNK_SIZE
            &&& chunks.len() == spec_num_chunks(total_size as nat)
            &&& forall|i: int|
                0 <= i < chunks.len() ==> spec_descriptor_fits(
                    #[trigger] chunks[i],
                    total_size as nat,
                    i as nat,
                )
        },
        DataMapView::Inline { content } => content.len() < 3 * MIN_CHUNK_SIZE,
    }
}

/// The number of bytes of the stream that a data map is of.
pub open spec fn spec_stream_size(map: DataMapView) -> nat {
    match map {
        DataMapView::Chunked { chunks, total_size } => total_size as nat,
        DataMapView::Inline { content } => content.len(),
    }
}

/// The sizes of the first `count` chunks that a map describes, added up.
pub open spec fn spec_sizes_sum(chunks: Seq<ChunkDescriptorView>, count: nat) -> nat
    decreases count,
{
    if count == 0 {
        0
    } else {
        spec_sizes_sum(chunks, (count - 1) as nat) + chunks[count - 1].source_size as nat
    }
}

/// The sizes of the first chunks of a well-formed map add up to where the
/// next chunk starts.
proof fn lemma_sizes_sum_is_offset(chunks: Seq<ChunkDescriptorView>, total_size: u64, count: nat)
    requires
        spec_well_formed(DataMapView::Chunked { chunks, total_size }),
        count <= chunks.len(),
    ensures
        spec_sizes_sum(chunks, count) == spec_chunk_offset(total_size as nat, count),
    decreases count,
{
    if count > 0 {
        lemma_sizes_sum_is_offset(chunks, total_size, (count - 1) as nat);
        assert(spec_descriptor_fits(chunks[count - 1], total_size as nat, (count - 1) as nat));
    }
}

/// The sizes of the chunks of a well-formed chunked map add up to the size
/// of the stream.
pub proof fn lemma_sizes_add_up(chunks: Seq<ChunkDescriptorView>, total_size: u64)
    requires
        spec_well_formed(DataMapView::Chunked { chunks, total_size }),
    ensures
        spec_sizes_sum(chunks, chunks.len()) == total_size,
{
    lemma_sizes_sum_is_offset(chunks, total_size, chunks.len());
    lemma_chunk_sizes_cover_stream(total_size as nat);
}

impl DataMap {
    /// Gives the number of bytes of the stream that the map is of.
    pub fn len(&self) -> (size: u64)
        ensures
            size == spec_stream_size(self@),
    {
        match self {
            DataMap::Chunked { chunks, total_size } => *total_size,
            DataMap::Inline { content } => content.len() as u64,
        }
    }

    /// Tells whether the map can be that of a stream: whether it is well
    /// formed.
    pub fn is_well_formed(&self) -> (fine: bool)
        ensures
            fine == spec_well_formed(self@),
    {
        match self {
            DataMap::Inline { content } => content.len() < 3 * (MIN_CHUNK_SIZE as usize),
            DataMap::Chunked { chunks, total_size } => {
                let ghost views = self@->chunks;
                if *total_size < 3 * (MIN_CHUNK_SIZE as u64) {
                    return false;
                }
                if chunks.len() as u64 != num_chunks(*total_size) {
                    return false;
                }
                let mut i: usize = 0;
                while i < chunks.len()
                    invariant
                        i <= chunks@.len(),
                        views == Seq::new(chunks@.len(), |k: int| chunks@[k]@),
                        self@ == (DataMapView::Chunked { chunks: views, total_size: *total_size }),
                        *total_size >= 3 * MIN_CHUNK_SIZE,
                        chunks@.len() == spec_num_chunks(*total_size as nat),
                        forall|k: int|
                            0 <= k < i ==> spec_descriptor_fits(
                                #[trigger] views[k],
                                *total_size as nat,
                                k as nat,
                            ),
                    decreases chunks@.len() - i,
                {
                    let chunk: &ChunkDescriptor = &chunks[i];
                    assert(views[i as int] == chunk@);
                    if chunk.source_size != chunk_size(*total_size, i as u64)
                        || chunk.pre_hash.len() != HASH_SIZE || chunk.post_hash.len()
                        != HASH_SIZE {
                        assert(!spec_descriptor_fits(
                            views[i as int],
                            *total_size as nat,
                            i as nat,
                        ));
                        return false;
                    }
                    i = i + 1;
                }
                true
            },
        }
    }
}

} // verus!
