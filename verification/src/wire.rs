//! The data map as bytes.
//!
//! A data map starts with one byte that tells its kind, 0 for an inline map
//! and 1 for a chunked one. An inline map goes on with the number of its
//! bytes and the bytes. A chunked map goes on with the number of its chunks,
//! the size of the stream in 8 bytes, and then chunk by chunk, in the order
//! of the stream, the hash before encryption, the hash after encryption and
//! the size of the chunk in 4 bytes.
//!
//! The two counts are written in groups of seven bits, the lowest group
//! first, each group in a byte whose top bit tells whether more follow, and
//! in no more bytes than the count needs. Sizes are written with their lowest
//! byte first.

use crate::bytes::append_bytes;
use crate::chunking::{chunk_size, num_chunks, MIN_CHUNK_SIZE};
use crate::datamap::{
    spec_descriptor_fits, spec_well_formed, ChunkDescriptor, ChunkDescriptorView, DataMap,
    DataMapView,
};
use crate::encryption::HASH_SIZE;
use vstd::prelude::*;

verus! {

/// `value` written in `width` bytes, the lowest byte first. What does not
/// fit in `width` bytes is left out.
pub open spec fn spec_le_bytes(value: nat, width: nat) -> Seq<u8>
    decreases width,
{
    if width == 0 {
        Seq::empty()
    } else {
        seq![(value % 256) as u8] + spec_le_bytes(value / 256, (width - 1) as nat)
    }
}

/// The number that `bytes` are, read with the lowest byte first.
pub open spec fn spec_le_value(bytes: Seq<u8>) -> nat
    decreases bytes.len(),
{
    if bytes.len() == 0 {
        0
    } else {
        bytes[0] as nat + 256 * spec_le_value(bytes.drop_first())
    }
}

/// The number of values that `width` bytes can tell apart.
pub open spec fn spec_le_limit(width: nat) -> nat
    decreases width,
{
    if width == 0 {
        1
    } else {
        256 * spec_le_limit((width - 1) as nat)
    }
}

/// Four bytes tell apart the values of a `u32`, eight bytes those of a `u64`.
pub proof fn lemma_le_limits()
    ensures
        spec_le_limit(4) == u32::MAX + 1,
        spec_le_limit(8) == u64::MAX + 1,
{
    reveal_with_fuel(spec_le_limit, 9);
}

/// A number written in enough bytes reads back as itself.
pub proof fn lemma_le_value_of_bytes(value: nat, width: nat)
    requires
        value < spec_le_limit(width),
    ensures
        spec_le_bytes(value, width).len() == width,
        spec_le_value(spec_le_bytes(value, width)) == value,
    decreases width,
{
    if width > 0 {
        lemma_le_value_of_bytes(value / 256, (width - 1) as nat);
        assert(spec_le_bytes(value, width).drop_first() =~= spec_le_bytes(
            value / 256,
            (width - 1) as nat,
        ));
    }
}

/// Bytes read as a number are below the limit of their length, and the
/// number written in as many bytes gives them back.
pub proof fn lemma_le_bytes_of_value(bytes: Seq<u8>)
    ensures
        spec_le_value(bytes) < spec_le_limit(bytes.len()),
        spec_le_bytes(spec_le_value(bytes), bytes.len()) == bytes,
    decreases bytes.len(),
{
    if bytes.len() > 0 {
        lemma_le_bytes_of_value(bytes.drop_first());
        let rest = spec_le_value(bytes.drop_first());
        assert((bytes[0] as nat + 256 * rest) / 256 == rest);
        assert((bytes[0] as nat + 256 * rest) % 256 == bytes[0] as nat);
        assert(spec_le_bytes(spec_le_value(bytes), bytes.len()) =~= bytes);
    } else {
        assert(spec_le_bytes(spec_le_value(bytes), bytes.len()) =~= bytes);
    }
}

/// Appends `value` to `out` in `width` bytes, the lowest byte first.
pub fn put_le(out: &mut Vec<u8>, value: u64, width: usize)
    ensures
        final(out)@ == old(out)@ + spec_le_bytes(value as nat, width as nat),
{
    let mut left: u64 = value;
    let mut i: usize = 0;
    while i < width
        invariant
            i <= width,
            out@ + spec_le_bytes(left as nat, (width - i) as nat) == old(out)@ + spec_le_bytes(
                value as nat,
                width as nat,
            ),
        decreases width - i,
    {
        let ghost before = out@;
        out.push((left % 256) as u8);
        assert(before + spec_le_bytes(left as nat, (width - i) as nat) =~= out@ + spec_le_bytes(
            (left / 256) as nat,
            (width - i - 1) as nat,
        ));
        left = left / 256;
        i = i + 1;
    }
    assert(out@ + spec_le_bytes(left as nat, 0) =~= out@);
}

/// Reads the `width` bytes of `bytes` from `start` on as a number, the
/// lowest byte first.
pub fn get_le(bytes: &[u8], start: usize, width: usize) -> (value: u64)
    requires
        width <= 8,
        start + width <= bytes@.len(),
    ensures
        value == spec_le_value(bytes@.subrange(start as int, start + width)),
{
    let length: usize = bytes.len();
    let end: usize = start + width;
    assert(end <= length);
    let mut value: u64 = 0;
    let mut i: usize = 0;
    while i < width
        invariant
            i <= width <= 8,
            end == start + width,
            end <= bytes@.len(),
            value == spec_le_value(bytes@.subrange(end - i, end as int)),
            value < spec_le_limit(i as nat),
        decreases width - i,
    {
        let byte: u8 = bytes[end - i - 1];
        proof {
            let longer = bytes@.subrange(end - i - 1, end as int);
            assert(longer.drop_first() =~= bytes@.subrange(end - i, end as int));
            lemma_le_bytes_of_value(longer);
            lemma_le_limit_grows((i + 1) as nat, 8);
            lemma_le_limits();
        }
        value = value * 256 + byte as u64;
        i = i + 1;
    }
    value
}

/// More bytes tell more values apart.
proof fn lemma_le_limit_grows(width: nat, wider: nat)
    requires
        width <= wider,
    ensures
        spec_le_limit(width) <= spec_le_limit(wider),
    decreases wider,
{
    if width < wider {
        lemma_le_limit_grows(width, (wider - 1) as nat);
    }
}

/// `value` written in groups of seven bits, the lowest group first. Each
/// byte but the last has its top bit set.
pub open spec fn spec_varint(value: nat) -> Seq<u8>
    decreases value,
{
    if value < 128 {
        seq![value as u8]
    } else {
        seq![(128 + value % 128) as u8] + spec_varint(value / 128)
    }
}

/// The number that `bytes` start with, and how many bytes it takes, where
/// they start with a number written as `spec_varint` writes it.
pub open spec fn spec_parse_varint(bytes: Seq<u8>) -> Option<(nat, nat)>
    decreases bytes.len(),
{
    if bytes.len() == 0 {
        None
    } else if bytes[0] < 128 {
        Some((bytes[0] as nat, 1nat))
    } else {
        match spec_parse_varint(bytes.drop_first()) {
            None => None,
            Some((rest, used)) => if rest == 0 {
                None
            } else {
                Some(((bytes[0] - 128 + 128 * rest) as nat, used + 1))
            },
        }
    }
}

/// A number that was written, with anything after it, is read as that number
/// and as taking the bytes it was written in.
pub proof fn lemma_parse_varint_of_written(value: nat, tail: Seq<u8>)
    ensures
        spec_parse_varint(spec_varint(value) + tail) == Some((value, spec_varint(value).len())),
    decreases value,
{
    let bytes = spec_varint(value) + tail;
    if value >= 128 {
        lemma_parse_varint_of_written(value / 128, tail);
        assert(bytes.drop_first() =~= spec_varint(value / 128) + tail);
    }
}

/// What is read as a number is that number as it would be written.
pub proof fn lemma_written_of_parse_varint(bytes: Seq<u8>)
    requires
        spec_parse_varint(bytes) is Some,
    ensures
        spec_parse_varint(bytes) matches Some((value, used)) && used <= bytes.len()
            && bytes.subrange(0, used as int) == spec_varint(value),
    decreases bytes.len(),
{
    let (value, used) = spec_parse_varint(bytes).unwrap();
    if bytes[0] >= 128 {
        lemma_written_of_parse_varint(bytes.drop_first());
        let (rest, inner) = spec_parse_varint(bytes.drop_first()).unwrap();
        assert(value / 128 == rest);
        assert(value % 128 == bytes[0] - 128);
        assert(bytes.subrange(0, used as int) =~= seq![bytes[0]] + bytes.drop_first().subrange(
            0,
            inner as int,
        ));
    } else {
        assert(bytes.subrange(0, 1) =~= seq![bytes[0]]);
    }
}

/// Appends `value` to `out` in groups of seven bits.
pub fn put_varint(out: &mut Vec<u8>, value: u64)
    ensures
        final(out)@ == old(out)@ + spec_varint(value as nat),
{
    let mut left: u64 = value;
    while left >= 128
        invariant
            out@ + spec_varint(left as nat) == old(out)@ + spec_varint(value as nat),
        decreases left,
    {
        let ghost before = out@;
        out.push((128 + left % 128) as u8);
        assert(before + spec_varint(left as nat) =~= out@ + spec_varint((left / 128) as nat));
        left = left / 128;
    }
    let ghost before = out@;
    out.push(left as u8);
    assert(before + spec_varint(left as nat) =~= out@);
}

/// Bytes that all announce more bytes are no number.
proof fn lemma_parse_varint_unfinished(bytes: Seq<u8>)
    requires
        forall|k: int| 0 <= k < bytes.len() ==> bytes[k] >= 128,
    ensures
        spec_parse_varint(bytes) is None,
    decreases bytes.len(),
{
    if bytes.len() > 0 {
        assert forall|k: int| 0 <= k < bytes.drop_first().len() implies bytes.drop_first()[k]
            >= 128 by {
            assert(bytes.drop_first()[k] == bytes[k + 1]);
        }
        lemma_parse_varint_unfinished(bytes.drop_first());
    }
}

/// Reads the number that `bytes` hold from `start` on, and gives it with the
/// position after it. There is none where the bytes end too early, where the
/// number is written in more bytes than it needs, or where it is too large
/// for a `u64`.
pub fn parse_varint(bytes: &[u8], start: usize) -> (found: Option<(u64, usize)>)
    requires
        start <= bytes@.len(),
    ensures
        match spec_parse_varint(bytes@.subrange(start as int, bytes@.len() as int)) {
            Some((value, used)) => if value <= u64::MAX {
                found == Some((value as u64, (start + used) as usize))
            } else {
                found is None
            },
            None => found is None,
        },
{
    let ghost all = bytes@;
    let ghost end = bytes@.len() as int;
    let mut last: usize = start;
    while last < bytes.len() && bytes[last] >= 128
        invariant
            start <= last <= bytes@.len(),
            forall|k: int| start <= k < last ==> bytes@[k] >= 128,
        decreases bytes@.len() - last,
    {
        last = last + 1;
    }
    if last >= bytes.len() {
        proof {
            lemma_parse_varint_unfinished(all.subrange(start as int, end));
        }
        return None;
    }
    let mut value: u64 = bytes[last] as u64;
    let mut at: usize = last;
    assert(all.subrange(at as int, end)[0] == all[at as int]);
    while at > start
        invariant
            start <= at <= last < bytes@.len(),
            all == bytes@,
            end == bytes@.len(),
            forall|k: int| start <= k < last ==> bytes@[k] >= 128,
            spec_parse_varint(all.subrange(at as int, end)) == Some(
                (value as nat, (last - at + 1) as nat),
            ),
        decreases at,
    {
        let ghost inner = all.subrange(at as int, end);
        let ghost outer = all.subrange(at - 1, end);
        assert(outer.drop_first() =~= inner);
        assert(outer[0] == all[at - 1]);
        let low: u64 = (bytes[at - 1] - 128) as u64;
        if value == 0 {
            proof {
                lemma_parse_varint_stays_none(all, start as int, at - 1);
            }
            return None;
        }
        if value > (u64::MAX - low) / 128 {
            proof {
                lemma_parse_varint_stays_large(all, start as int, at - 1);
            }
            return None;
        }
        value = low + 128 * value;
        at = at - 1;
    }
    Some((value, last + 1))
}

/// Where no number starts at `at`, and the bytes before it announce more
/// bytes, no number starts at `start`.
proof fn lemma_parse_varint_stays_none(bytes: Seq<u8>, start: int, at: int)
    requires
        0 <= start <= at <= bytes.len(),
        forall|k: int| start <= k < at ==> bytes[k] >= 128,
        spec_parse_varint(bytes.subrange(at, bytes.len() as int)) is None,
    ensures
        spec_parse_varint(bytes.subrange(start, bytes.len() as int)) is None,
    decreases at - start,
{
    if start < at {
        let inner = bytes.subrange(at, bytes.len() as int);
        let outer = bytes.subrange(at - 1, bytes.len() as int);
        assert(outer.drop_first() =~= inner);
        assert(outer[0] == bytes[at - 1]);
        lemma_parse_varint_stays_none(bytes, start, at - 1);
    }
}

/// Where the number that starts at `at` is too large for a `u64`, and the
/// bytes before it announce more bytes, the number that starts at `start`,
/// if there is one, is too large as well.
proof fn lemma_parse_varint_stays_large(bytes: Seq<u8>, start: int, at: int)
    requires
        0 <= start <= at <= bytes.len(),
        forall|k: int| start <= k < at ==> bytes[k] >= 128,
        spec_parse_varint(bytes.subrange(at, bytes.len() as int)) matches Some((value, used))
            && value > u64::MAX,
    ensures
        spec_parse_varint(bytes.subrange(start, bytes.len() as int)) matches Some((value, used))
            ==> value > u64::MAX,
    decreases at - start,
{
    if start < at {
        let inner = bytes.subrange(at, bytes.len() as int);
        let outer = bytes.subrange(at - 1, bytes.len() as int);
        assert(outer.drop_first() =~= inner);
        assert(outer[0] == bytes[at - 1]);
        lemma_parse_varint_stays_large(bytes, start, at - 1);
    }
}

/// The byte that an inline map starts with.
pub const TAG_INLINE: u8 = 0;

/// The byte that a chunked map starts with.
pub const TAG_CHUNKED: u8 = 1;

/// Number of bytes that the size of a stream is written in.
pub const STREAM_SIZE_WIDTH: usize = 8;

/// Number of bytes that the size of a chunk is written in.
pub const CHUNK_SIZE_WIDTH: usize = 4;

/// Number of bytes that a chunk descriptor is written in: two hashes and the
/// size of the chunk.
pub const DESCRIPTOR_WIDTH: usize = 132;

/// A chunk descriptor as bytes: the hash before encryption, the hash after
/// encryption, and the size in four bytes.
pub open spec fn spec_encode_descriptor(descriptor: ChunkDescriptorView) -> Seq<u8> {
    descriptor.pre_hash + descriptor.post_hash + spec_le_bytes(
        descriptor.source_size as nat,
        CHUNK_SIZE_WIDTH as nat,
    )
}

/// Chunk descriptors as bytes, one after the other in their order.
pub open spec fn spec_encode_descriptors(chunks: Seq<ChunkDescriptorView>) -> Seq<u8>
    decreases chunks.len(),
{
    if chunks.len() == 0 {
        Seq::empty()
    } else {
        spec_encode_descriptors(chunks.drop_last()) + spec_encode_descriptor(chunks.last())
    }
}

/// A data map as bytes.
pub open spec fn spec_encode(map: DataMapView) -> Seq<u8> {
    match map {
        DataMapView::Inline { content } => seq![TAG_INLINE] + spec_varint(content.len())
            + content,
        DataMapView::Chunked { chunks, total_size } => seq![TAG_CHUNKED] + spec_varint(
            chunks.len(),
        ) + spec_le_bytes(total_size as nat, STREAM_SIZE_WIDTH as nat) + spec_encode_descriptors(
            chunks,
        ),
    }
}

/// The chunk descriptor that 132 bytes are.
spec fn spec_decode_descriptor(bytes: Seq<u8>) -> ChunkDescriptorView {
    ChunkDescriptorView {
        pre_hash: bytes.subrange(0, HASH_SIZE as int),
        post_hash: bytes.subrange(HASH_SIZE as int, 2 * HASH_SIZE),
        source_size: spec_le_value(bytes.subrange(2 * HASH_SIZE, DESCRIPTOR_WIDTH as int)) as u32,
    }
}

/// The bytes of descriptor `index` in what follows the size of the stream.
spec fn spec_descriptor_bytes(bytes: Seq<u8>, index: int) -> Seq<u8> {
    bytes.subrange(DESCRIPTOR_WIDTH * index, DESCRIPTOR_WIDTH * (index + 1))
}

/// The descriptors that `bytes` are, `count` of them.
spec fn spec_decode_descriptors(bytes: Seq<u8>, count: nat) -> Seq<ChunkDescriptorView> {
    Seq::new(count, |i: int| spec_decode_descriptor(spec_descriptor_bytes(bytes, i)))
}

/// The chunked map of `count` chunks that `body` describes, if it is one.
spec fn spec_decode_chunked(count: nat, body: Seq<u8>) -> Option<DataMapView> {
    let map = DataMapView::Chunked {
        chunks: spec_decode_descriptors(
            body.subrange(STREAM_SIZE_WIDTH as int, body.len() as int),
            count,
        ),
        total_size: spec_le_value(body.subrange(0, STREAM_SIZE_WIDTH as int)) as u64,
    };
    if body.len() == STREAM_SIZE_WIDTH + DESCRIPTOR_WIDTH * count && spec_well_formed(map) {
        Some(map)
    } else {
        None
    }
}

/// The data map that `bytes` are, if they are one.
spec fn spec_decode(bytes: Seq<u8>) -> Option<DataMapView> {
    if bytes.len() == 0 {
        None
    } else {
        match spec_parse_varint(bytes.drop_first()) {
            None => None,
            Some((count, used)) => {
                let body = bytes.subrange(1 + used as int, bytes.len() as int);
                if bytes[0] == TAG_INLINE {
                    if count < 3 * MIN_CHUNK_SIZE && body.len() == count {
                        Some(DataMapView::Inline { content: body })
                    } else {
                        None
                    }
                } else if bytes[0] == TAG_CHUNKED {
                    spec_decode_chunked(count, body)
                } else {
                    None
                }
            },
        }
    }
}

/// A descriptor with hashes of the right length is written in 132 bytes and
/// read back from them as itself.
proof fn lemma_decode_encoded_descriptor(descriptor: ChunkDescriptorView)
    requires
        descriptor.pre_hash.len() == HASH_SIZE,
        descriptor.post_hash.len() == HASH_SIZE,
    ensures
        spec_encode_descriptor(descriptor).len() == DESCRIPTOR_WIDTH,
        spec_decode_descriptor(spec_encode_descriptor(descriptor)) == descriptor,
{
    let bytes = spec_encode_descriptor(descriptor);
    let size = spec_le_bytes(descriptor.source_size as nat, CHUNK_SIZE_WIDTH as nat);
    lemma_le_limits();
    lemma_le_value_of_bytes(descriptor.source_size as nat, CHUNK_SIZE_WIDTH as nat);
    assert(bytes.subrange(0, HASH_SIZE as int) =~= descriptor.pre_hash);
    assert(bytes.subrange(HASH_SIZE as int, 2 * HASH_SIZE) =~= descriptor.post_hash);
    assert(bytes.subrange(2 * HASH_SIZE, DESCRIPTOR_WIDTH as int) =~= size);
}

/// What is read from 132 bytes as a descriptor is written as those bytes.
proof fn lemma_encode_decoded_descriptor(bytes: Seq<u8>)
    requires
        bytes.len() == DESCRIPTOR_WIDTH,
    ensures
        spec_encode_descriptor(spec_decode_descriptor(bytes)) == bytes,
        spec_decode_descriptor(bytes).pre_hash.len() == HASH_SIZE,
        spec_decode_descriptor(bytes).post_hash.len() == HASH_SIZE,
{
    let size = bytes.subrange(2 * HASH_SIZE, DESCRIPTOR_WIDTH as int);
    lemma_le_limits();
    lemma_le_bytes_of_value(size);
    assert(spec_encode_descriptor(spec_decode_descriptor(bytes)) =~= bytes);
}

/// Tells whether the hashes of all descriptors have the length of a hash.
spec fn spec_hashes_fit(chunks: Seq<ChunkDescriptorView>) -> bool {
    forall|i: int|
        0 <= i < chunks.len() ==> (#[trigger] chunks[i]).pre_hash.len() == HASH_SIZE
            && chunks[i].post_hash.len() == HASH_SIZE
}

/// Descriptors with hashes of the right length are written in 132 bytes
/// each.
proof fn lemma_encoded_descriptors_len(chunks: Seq<ChunkDescriptorView>)
    requires
        spec_hashes_fit(chunks),
    ensures
        spec_encode_descriptors(chunks).len() == DESCRIPTOR_WIDTH * chunks.len(),
    decreases chunks.len(),
{
    if chunks.len() > 0 {
        let front = chunks.drop_last();
        assert(spec_hashes_fit(front)) by {
            assert forall|i: int| 0 <= i < front.len() implies (#[trigger] front[i]).pre_hash.len()
                == HASH_SIZE && front[i].post_hash.len() == HASH_SIZE by {
                assert(front[i] == chunks[i]);
            }
        }
        lemma_encoded_descriptors_len(front);
        lemma_decode_encoded_descriptor(chunks.last());
    }
}

/// Each of the descriptors that were written is found at its place.
proof fn lemma_encoded_descriptor_place(chunks: Seq<ChunkDescriptorView>, index: int)
    requires
        spec_hashes_fit(chunks),
        0 <= index < chunks.len(),
    ensures
        spec_descriptor_bytes(spec_encode_descriptors(chunks), index) == spec_encode_descriptor(
            chunks[index],
        ),
    decreases chunks.len(),
{
    let bytes = spec_encode_descriptors(chunks);
    let front = chunks.drop_last();
    let head = spec_encode_descriptors(front);
    let tail = spec_encode_descriptor(chunks.last());
    assert(spec_hashes_fit(front)) by {
        assert forall|i: int| 0 <= i < front.len() implies (#[trigger] front[i]).pre_hash.len()
            == HASH_SIZE && front[i].post_hash.len() == HASH_SIZE by {
            assert(front[i] == chunks[i]);
        }
    }
    lemma_encoded_descriptors_len(front);
    lemma_decode_encoded_descriptor(chunks.last());
    assert(bytes == head + tail);
    assert(head.len() == DESCRIPTOR_WIDTH * front.len());
    assert(tail.len() == DESCRIPTOR_WIDTH);
    if index < front.len() {
        lemma_encoded_descriptor_place(front, index);
        assert(front[index] == chunks[index]);
        assert((head + tail).subrange(
            DESCRIPTOR_WIDTH * index,
            DESCRIPTOR_WIDTH * (index + 1),
        ) =~= head.subrange(DESCRIPTOR_WIDTH * index, DESCRIPTOR_WIDTH * (index + 1)));
    } else {
        assert((head + tail).subrange(
            DESCRIPTOR_WIDTH * index,
            DESCRIPTOR_WIDTH * (index + 1),
        ) =~= tail);
    }
}

/// Descriptors with hashes of the right length are read back from the bytes
/// they are written as.
proof fn lemma_encoded_descriptors(chunks: Seq<ChunkDescriptorView>)
    requires
        spec_hashes_fit(chunks),
    ensures
        spec_encode_descriptors(chunks).len() == DESCRIPTOR_WIDTH * chunks.len(),
        spec_decode_descriptors(spec_encode_descriptors(chunks), chunks.len()) == chunks,
{
    let bytes = spec_encode_descriptors(chunks);
    lemma_encoded_descriptors_len(chunks);
    assert forall|i: int| 0 <= i < chunks.len() implies spec_decode_descriptors(
        bytes,
        chunks.len(),
    )[i] == chunks[i] by {
        lemma_encoded_descriptor_place(chunks, i);
        lemma_decode_encoded_descriptor(chunks[i]);
    }
    assert(spec_decode_descriptors(bytes, chunks.len()) =~= chunks);
}

/// The descriptors read from bytes are written as those bytes.
proof fn lemma_decoded_descriptors(bytes: Seq<u8>, count: nat)
    requires
        bytes.len() == DESCRIPTOR_WIDTH * count,
    ensures
        spec_encode_descriptors(spec_decode_descriptors(bytes, count)) == bytes,
    decreases count,
{
    let chunks = spec_decode_descriptors(bytes, count);
    if count > 0 {
        let fewer = (count - 1) as nat;
        let front = bytes.subrange(0, DESCRIPTOR_WIDTH * fewer);
        lemma_decoded_descriptors(front, fewer);
        assert forall|i: int| 0 <= i < fewer implies spec_decode_descriptors(front, fewer)[i]
            == chunks.drop_last()[i] by {
            assert(spec_descriptor_bytes(front, i) =~= spec_descriptor_bytes(bytes, i));
        }
        assert(spec_decode_descriptors(front, fewer) =~= chunks.drop_last());
        lemma_encode_decoded_descriptor(spec_descriptor_bytes(bytes, fewer as int));
        assert(front + spec_descriptor_bytes(bytes, fewer as int) =~= bytes);
    } else {
        assert(bytes =~= Seq::<u8>::empty());
    }
}

/// What is read as a chunked map is well formed, and its size and
/// descriptors are written as the bytes they were read from.
proof fn lemma_encode_decoded_chunked(count: nat, body: Seq<u8>)
    requires
        spec_decode_chunked(count, body) is Some,
    ensures
        ({
            &&& spec_decode_chunked(count, body) matches Some(map)
            &&& spec_well_formed(map)
            &&& map matches DataMapView::Chunked { chunks, total_size }
            &&& chunks.len() == count
            &&& spec_le_bytes(total_size as nat, STREAM_SIZE_WIDTH as nat)
                + spec_encode_descriptors(chunks) == body
        }),
{
    let size = body.subrange(0, STREAM_SIZE_WIDTH as int);
    let rest = body.subrange(STREAM_SIZE_WIDTH as int, body.len() as int);
    lemma_le_limits();
    lemma_le_bytes_of_value(size);
    lemma_decoded_descriptors(rest, count);
    assert(body =~= size + rest);
}

/// What is read from bytes as a data map is well formed and is written as
/// those bytes.
proof fn lemma_encode_decoded(bytes: Seq<u8>)
    requires
        spec_decode(bytes) is Some,
    ensures
        spec_well_formed(spec_decode(bytes).unwrap()),
        spec_encode(spec_decode(bytes).unwrap()) == bytes,
{
    let map = spec_decode(bytes).unwrap();
    let (count, used) = spec_parse_varint(bytes.drop_first()).unwrap();
    let body = bytes.subrange(1 + used as int, bytes.len() as int);
    let written = spec_varint(count);
    lemma_written_of_parse_varint(bytes.drop_first());
    assert(bytes.drop_first().subrange(0, used as int) == written);
    assert(bytes =~= seq![bytes[0]] + written + body);
    if bytes[0] == TAG_CHUNKED {
        lemma_encode_decoded_chunked(count, body);
        let total_size = map->total_size;
        let chunks = map->chunks;
        let size = spec_le_bytes(total_size as nat, STREAM_SIZE_WIDTH as nat);
        let rest = spec_encode_descriptors(chunks);
        assert(size + rest == body);
        assert(seq![bytes[0]] + written + size + rest =~= seq![bytes[0]] + written + (size
            + rest));
    }
}

/// A well-formed data map is read back from the bytes it is written as.
proof fn lemma_decode_encoded(map: DataMapView)
    requires
        spec_well_formed(map),
    ensures
        spec_decode(spec_encode(map)) == Some(map),
{
    let bytes = spec_encode(map);
    match map {
        DataMapView::Inline { content } => {
            lemma_parse_varint_of_written(content.len(), content);
            assert(bytes.drop_first() =~= spec_varint(content.len()) + content);
            let used = spec_varint(content.len()).len();
            assert(bytes.subrange(1 + used as int, bytes.len() as int) =~= content);
        },
        DataMapView::Chunked { chunks, total_size } => {
            let size = spec_le_bytes(total_size as nat, STREAM_SIZE_WIDTH as nat);
            let rest = spec_encode_descriptors(chunks);
            let used = spec_varint(chunks.len()).len();
            lemma_parse_varint_of_written(chunks.len(), size + rest);
            assert(bytes.drop_first() =~= spec_varint(chunks.len()) + (size + rest));
            let body = bytes.subrange(1 + used as int, bytes.len() as int);
            assert(body =~= size + rest);
            lemma_le_limits();
            lemma_le_value_of_bytes(total_size as nat, STREAM_SIZE_WIDTH as nat);
            lemma_encoded_descriptors(chunks);
            assert(body.subrange(0, STREAM_SIZE_WIDTH as int) =~= size);
            assert(body.subrange(STREAM_SIZE_WIDTH as int, body.len() as int) =~= rest);
        },
    }
}

/// No two well-formed data maps are written as the same bytes.
pub proof fn lemma_encoding_tells_maps_apart(first: DataMapView, second: DataMapView)
    requires
        spec_well_formed(first),
        spec_well_formed(second),
        spec_encode(first) == spec_encode(second),
    ensures
        first == second,
{
    lemma_decode_encoded(first);
    lemma_decode_encoded(second);
}

/// Writes a data map as bytes.
pub fn encode(data_map: &DataMap) -> (bytes: Vec<u8>)
    ensures
        bytes@ == spec_encode(data_map@),
{
    let mut bytes: Vec<u8> = Vec::new();
    match data_map {
        DataMap::Inline { content } => {
            bytes.push(TAG_INLINE);
            put_varint(&mut bytes, content.len() as u64);
            append_bytes(&mut bytes, content.as_slice());
        },
        DataMap::Chunked { chunks, total_size } => {
            let ghost views = data_map@->chunks;
            bytes.push(TAG_CHUNKED);
            put_varint(&mut bytes, chunks.len() as u64);
            put_le(&mut bytes, *total_size, STREAM_SIZE_WIDTH);
            let ghost head = bytes@;
            let mut i: usize = 0;
            assert(views.subrange(0, 0) =~= Seq::<ChunkDescriptorView>::empty());
            while i < chunks.len()
                invariant
                    i <= chunks@.len(),
                    views == Seq::new(chunks@.len(), |k: int| chunks@[k]@),
                    bytes@ == head + spec_encode_descriptors(views.subrange(0, i as int)),
                decreases chunks@.len() - i,
            {
                let ghost before = bytes@;
                let chunk: &ChunkDescriptor = &chunks[i];
                append_bytes(&mut bytes, chunk.pre_hash.as_slice());
                append_bytes(&mut bytes, chunk.post_hash.as_slice());
                put_le(&mut bytes, chunk.source_size as u64, CHUNK_SIZE_WIDTH);
                proof {
                    let longer = views.subrange(0, i + 1);
                    assert(longer.drop_last() =~= views.subrange(0, i as int));
                    assert(longer.last() == chunk@);
                    assert(bytes@ =~= before + spec_encode_descriptor(chunk@));
                }
                i = i + 1;
            }
            assert(views.subrange(0, i as int) =~= views);
        },
    }
    bytes
}

/// Reads descriptor `index` from the bytes that hold the descriptors of a
/// map from `start` on.
fn parse_descriptor(bytes: &[u8], start: usize, index: usize) -> (chunk: ChunkDescriptor)
    requires
        start + DESCRIPTOR_WIDTH * (index + 1) <= bytes@.len(),
    ensures
        chunk@ == spec_decode_descriptor(
            spec_descriptor_bytes(bytes@.subrange(start as int, bytes@.len() as int), index as int),
        ),
        chunk@.pre_hash.len() == HASH_SIZE,
        chunk@.post_hash.len() == HASH_SIZE,
{
    let length: usize = bytes.len();
    let at: usize = start + DESCRIPTOR_WIDTH * index;
    let ghost place = spec_descriptor_bytes(
        bytes@.subrange(start as int, bytes@.len() as int),
        index as int,
    );
    assert(place =~= bytes@.subrange(at as int, at + DESCRIPTOR_WIDTH));
    let pre_hash: Vec<u8> = vstd::slice::slice_to_vec(
        vstd::slice::slice_subrange(bytes, at, at + HASH_SIZE),
    );
    let post_hash: Vec<u8> = vstd::slice::slice_to_vec(
        vstd::slice::slice_subrange(bytes, at + HASH_SIZE, at + 2 * HASH_SIZE),
    );
    let size: u64 = get_le(bytes, at + 2 * HASH_SIZE, CHUNK_SIZE_WIDTH);
    proof {
        let field = bytes@.subrange(at + 2 * HASH_SIZE, at + DESCRIPTOR_WIDTH);
        assert(place.subrange(0, HASH_SIZE as int) =~= pre_hash@);
        assert(place.subrange(HASH_SIZE as int, 2 * HASH_SIZE) =~= post_hash@);
        assert(place.subrange(2 * HASH_SIZE, DESCRIPTOR_WIDTH as int) =~= field);
        lemma_le_bytes_of_value(field);
        lemma_le_limits();
    }
    ChunkDescriptor { pre_hash, post_hash, source_size: size as u32 }
}

/// Reads the chunked map of `count` chunks whose size and descriptors the
/// bytes hold from `start` on.
fn parse_chunked(bytes: &[u8], start: usize, count: u64) -> (found: Option<DataMap>)
    requires
        start <= bytes@.len(),
    ensures
        match found {
            Some(map) => spec_decode_chunked(
                count as nat,
                bytes@.subrange(start as int, bytes@.len() as int),
            ) == Some(map@),
            None => spec_decode_chunked(
                count as nat,
                bytes@.subrange(start as int, bytes@.len() as int),
            ) is None,
        },
{
    let length: usize = bytes.len();
    let ghost body = bytes@.subrange(start as int, length as int);
    if length - start < STREAM_SIZE_WIDTH {
        return None;
    }
    let total_size: u64 = get_le(bytes, start, STREAM_SIZE_WIDTH);
    let first: usize = start + STREAM_SIZE_WIDTH;
    let ghost rest = body.subrange(STREAM_SIZE_WIDTH as int, body.len() as int);
    proof {
        let field = bytes@.subrange(start as int, start + STREAM_SIZE_WIDTH);
        assert(body.subrange(0, STREAM_SIZE_WIDTH as int) =~= field);
        assert(rest =~= bytes@.subrange(first as int, length as int));
        lemma_le_bytes_of_value(field);
        lemma_le_limits();
    }
    let room: usize = length - first;
    if room % DESCRIPTOR_WIDTH != 0 || (room / DESCRIPTOR_WIDTH) as u64 != count {
        return None;
    }
    if total_size < 3 * (MIN_CHUNK_SIZE as u64) || num_chunks(total_size) != count {
        return None;
    }
    let known: usize = room / DESCRIPTOR_WIDTH;
    let ghost views = spec_decode_descriptors(rest, count as nat);
    let mut chunks: Vec<ChunkDescriptor> = Vec::new();
    let mut i: usize = 0;
    while i < known
        invariant
            i <= known,
            known == count,
            start <= length,
            length == bytes@.len(),
            body == bytes@.subrange(start as int, length as int),
            first + DESCRIPTOR_WIDTH * known == length,
            rest == bytes@.subrange(first as int, length as int),
            views == spec_decode_descriptors(rest, count as nat),
            spec_decode_chunked(count as nat, body) == if spec_well_formed(
                DataMapView::Chunked { chunks: views, total_size },
            ) {
                Some(DataMapView::Chunked { chunks: views, total_size })
            } else {
                None
            },
            chunks@.len() == i,
            forall|k: int| 0 <= k < i ==> (#[trigger] chunks@[k])@ == views[k],
            forall|k: int|
                0 <= k < i ==> spec_descriptor_fits(
                    #[trigger] views[k],
                    total_size as nat,
                    k as nat,
                ),
        decreases known - i,
    {
        let chunk: ChunkDescriptor = parse_descriptor(bytes, first, i);
        assert(chunk@ == views[i as int]);
        if chunk.source_size != chunk_size(total_size, i as u64) {
            assert(!spec_descriptor_fits(views[i as int], total_size as nat, i as nat));
            return None;
        }
        chunks.push(chunk);
        i = i + 1;
    }
    let map = DataMap::Chunked { chunks, total_size };
    assert(map@->chunks =~= views);
    Some(map)
}

/// Reads the data map that `bytes` are.
fn parse_map(bytes: &[u8]) -> (found: Option<DataMap>)
    ensures
        match found {
            Some(map) => spec_decode(bytes@) == Some(map@),
            None => spec_decode(bytes@) is None,
        },
{
    let length: usize = bytes.len();
    if length == 0 {
        return None;
    }
    let tag: u8 = bytes[0];
    assert(bytes@.subrange(1, length as int) =~= bytes@.drop_first());
    let (count, start) = match parse_varint(bytes, 1) {
        Some(pair) => pair,
        None => {
            return None;
        },
    };
    proof {
        lemma_written_of_parse_varint(bytes@.drop_first());
    }
    if tag == TAG_INLINE {
        if count >= 3 * (MIN_CHUNK_SIZE as u64) || (length - start) as u64 != count {
            return None;
        }
        let content: Vec<u8> = vstd::slice::slice_to_vec(
            vstd::slice::slice_subrange(bytes, start, length),
        );
        Some(DataMap::Inline { content })
    } else if tag == TAG_CHUNKED {
        parse_chunked(bytes, start, count)
    } else {
        None
    }
}

/// Reads a data map from bytes. There is a data map exactly where the bytes
/// are what some well-formed data map is written as, and it is that map:
/// bytes that end too early or go on too long, a kind that is not known, a
/// count that is written in more bytes than it needs, a number of chunks or a
/// chunk size that does not follow from the size of the stream, all give
/// none.
pub fn decode(bytes: &[u8]) -> (found: Option<DataMap>)
    ensures
        match found {
            Some(map) => spec_well_formed(map@) && spec_encode(map@) == bytes@,
            None => forall|map: DataMapView|
                spec_well_formed(map) ==> #[trigger] spec_encode(map) != bytes@,
        },
{
    let found: Option<DataMap> = parse_map(bytes);
    proof {
        if found is Some {
            lemma_encode_decoded(bytes@);
        } else {
            assert forall|map: DataMapView| spec_well_formed(map) implies #[trigger] spec_encode(
                map,
            ) != bytes@ by {
                lemma_decode_encoded(map);
            }
        }
    }
    found
}

} // verus!
