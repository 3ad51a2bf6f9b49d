//! Chunk boundaries.
//!
//! How a stream of `total_size` bytes is cut into chunks depends on its
//! length alone, never on its content: two streams of one length share
//! their boundaries. Streams shorter than three minimal chunks are not cut
//! at all. Up to three maximal chunks a stream is split in three nearly
//! equal parts. Longer streams are cut into maximal chunks, and the last two
//! chunks share what is left so that no chunk is shorter than the minimum.

use vstd::prelude::*;

verus! {

/// Smallest number of bytes a chunk may hold.
pub const MIN_CHUNK_SIZE: u32 = 1024;

/// Number of bytes of a regular chunk of a long stream, one mebibyte.
pub const MAX_CHUNK_SIZE: u32 = 1048576;

/// Number of chunks that a stream of `total_size` bytes is cut into.
///
/// Zero means that the stream is too short to be cut and is kept inline.
pub open spec fn spec_num_chunks(total_size: nat) -> nat {
    if total_size < 3 * MIN_CHUNK_SIZE {
        0
    } else if total_size < 3 * MAX_CHUNK_SIZE {
        3
    } else if total_size % (MAX_CHUNK_SIZE as nat) == 0 {
        total_size / (MAX_CHUNK_SIZE as nat)
    } else {
        total_size / (MAX_CHUNK_SIZE as nat) + 1
    }
}

/// Number of bytes of chunk `index` of a stream of `total_size` bytes.
///
/// A chunk that does not exist holds no bytes.
pub open spec fn spec_chunk_size(total_size: nat, index: nat) -> nat {
    let count = spec_num_chunks(total_size);
    let rest = total_size % (MAX_CHUNK_SIZE as nat);
    if index >= count {
        0
    } else if total_size < 3 * MAX_CHUNK_SIZE {
        if index < 2 {
            total_size / 3
        } else {
            (total_size - 2 * (total_size / 3)) as nat
        }
    } else if rest == 0 || index + 2 < count {
        MAX_CHUNK_SIZE as nat
    } else if rest < MIN_CHUNK_SIZE {
        if index + 2 == count {
            (MAX_CHUNK_SIZE - MIN_CHUNK_SIZE) as nat
        } else {
            (MIN_CHUNK_SIZE + rest) as nat
        }
    } else {
        if index + 2 == count {
            MAX_CHUNK_SIZE as nat
        } else {
            rest
        }
    }
}

/// Position of the first byte of chunk `index`: the sizes of all chunks
/// before it, added up.
pub open spec fn spec_chunk_offset(total_size: nat, index: nat) -> nat
    decreases index,
{
    if index == 0 {
        0
    } else {
        spec_chunk_offset(total_size, (index - 1) as nat) + spec_chunk_size(
            total_size,
            (index - 1) as nat,
        )
    }
}

/// The offset of a chunk written without the sum: a multiple of the regular
/// chunk size up to the last chunk, which ends where the stream ends.
pub open spec fn spec_chunk_offset_direct(total_size: nat, index: nat) -> nat {
    let count = spec_num_chunks(total_size);
    if count == 0 {
        0
    } else if index >= count {
        total_size
    } else if total_size < 3 * MAX_CHUNK_SIZE {
        index * (total_size / 3)
    } else if index + 1 < count {
        index * (MAX_CHUNK_SIZE as nat)
    } else {
        (total_size - spec_chunk_size(total_size, index)) as nat
    }
}

/// The sum of the sizes of the first `index` chunks equals the direct form
/// of the offset.
pub proof fn lemma_chunk_offset_direct(total_size: nat, index: nat)
    ensures
        spec_chunk_offset(total_size, index) == spec_chunk_offset_direct(total_size, index),
    decreases index,
{
    if index > 0 {
        let before = (index - 1) as nat;
        lemma_chunk_offset_direct(total_size, before);
        let count = spec_num_chunks(total_size);
        let max = MAX_CHUNK_SIZE as nat;
        if count > 0 && before < count {
            if total_size < 3 * MAX_CHUNK_SIZE {
                assert(index * (total_size / 3) == before * (total_size / 3) + total_size / 3)
                    by (nonlinear_arith)
                    requires
                        index == before + 1,
                ;
            } else {
                assert(total_size == max * (total_size / max) + total_size % max) by {
                    vstd::arithmetic::div_mod::lemma_fundamental_div_mod(
                        total_size as int,
                        max as int,
                    );
                }
                assert(index * max == before * max + max) by (nonlinear_arith)
                    requires
                        index == before + 1,
                ;
                if before + 2 == count {
                    assert((before + 1) * max == before * max + max) by (nonlinear_arith);
                    assert((before + 2) * max == before * max + 2 * max) by (nonlinear_arith);
                    assert(max * (total_size / max) == (total_size / max) * max)
                        by (nonlinear_arith);
                } else if before + 1 == count {
                    assert((before + 1) * max == before * max + max) by (nonlinear_arith);
                    assert(max * (total_size / max) == (total_size / max) * max)
                        by (nonlinear_arith);
                    if before >= 1 {
                        lemma_chunk_offset_direct(total_size, (before - 1) as nat);
                    }
                }
            }
        }
    }
}

/// The chunks of a stream account for each of its bytes exactly once: their
/// sizes add up to the length of the stream. A stream that is kept inline has
/// no chunks, so this holds of it only when it is empty.
pub proof fn lemma_chunk_sizes_cover_stream(total_size: nat)
    requires
        total_size == 0 || total_size >= 3 * MIN_CHUNK_SIZE,
    ensures
        spec_chunk_offset(total_size, spec_num_chunks(total_size)) == total_size,
{
    lemma_chunk_offset_direct(total_size, spec_num_chunks(total_size));
}

/// A stream long enough to be cut has at least three chunks, and none of
/// them is shorter than the minimum or longer than a regular chunk and one
/// byte.
pub proof fn lemma_chunk_size_bounds(total_size: nat, index: nat)
    requires
        total_size >= 3 * MIN_CHUNK_SIZE,
        index < spec_num_chunks(total_size),
    ensures
        spec_num_chunks(total_size) >= 3,
        MIN_CHUNK_SIZE <= spec_chunk_size(total_size, index) <= MAX_CHUNK_SIZE + 1,
{
    let max = MAX_CHUNK_SIZE as nat;
    if total_size >= 3 * MAX_CHUNK_SIZE {
        assert(total_size == max * (total_size / max) + total_size % max) by {
            vstd::arithmetic::div_mod::lemma_fundamental_div_mod(total_size as int, max as int);
        }
    }
}

/// Each chunk starts where the one before it ends, the first starts at zero,
/// and a chunk with a larger index starts strictly later.
pub proof fn lemma_chunk_offsets_increase(total_size: nat, first: nat, second: nat)
    requires
        first < second <= spec_num_chunks(total_size),
    ensures
        spec_chunk_offset(total_size, 0) == 0,
        spec_chunk_offset(total_size, first + 1) == spec_chunk_offset(total_size, first)
            + spec_chunk_size(total_size, first),
        spec_chunk_offset(total_size, first) < spec_chunk_offset(total_size, second),
    decreases second,
{
    lemma_chunk_size_bounds(total_size, (second - 1) as nat);
    if first + 1 < second {
        lemma_chunk_offsets_increase(total_size, first, (second - 1) as nat);
    }
}

/// Every chunk lies within the stream: it ends no later than the stream does.
pub proof fn lemma_chunk_within_stream(total_size: nat, index: nat)
    ensures
        spec_chunk_offset(total_size, index) + spec_chunk_size(total_size, index) <= total_size,
{
    let count = spec_num_chunks(total_size);
    lemma_chunk_offset_direct(total_size, index);
    lemma_chunk_offset_direct(total_size, index + 1);
}

/// Tells whether chunk `index` of a stream of `total_size` bytes holds the
/// byte at `position`.
pub open spec fn spec_chunk_holds(total_size: nat, index: nat, position: nat) -> bool {
    &&& index < spec_num_chunks(total_size)
    &&& spec_chunk_offset(total_size, index) <= position
    &&& position < spec_chunk_offset(total_size, index) + spec_chunk_size(total_size, index)
}

/// No byte is held by two chunks.
pub proof fn lemma_chunk_holds_once(total_size: nat, first: nat, second: nat, position: nat)
    requires
        spec_chunk_holds(total_size, first, position),
        spec_chunk_holds(total_size, second, position),
    ensures
        first == second,
{
    if first < second {
        lemma_chunk_offsets_increase(total_size, first, second);
        if first + 1 < second {
            lemma_chunk_offsets_increase(total_size, first + 1, second);
        }
    } else if second < first {
        lemma_chunk_offsets_increase(total_size, second, first);
        if second + 1 < first {
            lemma_chunk_offsets_increase(total_size, second + 1, first);
        }
    }
}

/// Counts the chunks of a stream of `total_size` bytes.
pub fn num_chunks(total_size: u64) -> (count: u64)
    ensures
        count == spec_num_chunks(total_size as nat),
{
    let max: u64 = MAX_CHUNK_SIZE as u64;
    if total_size < 3 * (MIN_CHUNK_SIZE as u64) {
        0
    } else if total_size < 3 * max {
        3
    } else if total_size % max == 0 {
        total_size / max
    } else {
        total_size / max + 1
    }
}

/// Gives the size of chunk `index` of a stream of `total_size` bytes, zero
/// for a chunk that the stream does not have.
pub fn chunk_size(total_size: u64, index: u64) -> (size: u32)
    ensures
        size == spec_chunk_size(total_size as nat, index as nat),
{
    let max: u64 = MAX_CHUNK_SIZE as u64;
    let count: u64 = num_chunks(total_size);
    if index >= count {
        return 0;
    }
    if total_size < 3 * max {
        let third: u64 = total_size / 3;
        if index < 2 {
            return third as u32;
        }
        return (total_size - 2 * third) as u32;
    }
    let rest: u32 = (total_size % max) as u32;
    if rest == 0 || index + 2 < count {
        return MAX_CHUNK_SIZE;
    }
    let penultimate: bool = index + 2 == count;
    if rest < MIN_CHUNK_SIZE {
        if penultimate {
            MAX_CHUNK_SIZE - MIN_CHUNK_SIZE
        } else {
            MIN_CHUNK_SIZE + rest
        }
    } else {
        if penultimate {
            MAX_CHUNK_SIZE
        } else {
            rest
        }
    }
}

/// Gives the position of the first byte of chunk `index`. For an index past
/// the last chunk this is where the chunks end.
pub fn chunk_offset(total_size: u64, index: u64) -> (offset: u64)
    ensures
        offset == spec_chunk_offset(total_size as nat, index as nat),
        offset == spec_chunk_offset_direct(total_size as nat, index as nat),
{
    proof {
        lemma_chunk_offset_direct(total_size as nat, index as nat);
    }
    let max: u64 = MAX_CHUNK_SIZE as u64;
    let count: u64 = num_chunks(total_size);
    if count == 0 {
        0
    } else if index >= count {
        total_size
    } else if total_size < 3 * max {
        let third: u64 = total_size / 3;
        assert(index * third <= 2 * third) by (nonlinear_arith)
            requires
                0 <= index <= 2,
                0 <= third,
        ;
        index * third
    } else if index + 1 < count {
        let whole: u64 = total_size / max;
        assert(index * max <= total_size) by (nonlinear_arith)
            requires
                0 <= index <= whole,
                max > 0,
                whole == total_size / max,
        ;
        index * max
    } else {
        proof {
            lemma_chunk_within_stream(total_size as nat, index as nat);
        }
        total_size - chunk_size(total_size, index) as u64
    }
}

/// Finds the chunk that holds the byte at `position`. There is none where
/// the stream is too short to be cut or ends at or before `position`.
pub fn chunk_index(total_size: u64, position: u64) -> (found: Option<u64>)
    ensures
        match found {
            Some(index) => spec_chunk_holds(total_size as nat, index as nat, position as nat),
            None => total_size < 3 * MIN_CHUNK_SIZE || position >= total_size,
        },
        found is Some ==> position < total_size,
{
    let count: u64 = num_chunks(total_size);
    if count == 0 || position >= total_size {
        return None;
    }
    let max: u64 = MAX_CHUNK_SIZE as u64;
    let regular: u64 = if total_size < 3 * max {
        total_size / 3
    } else {
        max
    };
    let whole: u64 = position / regular;
    assert(whole * regular <= position < whole * regular + regular) by (nonlinear_arith)
        requires
            whole == position / regular,
            regular > 0,
    ;
    let mut index: u64 = if whole >= count {
        count - 1
    } else {
        whole
    };
    proof {
        lemma_chunk_offset_direct(total_size as nat, index as nat);
        lemma_chunk_offset_direct(total_size as nat, (index + 1) as nat);
        lemma_chunk_within_stream(total_size as nat, index as nat);
        assert(total_size == max * (total_size / max) + total_size % max) by {
            vstd::arithmetic::div_mod::lemma_fundamental_div_mod(total_size as int, max as int);
        }
        if whole >= count {
            assert(count * regular <= whole * regular) by (nonlinear_arith)
                requires
                    count <= whole,
                    regular >= 0,
            ;
        }
    }
    if index + 1 < count && position >= chunk_offset(total_size, index + 1) {
        index = index + 1;
    }
    Some(index)
}

} // verus!
