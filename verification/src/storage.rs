//! A store of chunks that are found by name.
//!
//! The name of a chunk is meant to be the hash of its bytes, so a name is
//! given its bytes once and keeps them: storing under a name that the store
//! already holds changes nothing. The store does not hash what it is given;
//! whoever fetches a chunk checks that it carries its name rightly.

use crate::bytes::bytes_equal;
use vstd::prelude::*;

verus! {

/// Why a store could not do what was asked of it.
#[derive(Clone, Copy, Debug, PartialEq, Eq, Structural)]
pub enum StoreError {
    /// The store holds nothing under the name.
    NotFound,
    /// The medium behind the store failed.
    IoFailure,
}

/// One chunk of a store: a name and the bytes kept under it.
struct StoredChunk {
    name: Vec<u8>,
    content: Vec<u8>,
}

/// A store of chunks in memory.
pub struct ChunkStore {
    entries: Vec<StoredChunk>,
}

/// The store `store` after `data` was put under `name`: a name that is taken
/// keeps what it holds.
pub open spec fn spec_put(store: Map<Seq<u8>, Seq<u8>>, name: Seq<u8>, data: Seq<u8>) -> Map<
    Seq<u8>,
    Seq<u8>,
> {
    if store.dom().contains(name) {
        store
    } else {
        store.insert(name, data)
    }
}

/// What a store holds after the given chunks were put into an empty store,
/// first to last.
spec fn spec_collect(entries: Seq<StoredChunk>) -> Map<Seq<u8>, Seq<u8>>
    decreases entries.len(),
{
    if entries.len() == 0 {
        Map::empty()
    } else {
        spec_put(spec_collect(entries.drop_last()), entries.last().name@, entries.last().content@)
    }
}

/// A name that no chunk has is not in the store.
proof fn lemma_collect_absent(entries: Seq<StoredChunk>, name: Seq<u8>)
    requires
        forall|j: int| 0 <= j < entries.len() ==> entries[j].name@ != name,
    ensures
        !spec_collect(entries).dom().contains(name),
    decreases entries.len(),
{
    if entries.len() > 0 {
        lemma_collect_absent(entries.drop_last(), name);
    }
}

/// Under a name the store holds the first chunk that has the name.
proof fn lemma_collect_first(entries: Seq<StoredChunk>, name: Seq<u8>, at: int)
    requires
        0 <= at < entries.len(),
        entries[at].name@ == name,
        forall|j: int| 0 <= j < at ==> entries[j].name@ != name,
    ensures
        spec_collect(entries).dom().contains(name),
        spec_collect(entries)[name] == entries[at].content@,
    decreases entries.len(),
{
    if at == entries.len() - 1 {
        lemma_collect_absent(entries.drop_last(), name);
    } else {
        lemma_collect_first(entries.drop_last(), name, at);
    }
}

impl View for ChunkStore {
    type V = Map<Seq<u8>, Seq<u8>>;

    /// The bytes kept under each name.
    closed spec fn view(&self) -> Map<Seq<u8>, Seq<u8>> {
        spec_collect(self.entries@)
    }
}

/// A store that holds each name once holds as many names as chunks.
proof fn lemma_collect_size(entries: Seq<StoredChunk>)
    requires
        forall|i: int, j: int|
            0 <= i < j < entries.len() ==> entries[i].name@ != entries[j].name@,
    ensures
        spec_collect(entries).dom().finite(),
        spec_collect(entries).dom().len() == entries.len(),
    decreases entries.len(),
{
    if entries.len() > 0 {
        lemma_collect_size(entries.drop_last());
        lemma_collect_absent(entries.drop_last(), entries.last().name@);
    }
}

/// A store holds something under the name of each of its chunks.
proof fn lemma_collect_present(entries: Seq<StoredChunk>, at: int)
    requires
        0 <= at < entries.len(),
    ensures
        spec_collect(entries).dom().contains(entries[at].name@),
    decreases entries.len(),
{
    if at < entries.len() - 1 {
        lemma_collect_present(entries.drop_last(), at);
    }
}

impl ChunkStore {
    #[verifier::type_invariant]
    spec fn names_differ(&self) -> bool {
        forall|i: int, j: int|
            0 <= i < j < self.entries@.len() ==> self.entries@[i].name@ != self.entries@[j].name@
    }

    /// Makes a store that holds nothing.
    pub fn new() -> (store: ChunkStore)
        ensures
            store@ == Map::<Seq<u8>, Seq<u8>>::empty(),
    {
        ChunkStore { entries: Vec::new() }
    }

    /// Finds the place of the chunk called `name`.
    fn position(&self, name: &[u8]) -> (place: Option<usize>)
        ensures
            match place {
                Some(at) => at < self.entries@.len() && self@.dom().contains(name@) && self@[name@]
                    == self.entries@[at as int].content@,
                None => !self@.dom().contains(name@) && forall|j: int|
                    0 <= j < self.entries@.len() ==> self.entries@[j].name@ != name@,
            },
    {
        let mut i: usize = 0;
        while i < self.entries.len()
            invariant
                i <= self.entries@.len(),
                forall|j: int| 0 <= j < i ==> self.entries@[j].name@ != name@,
            decreases self.entries@.len() - i,
        {
            if bytes_equal(self.entries[i].name.as_slice(), name) {
                proof {
                    lemma_collect_first(self.entries@, name@, i as int);
                }
                return Some(i);
            }
            i = i + 1;
        }
        proof {
            lemma_collect_absent(self.entries@, name@);
        }
        None
    }

    /// Tells whether the store holds a chunk called `name`.
    pub fn contains(&self, name: &[u8]) -> (held: bool)
        ensures
            held == self@.dom().contains(name@),
    {
        self.position(name).is_some()
    }

    /// Puts `data` under `name`. Where the name is taken the store stays as
    /// it is, so putting a chunk twice is the same as putting it once. A
    /// store in memory never fails.
    pub fn put(&mut self, name: Vec<u8>, data: Vec<u8>) -> (done: Result<(), StoreError>)
        ensures
            done is Ok,
            final(self)@ == spec_put(old(self)@, name@, data@),
    {
        proof {
            use_type_invariant(&*self);
        }
        if self.position(name.as_slice()).is_none() {
            let ghost before = self.entries@;
            let mut entries: Vec<StoredChunk> = Vec::new();
            core::mem::swap(&mut self.entries, &mut entries);
            entries.push(StoredChunk { name, content: data });
            core::mem::swap(&mut self.entries, &mut entries);
            assert(self.entries@.drop_last() =~= before);
        }
        Ok(())
    }

    /// Counts the chunks that the store holds.
    pub fn len(&self) -> (count: usize)
        ensures
            self@.dom().finite(),
            count == self@.dom().len(),
    {
        proof {
            use_type_invariant(self);
            lemma_collect_size(self.entries@);
        }
        self.entries.len()
    }

    /// Lists the names under which the store holds something, each of them
    /// once.
    pub fn names(&self) -> (names: Vec<Vec<u8>>)
        ensures
            self@.dom().finite(),
            names@.len() == self@.dom().len(),
            forall|i: int| 0 <= i < names@.len() ==> self@.dom().contains(#[trigger] names@[i]@),
            forall|i: int, j: int| 0 <= i < j < names@.len() ==> names@[i]@ != names@[j]@,
    {
        proof {
            use_type_invariant(self);
            lemma_collect_size(self.entries@);
        }
        let mut names: Vec<Vec<u8>> = Vec::new();
        let mut i: usize = 0;
        while i < self.entries.len()
            invariant
                i <= self.entries@.len(),
                names@.len() == i,
                forall|k: int| 0 <= k < i ==> (#[trigger] names@[k])@ == self.entries@[k].name@,
            decreases self.entries@.len() - i,
        {
            names.push(vstd::slice::slice_to_vec(self.entries[i].name.as_slice()));
            i = i + 1;
        }
        assert forall|k: int| 0 <= k < names@.len() implies self@.dom().contains(
            #[trigger] names@[k]@,
        ) by {
            lemma_collect_present(self.entries@, k);
        }
        names
    }

    /// Fetches a copy of the bytes kept under `name`, or fails with
    /// `NotFound` where the store holds nothing under that name.
    pub fn get(&self, name: &[u8]) -> (found: Result<Vec<u8>, StoreError>)
        ensures
            match found {
                Ok(bytes) => self@.dom().contains(name@) && bytes@ == self@[name@],
                Err(error) => error == StoreError::NotFound && !self@.dom().contains(name@),
            },
    {
        match self.position(name) {
            Some(at) => Ok(vstd::slice::slice_to_vec(self.entries[at].content.as_slice())),
            None => Err(StoreError::NotFound),
        }
    }
}

} // verus!
