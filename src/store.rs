//! Append-only block stores.

use vstd::prelude::*;
use vstd::slice::slice_to_vec;

verus! {

/// The identifier that a store gives a block when it is appended.
#[derive(Clone, Copy, Debug, PartialEq, Eq, Structural)]
pub struct BlockId(pub u64);

/// The ways in which reading or writing a tree can fail.
#[derive(Clone, Copy, Debug, PartialEq, Eq, Structural)]
pub enum TreeError {
    /// The block store could not read or append a block.
    StoreIo,
    /// A block does not hold a well-formed directory.
    CorruptTree,
    /// A file state could not be decoded.
    PayloadDecode,
}

/// `b2` holds every block of `b`, unchanged.
pub open spec fn extends(b: Map<u64, Seq<u8>>, b2: Map<u64, Seq<u8>>) -> bool {
    forall|k: u64| #[trigger] b.contains_key(k) ==> b2.contains_key(k) && b2[k] == b[k]
}

/// Read access to a block store.
pub trait StoreView {
    /// The blocks held, by identifier.
    spec fn blocks(&self) -> Map<u64, Seq<u8>>;

    /// Reading a block that the store holds always succeeds.
    spec fn reliable(&self) -> bool;

    /// Reads the block with the given identifier.
    fn read(&self, id: BlockId) -> (r: Result<Vec<u8>, TreeError>)
        ensures
            match r {
                Ok(data) => self.blocks().contains_key(id.0) && data@ == self.blocks()[id.0],
                Err(e) => e == TreeError::StoreIo,
            },
            self.reliable() && self.blocks().contains_key(id.0) ==> r is Ok,
    ;
}

/// A block store that can also append blocks.
///
/// Each new identifier is greater than every identifier already in use.
pub trait Store: StoreView {
    /// Appends a block and returns its identifier.
    fn append(&mut self, data: &[u8]) -> (r: Result<BlockId, TreeError>)
        ensures
            final(self).reliable() == old(self).reliable(),
            match r {
                Ok(id) => {
                    &&& forall|k: u64| #[trigger]
                        old(self).blocks().contains_key(k) ==> k < id.0
                    &&& final(self).blocks() == old(self).blocks().insert(id.0, data@)
                },
                Err(e) => e == TreeError::StoreIo && final(self).blocks() == old(self).blocks(),
            },
    ;
}

/// A store that holds no block: every read fails.
pub struct NullStore {}

impl NullStore {
    pub fn new() -> (r: NullStore)
        ensures
            r.blocks() == Map::<u64, Seq<u8>>::empty(),
    {
        NullStore {  }
    }
}

impl StoreView for NullStore {
    open spec fn blocks(&self) -> Map<u64, Seq<u8>> {
        Map::empty()
    }

    open spec fn reliable(&self) -> bool {
        true
    }

    fn read(&self, id: BlockId) -> (r: Result<Vec<u8>, TreeError>) {
        Err(TreeError::StoreIo)
    }
}

/// A store that keeps its blocks in memory, numbered from zero.
pub struct MapStore {
    data: Vec<Vec<u8>>,
}

impl MapStore {
    pub fn new() -> (r: MapStore)
        ensures
            r.blocks() == Map::<u64, Seq<u8>>::empty(),
    {
        MapStore { data: Vec::new() }
    }

    /// The number of blocks held.
    pub fn len(&self) -> (r: usize)
        ensures
            self.blocks().dom() == Set::new(|k: u64| k < r),
    {
        assert(self.blocks().dom() =~= Set::new(|k: u64| k < self.data.len()));
        self.data.len()
    }
}

impl StoreView for MapStore {
    closed spec fn blocks(&self) -> Map<u64, Seq<u8>> {
        Map::new(|k: u64| k < self.data@.len(), |k: u64| self.data@[k as int]@)
    }

    open spec fn reliable(&self) -> bool {
        true
    }

    fn read(&self, id: BlockId) -> (r: Result<Vec<u8>, TreeError>) {
        if id.0 < self.data.len() as u64 {
            Ok(slice_to_vec(self.data[id.0 as usize].as_slice()))
        } else {
            Err(TreeError::StoreIo)
        }
    }
}

impl Store for MapStore {
    fn append(&mut self, data: &[u8]) -> (r: Result<BlockId, TreeError>) {
        let n = self.data.len();
        if n == usize::MAX {
            return Err(TreeError::StoreIo);
        }
        self.data.push(slice_to_vec(data));
        let r = BlockId(n as u64);
        assert(self.blocks() =~= old(self).blocks().insert(r.0, data@));
        Ok(r)
    }
}

} // verus!
