//! The tree: a root directory and the number of files below it.

use crate::model::{
    conflicts,
    first_of,
    holds_dir,
    insert_sorted,
    lookup,
    next_after,
    pair_view,
    pairs_view,
    prefix_all,
    remove_key,
};
use crate::node::{
    dirty_encodable, kept_clean, listing, mem_encodable, path_unreadable, stored_listing, unreadable, wf,
    written, Node,
};
use crate::storable::Storable;
use crate::store::{extends, BlockId, Store, StoreView, TreeError};
use vstd::prelude::*;

verus! {

/// The root of the tree.  The count of files is kept so that the size is known
/// at once.
pub struct Tree<T> {
    root: Node<T>,
    file_count: u32,
}

/// The number of files that one added file adds.
pub open spec fn added<T>(l: Seq<(Seq<u8>, T)>, k: Seq<u8>) -> int {
    if lookup(l, k) is None {
        1
    } else {
        0
    }
}

impl<T: Storable> Tree<T> {
    /// The tree's invariant, relative to the blocks of the store it reads from.
    pub closed spec fn wf(&self, b: Map<u64, Seq<u8>>) -> bool {
        wf(self.root, b, false)
    }

    /// The files of the tree in key order, if every block it needs can be read.
    pub closed spec fn files(&self, b: Map<u64, Seq<u8>>) -> Option<Seq<(Seq<u8>, T)>> {
        listing(self.root, b, false)
    }

    /// The count of files that the tree keeps.
    pub closed spec fn count(&self) -> u32 {
        self.file_count
    }

    /// The block that holds the root, while the root is unchanged since it was
    /// read or written.
    pub closed spec fn root_block(&self) -> Option<u64> {
        match self.root.id {
            Some(id) => Some(id.0),
            None => None,
        }
    }

    /// The files of a well-formed tree come in strictly ascending key order.
    pub proof fn lemma_sorted(self, b: Map<u64, Seq<u8>>)
        requires
            self.wf(b),
        ensures
            self.files(b) is Some ==> crate::model::sorted(self.files(b)->Some_0),
    {
        crate::listing::lemma_node_sorted(self.root, b, false);
    }

    /// Every loaded directory fits the block format: at most `u32::MAX` entries,
    /// and names of at most `u32::MAX` bytes.
    pub closed spec fn fits_format(&self) -> bool {
        mem_encodable(self.root)
    }

    /// Every directory that a delta write would store fits the block format.
    pub closed spec fn pending_fit(&self) -> bool {
        dirty_encodable(self.root)
    }

    /// `new` is this tree after a delta write: every directory that had a block
    /// keeps it, unchanged; every other one has one now, with the same entries.
    pub closed spec fn kept_in(&self, new: Tree<T>) -> bool {
        kept_clean(self.root, new.root)
    }

    /// Block `k` holds a directory of `new` that had no block in this tree.
    pub closed spec fn wrote(&self, new: Tree<T>, k: u64) -> bool {
        written(self.root, new.root, k)
    }

    /// The root is not loaded and its block is missing or cannot be loaded.
    pub closed spec fn root_unreadable(&self, b: Map<u64, Seq<u8>>) -> bool {
        unreadable(self.root, b, false)
    }

    /// A directory on the way to `k` is not loaded and its block is missing or
    /// cannot be loaded: the root, or a subdirectory whose name begins `k`.
    pub closed spec fn path_unreadable(&self, b: Map<u64, Seq<u8>>, k: Seq<u8>) -> bool {
        path_unreadable(self.root, b, false, k)
    }

    /// The count is the number of files.
    pub open spec fn count_ok(&self, b: Map<u64, Seq<u8>>) -> bool {
        self.files(b) is Some && self.count() as int == self.files(b)->Some_0.len()
    }

    /// A new empty tree.
    pub fn new() -> (r: Tree<T>)
        ensures
            forall|b: Map<u64, Seq<u8>>|
                #![trigger r.wf(b)]
                #![trigger r.files(b)]
                r.wf(b) && r.files(b) == Some(Seq::<(Seq<u8>, T)>::empty()),
            r.count() == 0,
            r.root_block() is None,
    {
        let r = Tree { root: Node::new(), file_count: 0 };
        assert forall|b: Map<u64, Seq<u8>>|
                #![trigger r.wf(b)]
                #![trigger r.files(b)]
                r.wf(b) && r.files(b) == Some(Seq::<(Seq<u8>, T)>::empty()) by {}
        r
    }

    /// A tree whose root is stored in block `root_id` and that holds `file_count` files.
    pub fn open(root_id: BlockId, file_count: u32) -> (r: Tree<T>)
        ensures
            forall|b: Map<u64, Seq<u8>>|
                #![trigger r.wf(b)]
                #![trigger r.files(b)]
                r.wf(b) && r.files(b) == stored_listing::<T>(b, root_id.0, false),
            r.count() == file_count,
            r.root_block() == Some(root_id.0),
    {
        Tree { root: Node::open(root_id), file_count }
    }

    /// Removes every file.
    pub fn clear(&mut self)
        ensures
            forall|b: Map<u64, Seq<u8>>|
                #![trigger final(self).wf(b)]
                #![trigger final(self).files(b)]
                final(self).wf(b) && final(self).files(b) == Some(Seq::<(Seq<u8>, T)>::empty()),
            final(self).count() == 0,
            final(self).root_block() is None,
    {
        self.root = Node::new();
        self.file_count = 0;
        assert forall|b: Map<u64, Seq<u8>>| self.wf(b) && self.files(b) == Some(Seq::<(Seq<u8>, T)>::empty()) by {}
    }

    /// The block that holds the root, if the root is stored and unchanged.
    pub fn root_id(&self) -> (r: Option<BlockId>)
        ensures
            r == (match self.root_block() {
                Some(id) => Some(BlockId(id)),
                None => None,
            }),
    {
        self.root.id
    }

    /// The count of files.
    pub fn file_count(&self) -> (r: u32)
        ensures
            r == self.count(),
    {
        self.file_count
    }

    /// Writes the whole tree to `store`, reading what is not loaded yet from
    /// `old_store`.  Afterwards every node is in `store`.
    pub fn write_full<S: Store, V: StoreView>(&mut self, store: &mut S, old_store: &V) -> (r: Result<(), TreeError>)
        requires
            old(self).wf(old_store.blocks()),
        ensures
            final(self).count() == old(self).count(),
            extends(old(store).blocks(), final(store).blocks()),
            !old(self).fits_format() ==> r is Err,
            r == Err::<(), TreeError>(TreeError::CorruptTree) ==> !old(self).fits_format() || old(
                self,
            ).files(old_store.blocks()) is None,
            r is Err && old_store.reliable() && old(self).files(old_store.blocks()) is Some ==> r->Err_0
                == TreeError::StoreIo || r->Err_0 == TreeError::CorruptTree && !old(self).fits_format(),
            match r {
                Ok(()) => {
                    &&& old(self).files(old_store.blocks()) is Some
                    &&& final(self).wf(final(store).blocks())
                    &&& final(self).files(final(store).blocks()) == old(self).files(old_store.blocks())
                    &&& final(self).root_block() is Some
                    &&& stored_listing::<T>(final(store).blocks(), final(self).root_block()->Some_0, false)
                        == old(self).files(old_store.blocks())
                },
                Err(_) => {
                    ||| final(self).wf(old_store.blocks()) && final(self).files(old_store.blocks())
                        == old(self).files(old_store.blocks())
                    ||| final(self).wf(final(store).blocks()) && final(self).files(final(store).blocks())
                        == old(self).files(old_store.blocks())
                },
            },
    {
        self.root.write_full(store, old_store, false)
    }

    /// Writes the nodes that changed since they were last stored to `store`, the
    /// store that the tree reads from.
    pub fn write_delta<S: Store>(&mut self, store: &mut S) -> (r: Result<(), TreeError>)
        requires
            old(self).wf(old(store).blocks()),
            old(self).files(old(store).blocks()) is Some,
        ensures
            final(self).count() == old(self).count(),
            extends(old(store).blocks(), final(store).blocks()),
            final(self).wf(final(store).blocks()),
            final(self).files(final(store).blocks()) == old(self).files(old(store).blocks()),
            old(self).root_block() is Some ==> r is Ok && final(self).root_block() == old(self).root_block()
                && final(store).blocks() == old(store).blocks(),
            r == Err::<(), TreeError>(TreeError::CorruptTree) ==> !old(self).pending_fit(),
            !old(self).pending_fit() ==> r is Err,
            r is Ok ==> old(self).kept_in(*final(self)),
            r is Ok ==> forall|k: u64|
                final(store).blocks().contains_key(k) && !old(store).blocks().contains_key(k) ==> #[trigger] old(
                    self,
                ).wrote(*final(self), k),
            match r {
                Ok(()) => {
                    &&& final(self).root_block() is Some
                    &&& stored_listing::<T>(final(store).blocks(), final(self).root_block()->Some_0, false)
                        == old(self).files(old(store).blocks())
                },
                Err(e) => e == TreeError::StoreIo || e == TreeError::CorruptTree,
            },
    {
        let r = self.root.write_delta(store, false);
        proof {
            if r is Ok {
                crate::listing::lemma_clean_listing(self.root, store.blocks(), false);
            }
        }
        r
    }

    /// The state of the file at `name`.
    pub fn get<V: StoreView>(&mut self, store: &V, name: &[u8]) -> (r: Result<Option<T>, TreeError>)
        requires
            old(self).wf(store.blocks()),
        ensures
            old(self).path_unreadable(store.blocks(), name@) ==> r is Err,
            final(self).wf(store.blocks()),
            final(self).files(store.blocks()) == old(self).files(store.blocks()),
            final(self).count() == old(self).count(),
            final(self).root_block() == old(self).root_block(),
            old(self).files(store.blocks()) is Some ==> match r {
                Ok(x) => x == lookup(old(self).files(store.blocks())->Some_0, name@),
                Err(e) => e == TreeError::StoreIo && !store.reliable(),
            },
    {
        self.root.get(store, name, false)
    }

    /// Every file of the tree with its state, in key order.
    pub fn visit<V: StoreView>(&mut self, store: &V) -> (r: Result<Vec<(Vec<u8>, T)>, TreeError>)
        requires
            old(self).wf(store.blocks()),
        ensures
            old(self).root_unreadable(store.blocks()) ==> r is Err,
            final(self).wf(store.blocks()),
            final(self).files(store.blocks()) == old(self).files(store.blocks()),
            final(self).count() == old(self).count(),
            final(self).root_block() == old(self).root_block(),
            old(self).files(store.blocks()) is Some ==> match r {
                Ok(v) => pairs_view(v@) == old(self).files(store.blocks())->Some_0,
                Err(e) => e == TreeError::StoreIo && !store.reliable(),
            },
    {
        let mut out: Vec<(Vec<u8>, T)> = Vec::new();
        let prefix: Vec<u8> = Vec::new();
        let r = self.root.visit(store, &prefix, &mut out, false);
        proof {
            if self.files(store.blocks()) is Some {
                let l = self.files(store.blocks())->Some_0;
                assert(prefix_all(prefix@, l) =~= l) by {
                    assert forall|i: int| 0 <= i < l.len() implies prefix@ + l[i].0 == l[i].0 by {
                        assert(prefix@ + l[i].0 =~= l[i].0);
                    }
                }
                assert(pairs_view(Seq::<(Vec<u8>, T)>::empty()) + l =~= l);
            }
        }
        match r {
            Ok(()) => Ok(out),
            Err(e) => Err(e),
        }
    }

    /// The first file of the tree in key order, with its state.
    pub fn get_first<V: StoreView>(&mut self, store: &V) -> (r: Result<Option<(Vec<u8>, T)>, TreeError>)
        requires
            old(self).wf(store.blocks()),
        ensures
            old(self).root_unreadable(store.blocks()) ==> r is Err,
            final(self).wf(store.blocks()),
            final(self).files(store.blocks()) == old(self).files(store.blocks()),
            final(self).count() == old(self).count(),
            final(self).root_block() == old(self).root_block(),
            old(self).files(store.blocks()) is Some ==> match r {
                Ok(x) => pair_view(x) == first_of(old(self).files(store.blocks())->Some_0),
                Err(e) => e == TreeError::StoreIo && !store.reliable(),
            },
    {
        self.root.get_first(store, false)
    }

    /// The first file whose key sorts after `name`, with its state.
    pub fn get_next<V: StoreView>(&mut self, store: &V, name: &[u8]) -> (r: Result<Option<(Vec<u8>, T)>, TreeError>)
        requires
            old(self).wf(store.blocks()),
        ensures
            old(self).root_unreadable(store.blocks()) ==> r is Err,
            final(self).wf(store.blocks()),
            final(self).files(store.blocks()) == old(self).files(store.blocks()),
            final(self).count() == old(self).count(),
            final(self).root_block() == old(self).root_block(),
            old(self).files(store.blocks()) is Some ==> match r {
                Ok(x) => pair_view(x) == next_after(old(self).files(store.blocks())->Some_0, name@),
                Err(e) => e == TreeError::StoreIo && !store.reliable(),
            },
    {
        self.root.get_next(store, name, false)
    }

    /// Whether `name` is a directory of the tree: it ends with `/` and some file
    /// lies below it.
    pub fn has_dir<V: StoreView>(&mut self, store: &V, name: &[u8]) -> (r: Result<bool, TreeError>)
        requires
            old(self).wf(store.blocks()),
        ensures
            old(self).path_unreadable(store.blocks(), name@) ==> r is Err,
            final(self).wf(store.blocks()),
            final(self).files(store.blocks()) == old(self).files(store.blocks()),
            final(self).count() == old(self).count(),
            final(self).root_block() == old(self).root_block(),
            old(self).files(store.blocks()) is Some ==> match r {
                Ok(x) => x == holds_dir(old(self).files(store.blocks())->Some_0, name@),
                Err(e) => e == TreeError::StoreIo && !store.reliable(),
            },
    {
        self.root.has_dir(store, name, false)
    }

    /// Adds the file at `name`, or updates its state.  No file may lie where `name`
    /// needs a directory, and `name` may not be a directory.
    pub fn add<V: StoreView>(&mut self, store: &V, name: &[u8], file: &T) -> (r: Result<(), TreeError>)
        requires
            old(self).wf(store.blocks()),
            old(self).count() < u32::MAX || (old(self).files(store.blocks()) is Some && lookup(
                old(self).files(store.blocks())->Some_0,
                name@,
            ) is Some),
            old(self).files(store.blocks()) is Some ==> !conflicts(
                old(self).files(store.blocks())->Some_0,
                name@,
            ),
        ensures
            old(self).path_unreadable(store.blocks(), name@) ==> r is Err,
            final(self).wf(store.blocks()),
            old(self).count_ok(store.blocks()) ==> final(self).count_ok(store.blocks()),
            match r {
                Ok(()) => {
                    &&& final(self).root_block() is None
                    &&& old(self).files(store.blocks()) is Some ==> {
                        let l = old(self).files(store.blocks())->Some_0;
                        &&& final(self).files(store.blocks()) == Some(insert_sorted(l, name@, *file))
                        &&& final(self).count() == old(self).count() + added(l, name@)
                    }
                },
                Err(e) => {
                    &&& final(self).files(store.blocks()) == old(self).files(store.blocks())
                    &&& final(self).count() == old(self).count()
                    &&& final(self).root_block() == old(self).root_block()
                    &&& old(self).files(store.blocks()) is Some ==> e == TreeError::StoreIo
                        && !store.reliable()
                },
            },
    {
        let created = match self.root.add(store, name, file, false) {
            Ok(created) => created,
            Err(e) => {
                return Err(e);
            },
        };
        if created {
            self.file_count = self.file_count + 1;
        }
        proof {
            crate::listing::lemma_node_sorted(old(self).root, store.blocks(), false);
            if old(self).files(store.blocks()) is Some {
                crate::model::lemma_insert_len(old(self).files(store.blocks())->Some_0, name@, *file);
            }
        }
        Ok(())
    }

    /// Removes the file at `name`.  Returns whether there was one.
    pub fn remove<V: StoreView>(&mut self, store: &V, name: &[u8]) -> (r: Result<bool, TreeError>)
        requires
            old(self).wf(store.blocks()),
            old(self).count() > 0 || (old(self).files(store.blocks()) is Some && lookup(
                old(self).files(store.blocks())->Some_0,
                name@,
            ) is None),
        ensures
            old(self).path_unreadable(store.blocks(), name@) ==> r is Err,
            final(self).wf(store.blocks()),
            old(self).count_ok(store.blocks()) ==> final(self).count_ok(store.blocks()),
            match r {
                Ok(removed) => {
                    &&& final(self).count() == old(self).count() - (if removed {
                        1int
                    } else {
                        0
                    })
                    &&& final(self).root_block() == (if removed {
                        None
                    } else {
                        old(self).root_block()
                    })
                    &&& old(self).files(store.blocks()) is Some ==> {
                        let l = old(self).files(store.blocks())->Some_0;
                        &&& final(self).files(store.blocks()) == Some(remove_key(l, name@))
                        &&& removed == (lookup(l, name@) is Some)
                    }
                },
                Err(e) => {
                    &&& final(self).files(store.blocks()) == old(self).files(store.blocks())
                    &&& final(self).count() == old(self).count()
                    &&& final(self).root_block() == old(self).root_block()
                    &&& old(self).files(store.blocks()) is Some ==> e == TreeError::StoreIo
                        && !store.reliable()
                },
            },
    {
        let removed = match self.root.remove(store, name, false) {
            Ok((removed, _)) => removed,
            Err(e) => {
                return Err(e);
            },
        };
        if removed {
            self.file_count = self.file_count - 1;
        }
        proof {
            if old(self).files(store.blocks()) is Some {
                crate::model::lemma_remove_len(old(self).files(store.blocks())->Some_0, name@);
            }
        }
        Ok(removed)
    }
}

} // verus!
