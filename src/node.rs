//! Directory nodes: loaded from the store on demand, written back in full or as a delta.

use crate::bytes::{
    be32_bytes,
    push_be_u32,
};
use crate::codec::{
    MAX_LEN,
    RawEntry,
    block_error,
    lemma_parsed_encodable,
    encodable,
    encode_block,
    encode_entries,
    lemma_encode_entries_push,
    lemma_parse_block_encoded,
    parse_block,
    push_dir_entry,
    push_file_entry,
    read_block,
};
use crate::key::{
    SLASH,
    is_dir_name,
    is_file_name,
    split_key,
    valid_name,
};
use crate::listing::{
    dirty_all,
    lemma_below_found,
    lemma_below_missing,
    lemma_clean_listing,
    lemma_dirty_any,
    lemma_entries_listing_split,
    lemma_entries_some,
    lemma_insert_entry,
    lemma_loaded_some,
    lemma_locate_found,
    lemma_locate_missing,
    lemma_lookup_found,
    lemma_lookup_missing,
    lemma_next_dir,
    lemma_next_exact,
    lemma_next_file,
    lemma_next_missing,
    lemma_node_mono,
    lemma_nonroot_keys,
    lemma_nonroot_nonempty,
    lemma_range_split,
    lemma_remove_entry,
    lemma_replace_entry,
    loaded_all,
};
use crate::model::{
    conflicts,
    first_of,
    holds_dir,
    insert_sorted,
    lemma_around,
    lemma_conflicts_middle,
    lemma_conflicts_prefix,
    lemma_holds_dir_prefix,
    lemma_insert_prefix,
    lemma_lookup_prefix,
    lemma_prefix_all_append,
    lemma_prefix_all_twice,
    lemma_remove_absent,
    lemma_remove_prefix,
    lookup,
    next_after,
    pair_view,
    pairs_view,
    prefix_all,
    remove_key,
    sorted,
};
use crate::order::{
    compare_bytes,
    lemma_lt_transitive,
    lex_lt,
};
use crate::storable::Storable;
use crate::store::{
    BlockId,
    Store,
    StoreView,
    TreeError,
    extends,
};
use vstd::slice::slice_to_vec;
use vstd::prelude::*;

verus! {

/// An entry of a directory: a file, or another directory.
pub enum NodeEntry<T> {
    Directory(Node<T>),
    File(T),
}

/// The contents of a directory.
///
/// `id` is the block that holds this directory, while it is unchanged since it was
/// read or written; `entries` are its entries, once loaded.  The entries form an
/// ordered map from name to entry, kept as a vector sorted by name and searched by
/// bisection; no map crate is involved.
pub struct Node<T> {
    pub(crate) id: Option<BlockId>,
    pub(crate) entries: Option<Vec<(Vec<u8>, NodeEntry<T>)>>,
}

/// Both listings are there: the one, then the other.
pub open spec fn join<A>(x: Option<Seq<A>>, y: Option<Seq<A>>) -> Option<Seq<A>> {
    match (x, y) {
        (Some(a), Some(b)) => Some(a + b),
        _ => None,
    }
}

/// The entries of a stored block form a directory with id `id`: names ascend and fit
/// their kinds, each subdirectory was stored before it, and below the root it is
/// not empty.
pub open spec fn valid_raw<T>(es: Seq<(Seq<u8>, RawEntry<T>)>, id: u64, nonroot: bool) -> bool {
    &&& forall|i: int, j: int|
        0 <= i < j < es.len() ==> lex_lt(#[trigger] es[i].0, #[trigger] es[j].0)
    &&& forall|i: int|
        0 <= i < es.len() ==> valid_name(
            (#[trigger] es[i]).0,
            es[i].1 is Directory,
            nonroot,
        ) && (es[i].1 is Directory ==> es[i].1->Directory_0 < id)
    &&& nonroot ==> es.len() > 0
}

/// Block `id` can be loaded: it parses, and its entries form a valid directory.
pub open spec fn block_ok<T: Storable>(bytes: Seq<u8>, id: u64, nonroot: bool) -> bool {
    parse_block::<T>(bytes) is Some && valid_raw(parse_block::<T>(bytes)->Some_0, id, nonroot)
}

/// Why a block that cannot be loaded fails: as its parse fails, or, where it
/// parses but does not form a valid directory, as corruption.
pub open spec fn load_error<T: Storable>(bytes: Seq<u8>) -> TreeError {
    if parse_block::<T>(bytes) is None {
        block_error::<T>(bytes)
    } else {
        TreeError::CorruptTree
    }
}

/// The node is not loaded, and its own block is missing or cannot be loaded.
pub(crate) open spec fn unreadable<T: Storable>(n: Node<T>, b: Map<u64, Seq<u8>>, nonroot: bool) -> bool {
    n.entries is None && match n.id {
        Some(id) => !(b.contains_key(id.0) && block_ok::<T>(b[id.0], id.0, nonroot)),
        None => true,
    }
}

/// A directory on the way to `k` below this node cannot be loaded: this node, or
/// a subdirectory whose name begins `k`, further down.
pub(crate) open spec fn path_unreadable<T: Storable>(
    n: Node<T>,
    b: Map<u64, Seq<u8>>,
    nonroot: bool,
    k: Seq<u8>,
) -> bool
    decreases n,
{
    unreadable(n, b, nonroot) || (n.entries is Some && exists|i: int, t: Seq<u8>|
        0 <= i < n.entries->Some_0@.len() && (#[trigger] n.entries->Some_0@[i]).1 is Directory
            && t.len() > 0 && k == #[trigger] (n.entries->Some_0@[i].0@ + t) && path_unreadable(
            n.entries->Some_0@[i].1->Directory_0,
            b,
            true,
            t,
        ))
}

/// The files below the directory stored in block `id`, if all of it can be read.
pub open spec fn stored_listing<T: Storable>(
    b: Map<u64, Seq<u8>>,
    id: u64,
    nonroot: bool,
) -> Option<Seq<(Seq<u8>, T)>>
    decreases id + 1, 0int,
{
    if b.contains_key(id) {
        match parse_block::<T>(b[id]) {
            Some(es) => if valid_raw(es, id, nonroot) {
                raw_listing(b, es, id)
            } else {
                None
            },
            None => None,
        }
    } else {
        None
    }
}

/// The files below a sequence of stored entries of a directory with id `bound`.
pub open spec fn raw_listing<T: Storable>(
    b: Map<u64, Seq<u8>>,
    es: Seq<(Seq<u8>, RawEntry<T>)>,
    bound: u64,
) -> Option<Seq<(Seq<u8>, T)>>
    decreases bound, es.len(),
{
    if es.len() == 0 {
        Some(Seq::empty())
    } else {
        let first = match es[0].1 {
            RawEntry::File(v) => Some(seq![(es[0].0, v)]),
            RawEntry::Directory(c) => if c < bound {
                match stored_listing::<T>(b, c, true) {
                    Some(l) => Some(prefix_all(es[0].0, l)),
                    None => None,
                }
            } else {
                None
            },
        };
        join(first, raw_listing(b, es.drop_first(), bound))
    }
}

/// The files below a node, in key order, if all of it can be read.
pub(crate) open spec fn listing<T: Storable>(n: Node<T>, b: Map<u64, Seq<u8>>, nonroot: bool) -> Option<
    Seq<(Seq<u8>, T)>,
>
    decreases n,
{
    match n.entries {
        Some(es) => entries_listing(es@, b),
        None => match n.id {
            Some(id) => stored_listing(b, id.0, nonroot),
            None => None,
        },
    }
}

/// The files below a sequence of entries.
pub(crate) open spec fn entries_listing<T: Storable>(
    es: Seq<(Vec<u8>, NodeEntry<T>)>,
    b: Map<u64, Seq<u8>>,
) -> Option<Seq<(Seq<u8>, T)>>
    decreases es,
{
    if es.len() == 0 {
        Some(Seq::empty())
    } else {
        join(entry_listing(es[0].0@, es[0].1, b), entries_listing(es.subrange(1, es.len() as int), b))
    }
}

/// The files that one entry named `name` stands for.
pub(crate) open spec fn entry_listing<T: Storable>(
    name: Seq<u8>,
    e: NodeEntry<T>,
    b: Map<u64, Seq<u8>>,
) -> Option<Seq<(Seq<u8>, T)>>
    decreases e,
{
    match e {
        NodeEntry::File(v) => Some(seq![(name, v)]),
        NodeEntry::Directory(c) => match listing(c, b, true) {
            Some(l) => Some(prefix_all(name, l)),
            None => None,
        },
    }
}

/// The id of a directory entry's node, as a block stores it.
pub(crate) open spec fn raw_entry<T>(e: NodeEntry<T>) -> RawEntry<T> {
    match e {
        NodeEntry::File(v) => RawEntry::File(v),
        NodeEntry::Directory(c) => RawEntry::Directory(
            match c.id {
                Some(id) => id.0,
                None => 0,
            },
        ),
    }
}

/// The entries as a block stores them.
pub(crate) open spec fn raw_of<T>(es: Seq<(Vec<u8>, NodeEntry<T>)>) -> Seq<(Seq<u8>, RawEntry<T>)> {
    es.map_values(|p: (Vec<u8>, NodeEntry<T>)| (p.0@, raw_entry(p.1)))
}

/// Names ascend and fit their kinds.
pub(crate) open spec fn entries_ok<T>(es: Seq<(Vec<u8>, NodeEntry<T>)>, nonroot: bool) -> bool {
    &&& forall|i: int, j: int|
        0 <= i < j < es.len() ==> lex_lt(#[trigger] es[i].0@, #[trigger] es[j].0@)
    &&& forall|i: int|
        0 <= i < es.len() ==> valid_name((#[trigger] es[i]).0@, es[i].1 is Directory, nonroot)
}

/// A loaded node that still has its id is exactly what that block holds.
pub(crate) open spec fn mirrors<T: Storable>(
    es: Seq<(Vec<u8>, NodeEntry<T>)>,
    b: Map<u64, Seq<u8>>,
    id: u64,
    nonroot: bool,
) -> bool {
    &&& b.contains_key(id)
    &&& parse_block::<T>(b[id]) == Some(raw_of(es))
    &&& valid_raw(raw_of(es), id, nonroot)
    &&& forall|i: int|
        0 <= i < es.len() && (#[trigger] es[i]).1 is Directory ==> es[i].1->Directory_0.id is Some
}

/// Loaded, and with no entries.
pub(crate) open spec fn is_empty_node<T>(n: Node<T>) -> bool {
    n.entries is Some && n.entries->Some_0@.len() == 0
}

/// The node's invariant, relative to the blocks of the store it was read from.
pub(crate) open spec fn wf<T: Storable>(n: Node<T>, b: Map<u64, Seq<u8>>, nonroot: bool) -> bool
    decreases n,
{
    match n.entries {
        None => n.id is Some,
        Some(es) => {
            &&& entries_ok(es@, nonroot)
            &&& (n.id is Some ==> mirrors(es@, b, n.id->Some_0.0, nonroot))
            &&& forall|i: int| 0 <= i < es@.len() ==> child_wf(#[trigger] es@[i].1, b)
        },
    }
}

/// Every loaded node below fits the block format: no more entries, and no longer
/// names, than it can hold.
pub(crate) open spec fn mem_encodable<T>(n: Node<T>) -> bool
    decreases n,
{
    match n.entries {
        None => true,
        Some(es) => encodable(raw_of(es@)) && forall|i: int|
            0 <= i < es@.len() ==> child_mem_enc(#[trigger] es@[i].1),
    }
}

/// A file entry, or a subdirectory that fits the block format.
pub(crate) open spec fn child_mem_enc<T>(e: NodeEntry<T>) -> bool
    decreases e,
{
    match e {
        NodeEntry::Directory(c) => mem_encodable(c),
        NodeEntry::File(_) => true,
    }
}

/// Every node to be written below, one without an id, fits the block format.
pub(crate) open spec fn dirty_encodable<T>(n: Node<T>) -> bool
    decreases n,
{
    n.id is Some || match n.entries {
        None => true,
        Some(es) => encodable(raw_of(es@)) && forall|i: int|
            0 <= i < es@.len() ==> match #[trigger] es@[i].1 {
                NodeEntry::Directory(c) => dirty_encodable(c),
                NodeEntry::File(_) => true,
            },
    }
}

/// After a delta write: a node that had an id is unchanged; one that had none now
/// has one, with the same names, the same file states, and subdirectories that are
/// in turn kept so.
pub(crate) open spec fn kept_clean<T>(o: Node<T>, f: Node<T>) -> bool
    decreases o,
{
    if o.id is Some {
        f == o
    } else {
        f.id is Some && match (o.entries, f.entries) {
            (Some(oe), Some(fe)) => oe@.len() == fe@.len() && forall|i: int|
                0 <= i < oe@.len() ==> (#[trigger] fe@[i]).0@ == oe@[i].0@ && kept_entry(oe@[i].1, fe@[i].1),
            _ => false,
        }
    }
}

pub(crate) open spec fn kept_entry<T>(o: NodeEntry<T>, f: NodeEntry<T>) -> bool
    decreases o,
{
    match (o, f) {
        (NodeEntry::File(a), NodeEntry::File(c)) => a == c,
        (NodeEntry::Directory(a), NodeEntry::Directory(c)) => kept_clean(a, c),
        _ => false,
    }
}

/// Block `k` was written by a delta write for a node that had no id: this one, or
/// one below it.
pub(crate) open spec fn written<T>(o: Node<T>, f: Node<T>, k: u64) -> bool
    decreases o,
{
    o.id is None && (f.id == Some(BlockId(k)) || (o.entries is Some && f.entries is Some && exists|
        i: int,
    |
        0 <= i < o.entries->Some_0@.len() && i < f.entries->Some_0@.len() && written_entry(
            (#[trigger] o.entries->Some_0@[i]).1,
            f.entries->Some_0@[i].1,
            k,
        )))
}

pub(crate) open spec fn written_entry<T>(o: NodeEntry<T>, f: NodeEntry<T>, k: u64) -> bool
    decreases o,
{
    match (o, f) {
        (NodeEntry::Directory(a), NodeEntry::Directory(c)) => written(a, c, k),
        _ => false,
    }
}

/// A file entry, or a subdirectory that is well formed and not empty.
pub(crate) open spec fn child_wf<T: Storable>(e: NodeEntry<T>, b: Map<u64, Seq<u8>>) -> bool
    decreases e,
{
    match e {
        NodeEntry::File(_) => true,
        NodeEntry::Directory(c) => wf(c, b, true) && !is_empty_node(c),
    }
}

/// A bound on how deep the directories below a node go: structural for loaded
/// nodes, by block id for stored ones (a stored directory's subdirectories were
/// stored before it).
pub(crate) open spec fn depth<T>(n: Node<T>) -> nat
    decreases n,
{
    match n.entries {
        None => match n.id {
            Some(id) => id.0 as nat + 1,
            None => 0,
        },
        Some(es) => 1 + entries_depth(es@),
    }
}

pub(crate) open spec fn entries_depth<T>(es: Seq<(Vec<u8>, NodeEntry<T>)>) -> nat
    decreases es,
{
    if es.len() == 0 {
        0
    } else {
        let d = match es[0].1 {
            NodeEntry::File(_) => 0,
            NodeEntry::Directory(c) => depth(c),
        };
        let r = entries_depth(es.subrange(1, es.len() as int));
        if d > r {
            d
        } else {
            r
        }
    }
}

proof fn lemma_entries_depth<T>(es: Seq<(Vec<u8>, NodeEntry<T>)>, k: nat)
    ensures
        forall|i: int|
            0 <= i < es.len() && (#[trigger] es[i]).1 is Directory ==> depth(es[i].1->Directory_0)
                <= entries_depth(es),
        (forall|i: int|
            0 <= i < es.len() && (#[trigger] es[i]).1 is Directory ==> depth(es[i].1->Directory_0)
                <= k) ==> entries_depth(es) <= k,
    decreases es.len(),
{
    if es.len() > 0 {
        let rest = es.subrange(1, es.len() as int);
        lemma_entries_depth(rest, k);
        assert forall|i: int|
            0 <= i < es.len() && (#[trigger] es[i]).1 is Directory implies depth(
            es[i].1->Directory_0,
        ) <= entries_depth(es) by {
            if i > 0 {
                assert(rest[i - 1] == es[i]);
            }
        }
        if forall|i: int|
            0 <= i < es.len() && (#[trigger] es[i]).1 is Directory ==> depth(es[i].1->Directory_0)
                <= k {
            assert forall|i: int|
                0 <= i < rest.len() && (#[trigger] rest[i]).1 is Directory implies depth(
                rest[i].1->Directory_0,
            ) <= k by {
                assert(rest[i] == es[i + 1]);
            }
        }
    }
}

/// A node that a delta write stored last: every block new since the write began
/// belongs to a node it wrote, and what had an id is kept.
proof fn lemma_delta_written<T>(
    n0: Node<T>,
    nf: Node<T>,
    b0: Map<u64, Seq<u8>>,
    b3: Map<u64, Seq<u8>>,
    b4: Map<u64, Seq<u8>>,
)
    requires
        n0.id is None,
        n0.entries is Some,
        nf.entries is Some,
        nf.id is Some,
        nf.entries->Some_0@.len() == n0.entries->Some_0@.len(),
        forall|k: u64| b4.contains_key(k) ==> b3.contains_key(k) || k == nf.id->Some_0.0,
        forall|key: u64|
            #[trigger] b3.contains_key(key) && !b0.contains_key(key) ==> exists|j: int|
                0 <= j < nf.entries->Some_0@.len() && #[trigger] written_entry(
                    n0.entries->Some_0@[j].1,
                    nf.entries->Some_0@[j].1,
                    key,
                ),
        forall|k: int|
            0 <= k < n0.entries->Some_0@.len() ==> (#[trigger] nf.entries->Some_0@[k]).0@
                == n0.entries->Some_0@[k].0@,
        forall|k: int|
            0 <= k < n0.entries->Some_0@.len() ==> #[trigger] kept_entry(
                n0.entries->Some_0@[k].1,
                nf.entries->Some_0@[k].1,
            ),
    ensures
        forall|k: u64| b4.contains_key(k) && !b0.contains_key(k) ==> #[trigger] written(n0, nf, k),
        kept_clean(n0, nf),
{
    let oe = n0.entries->Some_0;
    let fe = nf.entries->Some_0;
    assert(n0.entries == Some(oe));
    assert(nf.entries == Some(fe));
    assert forall|i: int| 0 <= i < oe@.len() implies (#[trigger] fe@[i]).0@ == oe@[i].0@ && kept_entry(
        oe@[i].1,
        fe@[i].1,
    ) by {
        assert(kept_entry(n0.entries->Some_0@[i].1, nf.entries->Some_0@[i].1));
        assert(nf.entries->Some_0@[i].0@ == n0.entries->Some_0@[i].0@);
    }
    assert(kept_clean(n0, nf));
    assert forall|k: u64| b4.contains_key(k) && !b0.contains_key(k) implies #[trigger] written(n0, nf, k) by {
        if b3.contains_key(k) {
            let j = choose|j: int|
                0 <= j < nf.entries->Some_0@.len() && #[trigger] written_entry(
                    n0.entries->Some_0@[j].1,
                    nf.entries->Some_0@[j].1,
                    k,
                );
            assert(0 <= j < n0.entries->Some_0@.len() && j < nf.entries->Some_0@.len());
            assert(written_entry(n0.entries->Some_0@[j].1, nf.entries->Some_0@[j].1, k));
            assert(written(n0, nf, k));
        } else {
            assert(k == nf.id->Some_0.0);
            assert(nf.id == Some(BlockId(k)));
            assert(written(n0, nf, k));
        }
    }
}

/// Replacing entry `j` by one of the same name whose subdirectory, if any, fits
/// the format as the old one did, keeps whether the node fits it.
proof fn lemma_mem_enc_replace<T>(n: Node<T>, m: Node<T>, j: int)
    requires
        n.entries is Some,
        m.entries is Some,
        0 <= j < n.entries->Some_0@.len(),
        m.entries->Some_0@.len() == n.entries->Some_0@.len(),
        m.entries->Some_0@ == n.entries->Some_0@.update(j, m.entries->Some_0@[j]),
        m.entries->Some_0@[j].0@ == n.entries->Some_0@[j].0@,
        child_mem_enc(m.entries->Some_0@[j].1) == child_mem_enc(n.entries->Some_0@[j].1),
    ensures
        mem_encodable(m) == mem_encodable(n),
{
    let es = n.entries->Some_0@;
    let ms = m.entries->Some_0@;
    assert forall|k: int| 0 <= k < ms.len() implies (#[trigger] ms[k]).0@ == es[k].0@ by {
        if k != j {
            assert(ms[k] == es[k]);
        }
    }
    lemma_encodable_names(es, ms);
    assert forall|k: int| 0 <= k < ms.len() implies child_mem_enc(#[trigger] ms[k].1) == child_mem_enc(
        es[k].1,
    ) by {
        if k != j {
            assert(ms[k] == es[k]);
        }
    }
    if mem_encodable(n) {
        assert forall|k: int| 0 <= k < ms.len() implies child_mem_enc(#[trigger] ms[k].1) by {
            assert(child_mem_enc(es[k].1));
        }
    }
    if mem_encodable(m) {
        assert forall|k: int| 0 <= k < es.len() implies child_mem_enc(#[trigger] es[k].1) by {
            assert(child_mem_enc(ms[k].1));
        }
    }
}

/// Below a node with no id anywhere, every node is one to be written.
proof fn lemma_dirty_enc<T>(n: Node<T>)
    requires
        dirty_all(n),
    ensures
        dirty_encodable(n) == mem_encodable(n),
    decreases n,
{
    let es = n.entries->Some_0@;
    assert forall|k: int| 0 <= k < es.len() implies child_mem_enc(#[trigger] es[k].1) == match es[k].1 {
        NodeEntry::Directory(c) => dirty_encodable(c),
        NodeEntry::File(_) => true,
    } by {
        if es[k].1 is Directory {
            lemma_dirty_enc(es[k].1->Directory_0);
        }
    }
}

/// Two directory names that begin the same key with something after each are the same.
proof fn lemma_first_component(a: Seq<u8>, x: Seq<u8>, c: Seq<u8>, y: Seq<u8>)
    requires
        is_dir_name(a),
        is_dir_name(c),
        x.len() > 0,
        y.len() > 0,
        a + x == c + y,
    ensures
        a == c,
        x == y,
{
    let k = a + x;
    if a.len() < c.len() {
        assert(k[a.len() - 1] == a[a.len() - 1]);
        assert(k[a.len() - 1] == c[a.len() - 1]);
    } else if c.len() < a.len() {
        assert(k[c.len() - 1] == c[c.len() - 1]);
        assert(k[c.len() - 1] == a[c.len() - 1]);
    }
    assert(a =~= k.subrange(0, a.len() as int));
    assert(c =~= k.subrange(0, c.len() as int));
    assert(x =~= k.subrange(a.len() as int, k.len() as int));
    assert(y =~= k.subrange(c.len() as int, k.len() as int));
}

/// Following `k` below a loaded node: a directory on the way that cannot be loaded
/// lies below the subdirectory named by `k`'s first element, if `k` has more after it.
proof fn lemma_path_step<T: Storable>(
    n: Node<T>,
    b: Map<u64, Seq<u8>>,
    nonroot: bool,
    k: Seq<u8>,
    h: Seq<u8>,
    t: Seq<u8>,
    more: bool,
)
    requires
        n.entries is Some,
        entries_ok(n.entries->Some_0@, nonroot),
        more ==> is_dir_name(h) && t.len() > 0 && k == h + t,
        !more ==> is_file_name(k),
    ensures
        path_unreadable(n, b, nonroot, k) ==> {
            &&& more
            &&& exists|j: int|
                0 <= j < n.entries->Some_0@.len() && (#[trigger] n.entries->Some_0@[j]).0@ == h
            &&& forall|j: int|
                0 <= j < n.entries->Some_0@.len() && (#[trigger] n.entries->Some_0@[j]).0@ == h
                    ==> n.entries->Some_0@[j].1 is Directory && path_unreadable(
                    n.entries->Some_0@[j].1->Directory_0,
                    b,
                    true,
                    t,
                )
        },
{
    let es = n.entries->Some_0@;
    if path_unreadable(n, b, nonroot, k) {
        let (i, t2) = choose|i: int, t2: Seq<u8>|
            0 <= i < es.len() && (#[trigger] es[i]).1 is Directory && t2.len() > 0 && k == #[trigger] (
            es[i].0@ + t2) && path_unreadable(es[i].1->Directory_0, b, true, t2);
        let m = es[i].0@;
        assert(valid_name(m, true, nonroot));
        if more {
            lemma_first_component(m, t2, h, t);
            assert forall|j: int| 0 <= j < es.len() && (#[trigger] es[j]).0@ == h implies es[j].1 is Directory
                && path_unreadable(es[j].1->Directory_0, b, true, t) by {
                if j != i {
                    if j < i {
                        assert(lex_lt(es[j].0@, es[i].0@));
                    } else {
                        assert(lex_lt(es[i].0@, es[j].0@));
                    }
                    crate::order::lemma_lt_irreflexive(h);
                }
            }
        } else {
            assert(k[m.len() - 1] == m[m.len() - 1]);
        }
    }
}

/// Whether entries fit the block format depends on their number and names only.
proof fn lemma_encodable_names<T>(es0: Seq<(Vec<u8>, NodeEntry<T>)>, es3: Seq<(Vec<u8>, NodeEntry<T>)>)
    requires
        es3.len() == es0.len(),
        forall|k: int| 0 <= k < es3.len() ==> (#[trigger] es3[k]).0@ == es0[k].0@,
    ensures
        encodable(raw_of(es3)) == encodable(raw_of(es0)),
{
    let r3 = raw_of(es3);
    let r0 = raw_of(es0);
    assert forall|k: int| 0 <= k < r0.len() implies (#[trigger] r3[k]).0 == r0[k].0 by {
        assert(r3[k].0 == es3[k].0@);
        assert(r0[k].0 == es0[k].0@);
    }
    if encodable(r3) {
        assert forall|k: int| 0 <= k < r0.len() implies (#[trigger] r0[k]).0.len() <= MAX_LEN by {
            assert(r3[k].0 == r0[k].0);
        }
    }
    if encodable(r0) {
        assert forall|k: int| 0 <= k < r3.len() implies (#[trigger] r3[k]).0.len() <= MAX_LEN by {
            assert(r3[k].0 == r0[k].0);
        }
    }
}

/// Whether `name` may name an entry of the given kind.
fn name_ok(name: &[u8], dir: bool, nonroot: bool) -> (r: bool)
    ensures
        r == valid_name(name@, dir, nonroot),
{
    let n = name.len();
    let mut i: usize = 0;
    while i < n && i + 1 < n
        invariant
            n == name@.len(),
            i <= n,
            forall|j: int| 0 <= j < i ==> name@[j] != SLASH,
        decreases n - i,
    {
        if name[i] == SLASH {
            return false;
        }
        i = i + 1;
    }
    if dir {
        n > 0 && name[n - 1] == SLASH
    } else {
        !nonroot || n > 0
    }
}

/// Whether freshly read entries form a valid directory stored in block `id`.
fn entries_valid<T: Storable>(es: &Vec<(Vec<u8>, NodeEntry<T>)>, id: u64, nonroot: bool) -> (r: bool)
    requires
        forall|i: int|
            0 <= i < es@.len() && (#[trigger] es@[i]).1 is Directory ==> es@[i].1->Directory_0.id is Some,
    ensures
        r == valid_raw(raw_of(es@), id, nonroot),
{
    let ghost raw = raw_of(es@);
    if nonroot && es.len() == 0 {
        return false;
    }
    let mut i: usize = 0;
    while i < es.len()
        invariant
            raw == raw_of(es@),
            i <= es@.len(),
            forall|a: int, c: int| 0 <= a < c < i ==> lex_lt(#[trigger] raw[a].0, #[trigger] raw[c].0),
            forall|a: int|
                0 <= a < i ==> valid_name((#[trigger] raw[a]).0, raw[a].1 is Directory, nonroot) && (
                raw[a].1 is Directory ==> raw[a].1->Directory_0 < id),
        decreases es@.len() - i,
    {
        assert(raw[i as int] == (es@[i as int].0@, raw_entry(es@[i as int].1)));
        let dir = match &es[i].1 {
            NodeEntry::Directory(c) => {
                let cid = match c.id {
                    Some(cid) => cid.0,
                    None => 0,
                };
                if cid >= id {
                    return false;
                }
                true
            },
            NodeEntry::File(_) => false,
        };
        if !name_ok(es[i].0.as_slice(), dir, nonroot) {
            return false;
        }
        if i > 0 {
            match compare_bytes(es[i - 1].0.as_slice(), es[i].0.as_slice()) {
                core::cmp::Ordering::Less => {},
                _ => {
                    assert(raw[i - 1] == (es@[i - 1].0@, raw_entry(es@[i - 1].1)));
                    return false;
                },
            }
            proof {
                assert forall|a: int| 0 <= a < i - 1 implies lex_lt(raw[a].0, raw[i as int].0) by {
                    lemma_lt_transitive(raw[a].0, raw[i - 1].0, raw[i as int].0);
                }
            }
        }
        i = i + 1;
    }
    true
}

/// Finds an entry by name: `Ok(i)` where entry `i` has the name, else `Err(i)`
/// where such an entry would go.
fn find<T>(es: &Vec<(Vec<u8>, NodeEntry<T>)>, name: &[u8]) -> (r: Result<usize, usize>)
    requires
        forall|i: int, j: int|
            0 <= i < j < es@.len() ==> lex_lt(#[trigger] es@[i].0@, #[trigger] es@[j].0@),
    ensures
        match r {
            Ok(i) => i < es@.len() && es@[i as int].0@ == name@,
            Err(i) => {
                &&& i <= es@.len()
                &&& forall|k: int| 0 <= k < i ==> lex_lt((#[trigger] es@[k]).0@, name@)
                &&& forall|k: int| i <= k < es@.len() ==> lex_lt(name@, (#[trigger] es@[k]).0@)
            },
        },
{
    let mut lo: usize = 0;
    let mut hi: usize = es.len();
    while lo < hi
        invariant
            lo <= hi <= es@.len(),
            forall|i: int, j: int|
                0 <= i < j < es@.len() ==> lex_lt(#[trigger] es@[i].0@, #[trigger] es@[j].0@),
            forall|k: int| 0 <= k < lo ==> lex_lt((#[trigger] es@[k]).0@, name@),
            forall|k: int| hi <= k < es@.len() ==> lex_lt(name@, (#[trigger] es@[k]).0@),
        decreases hi - lo,
    {
        let mid = lo + (hi - lo) / 2;
        match compare_bytes(es[mid].0.as_slice(), name) {
            core::cmp::Ordering::Less => {
                assert forall|k: int| 0 <= k <= mid implies lex_lt((#[trigger] es@[k]).0@, name@) by {
                    if k < mid {
                        lemma_lt_transitive(es@[k].0@, es@[mid as int].0@, name@);
                    }
                }
                lo = mid + 1;
            },
            core::cmp::Ordering::Equal => {
                return Ok(mid);
            },
            core::cmp::Ordering::Greater => {
                assert forall|k: int| mid <= k < es@.len() implies lex_lt(
                    name@,
                    (#[trigger] es@[k]).0@,
                ) by {
                    if k > mid {
                        lemma_lt_transitive(name@, es@[mid as int].0@, es@[k].0@);
                    }
                }
                hi = mid;
            },
        }
    }
    Err(lo)
}

impl<T: Storable> Node<T> {
    /// A new empty directory, not yet stored.
    pub(crate) fn new() -> (r: Node<T>)
        ensures
            r.id is None,
            r.entries is Some,
            r.entries->Some_0@.len() == 0,
    {
        Node { id: None, entries: Some(Vec::new()) }
    }

    /// A directory stored in block `id`, whose entries are read when first needed.
    pub(crate) fn open(id: BlockId) -> (r: Node<T>)
        ensures
            r.id == Some(id),
            r.entries is None,
    {
        Node { id: Some(id), entries: None }
    }

    /// Reads the entries from the store, unless they are loaded already.  The
    /// subdirectories are left unloaded.
    ///
    /// Besides what the format requires (a known tag for each entry, whole fields
    /// and names, exactly as many entries as the count says, nothing after them),
    /// a block is refused as corrupt where its names do not ascend strictly, where
    /// a name does not fit its kind, where a subdirectory's block id is not below
    /// the block's own, or where a directory below the root is empty.
    pub(crate) fn load<V: StoreView>(&mut self, store: &V, nonroot: bool) -> (r: Result<(), TreeError>)
        requires
            wf(*old(self), store.blocks(), nonroot),
        ensures
            wf(*final(self), store.blocks(), nonroot),
            listing(*final(self), store.blocks(), nonroot) == listing(*old(self), store.blocks(), nonroot),
            final(self).id == old(self).id,
            nonroot && !is_empty_node(*old(self)) ==> !is_empty_node(*final(self)),
            depth(*final(self)) <= depth(*old(self)),
            mem_encodable(*final(self)) == mem_encodable(*old(self)),
            old(self).entries is Some ==> r is Ok && *final(self) == *old(self),
            old(self).entries is None && r is Ok ==> {
                let id = old(self).id->Some_0.0;
                let es = final(self).entries->Some_0@;
                &&& store.blocks().contains_key(id)
                &&& parse_block::<T>(store.blocks()[id]) == Some(raw_of(es))
                &&& valid_raw(raw_of(es), id, nonroot)
                &&& forall|i: int|
                    0 <= i < es.len() && (#[trigger] es[i]).1 is Directory ==> es[i].1->Directory_0.entries
                        is None && es[i].1->Directory_0.id is Some
            },
            old(self).entries is None && store.reliable() && store.blocks().contains_key(
                old(self).id->Some_0.0,
            ) ==> {
                let bytes = store.blocks()[old(self).id->Some_0.0];
                &&& r is Ok <==> block_ok::<T>(bytes, old(self).id->Some_0.0, nonroot)
                &&& r is Err ==> r->Err_0 == load_error::<T>(bytes)
            },
            r is Err ==> {
                let id = old(self).id->Some_0.0;
                ||| r->Err_0 == TreeError::StoreIo
                ||| store.blocks().contains_key(id) && !block_ok::<T>(store.blocks()[id], id, nonroot)
                    && r->Err_0 == load_error::<T>(store.blocks()[id])
            },
            old(self).entries is None && !store.blocks().contains_key(old(self).id->Some_0.0) ==> r is Err,
            match r {
                Ok(()) => final(self).entries is Some,
                Err(e) => {
                    &&& *final(self) == *old(self)
                    &&& listing(*old(self), store.blocks(), nonroot) is Some ==> e == TreeError::StoreIo
                        && !store.reliable()
                },
            },
    {
        if self.entries.is_some() {
            return Ok(());
        }
        let id = match self.id {
            Some(id) => id,
            None => {
                return Err(TreeError::CorruptTree);
            },
        };
        let data = match store.read(id) {
            Ok(data) => data,
            Err(e) => {
                return Err(e);
            },
        };
        let es = match read_block::<T>(data.as_slice()) {
            Ok(es) => es,
            Err(e) => {
                return Err(e);
            },
        };
        if !entries_valid(&es, id.0, nonroot) {
            return Err(TreeError::CorruptTree);
        }
        self.entries = Some(es);
        proof {
            let b = store.blocks();
            lemma_parsed_encodable::<T>(data@);
            assert forall|i: int| 0 <= i < es@.len() implies child_mem_enc(#[trigger] es@[i].1) by {}
            let raw = raw_of(es@);
            assert forall|i: int| 0 <= i < es@.len() implies raw[i] == (
                #[trigger] es@[i].0@,
                raw_entry(es@[i].1),
            ) && (raw[i].1 is Directory <==> es@[i].1 is Directory) by {}
            assert(entries_ok(es@, nonroot)) by {
                assert forall|i: int, j: int| 0 <= i < j < es@.len() implies lex_lt(
                    #[trigger] es@[i].0@,
                    #[trigger] es@[j].0@,
                ) by {
                    assert(raw[i].0 == es@[i].0@ && raw[j].0 == es@[j].0@);
                }
                assert forall|i: int| 0 <= i < es@.len() implies valid_name(
                    (#[trigger] es@[i]).0@,
                    es@[i].1 is Directory,
                    nonroot,
                ) by {
                    assert(raw[i].0 == es@[i].0@);
                }
            }
            assert forall|i: int| 0 <= i < es@.len() implies child_wf(#[trigger] es@[i].1, b) by {
                if es@[i].1 is Directory {
                    assert(raw_of(es@)[i] == (es@[i].0@, raw_entry(es@[i].1)));
                }
            }
            assert(wf(*self, b, nonroot));
            lemma_clean_listing(*self, b, nonroot);
            if nonroot {
                assert(raw_of(es@).len() > 0);
            }
            assert forall|i: int|
                0 <= i < es@.len() && (#[trigger] es@[i]).1 is Directory implies depth(
                es@[i].1->Directory_0,
            ) <= id.0 by {
                assert(raw[i] == (es@[i].0@, raw_entry(es@[i].1)));
            }
            lemma_entries_depth(es@, id.0 as nat);
        }
        Ok(())
    }
}

/// Where a path leads within one directory.
///
/// Each variant holds the index of the entry for the path's first element, or
/// where that entry would go.
pub(crate) enum PathRecurse {
    /// A subdirectory, with more of the path below it.
    Directory(usize),
    /// A subdirectory that the path names exactly.
    ExactDirectory(usize),
    /// No entry, with more of the path below it.
    MissingDirectory(usize),
    /// A file that the path names exactly.
    File(usize),
    /// No entry, and no more of the path.
    MissingFile(usize),
    /// A file where the path needs a directory.
    ConflictingFile(usize),
}

/// Where the element `elem` leads among the entries, given whether more of the
/// path follows it.
fn path_recurse<T>(es: &Vec<(Vec<u8>, NodeEntry<T>)>, elem: &[u8], more: bool) -> (r: PathRecurse)
    requires
        forall|i: int, j: int|
            0 <= i < j < es@.len() ==> lex_lt(#[trigger] es@[i].0@, #[trigger] es@[j].0@),
    ensures
        match r {
            PathRecurse::Directory(j) | PathRecurse::ExactDirectory(j) | PathRecurse::File(j)
            | PathRecurse::ConflictingFile(j) => {
                &&& j < es@.len()
                &&& es@[j as int].0@ == elem@
                &&& (es@[j as int].1 is Directory <==> (r is Directory || r is ExactDirectory))
                &&& (more <==> (r is Directory || r is ConflictingFile))
            },
            PathRecurse::MissingDirectory(j) | PathRecurse::MissingFile(j) => {
                &&& j <= es@.len()
                &&& forall|k: int| 0 <= k < j ==> lex_lt((#[trigger] es@[k]).0@, elem@)
                &&& forall|k: int| j <= k < es@.len() ==> lex_lt(elem@, (#[trigger] es@[k]).0@)
                &&& (more <==> r is MissingDirectory)
            },
        },
{
    match find(es, elem) {
        Ok(j) => {
            let dir = match &es[j].1 {
                NodeEntry::Directory(_) => true,
                NodeEntry::File(_) => false,
            };
            if more {
                if dir {
                    PathRecurse::Directory(j)
                } else {
                    PathRecurse::ConflictingFile(j)
                }
            } else {
                if dir {
                    PathRecurse::ExactDirectory(j)
                } else {
                    PathRecurse::File(j)
                }
            }
        },
        Err(j) => {
            if more {
                PathRecurse::MissingDirectory(j)
            } else {
                PathRecurse::MissingFile(j)
            }
        },
    }
}

impl<T: Storable> Node<T> {
    /// The state of the file at `name` below this node.
    pub(crate) fn get<V: StoreView>(&mut self, store: &V, name: &[u8], nonroot: bool) -> (r: Result<
        Option<T>,
        TreeError,
    >)
        requires
            wf(*old(self), store.blocks(), nonroot),
        ensures
            path_unreadable(*old(self), store.blocks(), nonroot, name@) ==> r is Err,
            unreadable(*old(self), store.blocks(), nonroot) ==> r is Err,
            wf(*final(self), store.blocks(), nonroot),
            listing(*final(self), store.blocks(), nonroot) == listing(*old(self), store.blocks(), nonroot),
            final(self).id == old(self).id,
            nonroot && !is_empty_node(*old(self)) ==> !is_empty_node(*final(self)),
            listing(*old(self), store.blocks(), nonroot) is Some ==> match r {
                Ok(x) => x == lookup(listing(*old(self), store.blocks(), nonroot)->Some_0, name@),
                Err(e) => e == TreeError::StoreIo && !store.reliable(),
            },
        decreases name@.len(),
    {
        let ghost b = store.blocks();
        match self.load(store, nonroot) {
            Ok(()) => {},
            Err(e) => {
                return Err(e);
            },
        }
        let ghost n0 = *self;
        let (elem, path) = split_key(name);
        let ghost hdir = path is Some;
        let ghost t = match path {
            Some(t) => t@,
            None => Seq::<u8>::empty(),
        };
        assert(name@ == elem@ + t);
        let es = match &mut self.entries {
            Some(es) => es,
            None => {
                return Err(TreeError::CorruptTree);
            },
        };
        let ghost es0 = es@;
        let ghost l = entries_listing(es0, b);
        proof {
            lemma_path_step(n0, b, nonroot, name@, elem@, t, path is Some);
            crate::order::lemma_lt_irreflexive(elem@);
        }
        match path_recurse(es, elem, path.is_some()) {
            PathRecurse::Directory(j) => {
                let tail = match path {
                    Some(tail) => tail,
                    None => {
                        return Err(TreeError::CorruptTree);
                    },
                };
                proof {
                    lemma_lookup_found(es0, b, nonroot, j as int, elem@, hdir, t);
                    assert(child_wf(es0[j as int].1, b));
                    if l is Some {
                        lemma_lookup_prefix(elem@, listing(es0[j as int].1->Directory_0, b, true)->Some_0, t);
                    }
                }
                let r = match &mut es[j].1 {
                    NodeEntry::Directory(c) => c.get(store, tail, true),
                    NodeEntry::File(_) => Err(TreeError::CorruptTree),
                };
                proof {
                    lemma_replace_entry(n0, *self, j as int, b, nonroot);
                    lemma_entries_listing_split(es0, j as int, b);
                    assert(entry_listing(elem@, self.entries->Some_0@[j as int].1, b) == entry_listing(
                        elem@,
                        es0[j as int].1,
                        b,
                    ));
                }
                r
            },
            PathRecurse::File(j) => {
                let r = match &es[j].1 {
                    NodeEntry::File(v) => v.duplicate(),
                    NodeEntry::Directory(_) => {
                        return Err(TreeError::CorruptTree);
                    },
                };
                proof {
                    lemma_lookup_found(es0, b, nonroot, j as int, elem@, hdir, t);
                    assert(elem@ + t =~= elem@);
                    assert(l is Some ==> lookup(l->Some_0, name@) == Some(r));
                }
                Ok(Some(r))
            },
            PathRecurse::ExactDirectory(j) => {
                proof {
                    lemma_lookup_found(es0, b, nonroot, j as int, elem@, hdir, t);
                    let c = es0[j as int].1->Directory_0;
                    assert(child_wf(es0[j as int].1, b));
                    lemma_nonroot_keys(c, b);
                    if l is Some {
                        let lc = listing(c, b, true)->Some_0;
                        lemma_lookup_prefix(elem@, lc, t);
                        assert(elem@ + t =~= elem@);
                        crate::model::lemma_lookup_some(lc, t);
                    }
                    assert(l is Some ==> lookup(l->Some_0, name@) is None);
                }
                Ok(None)
            },
            PathRecurse::ConflictingFile(j) => {
                proof {
                    lemma_lookup_found(es0, b, nonroot, j as int, elem@, hdir, t);
                    assert((elem@ + t).len() != elem@.len());
                    let s1 = seq![(elem@, es0[j as int].1->File_0)];
                    assert(s1[0].0 != name@);
                    assert(s1.drop_first() =~= Seq::empty());
                    assert(lookup(s1, name@) == lookup(s1.drop_first(), name@));
                }
                Ok(None)
            },
            PathRecurse::MissingDirectory(j) | PathRecurse::MissingFile(j) => {
                proof {
                    lemma_lookup_missing(es0, b, nonroot, j as int, elem@, hdir, t);
                    assert(l is Some ==> lookup(l->Some_0, name@) is None);
                }
                Ok(None)
            },
        }
    }

    /// Whether `name` is a directory below this node.
    pub(crate) fn has_dir<V: StoreView>(&mut self, store: &V, name: &[u8], nonroot: bool) -> (r: Result<
        bool,
        TreeError,
    >)
        requires
            wf(*old(self), store.blocks(), nonroot),
        ensures
            path_unreadable(*old(self), store.blocks(), nonroot, name@) ==> r is Err,
            unreadable(*old(self), store.blocks(), nonroot) ==> r is Err,
            wf(*final(self), store.blocks(), nonroot),
            listing(*final(self), store.blocks(), nonroot) == listing(*old(self), store.blocks(), nonroot),
            final(self).id == old(self).id,
            nonroot && !is_empty_node(*old(self)) ==> !is_empty_node(*final(self)),
            listing(*old(self), store.blocks(), nonroot) is Some ==> match r {
                Ok(x) => x == holds_dir(listing(*old(self), store.blocks(), nonroot)->Some_0, name@),
                Err(e) => e == TreeError::StoreIo && !store.reliable(),
            },
        decreases name@.len(),
    {
        let ghost b = store.blocks();
        match self.load(store, nonroot) {
            Ok(()) => {},
            Err(e) => {
                return Err(e);
            },
        }
        let ghost n0 = *self;
        let (elem, path) = split_key(name);
        let ghost h = elem@;
        let ghost t = match path {
            Some(t) => t@,
            None => Seq::<u8>::empty(),
        };
        assert(name@ == h + t);
        assert(h + Seq::<u8>::empty() =~= h);
        let es = match &mut self.entries {
            Some(es) => es,
            None => {
                return Err(TreeError::CorruptTree);
            },
        };
        let ghost es0 = es@;
        let ghost l = entries_listing(es0, b);
        proof {
            lemma_path_step(n0, b, nonroot, name@, elem@, t, path is Some);
            crate::order::lemma_lt_irreflexive(elem@);
        }
        let ghost slash_end = h.len() > 0 && h[h.len() - 1] == SLASH;
        match path_recurse(es, elem, path.is_some()) {
            PathRecurse::Directory(j) => {
                let tail = match path {
                    Some(tail) => tail,
                    None => {
                        return Err(TreeError::CorruptTree);
                    },
                };
                proof {
                    lemma_below_found(es0, b, nonroot, j as int, h, t);
                    assert(child_wf(es0[j as int].1, b));
                    if l is Some {
                        lemma_holds_dir_prefix(h, listing(es0[j as int].1->Directory_0, b, true)->Some_0, t);
                    }
                }
                let r = match &mut es[j].1 {
                    NodeEntry::Directory(c) => c.has_dir(store, tail, true),
                    NodeEntry::File(_) => Err(TreeError::CorruptTree),
                };
                proof {
                    lemma_replace_entry(n0, *self, j as int, b, nonroot);
                    lemma_entries_listing_split(es0, j as int, b);
                    assert(entry_listing(h, self.entries->Some_0@[j as int].1, b) == entry_listing(
                        h,
                        es0[j as int].1,
                        b,
                    ));
                }
                r
            },
            PathRecurse::ExactDirectory(j) => {
                proof {
                    assert(valid_name(h, true, nonroot));
                    lemma_below_found(es0, b, nonroot, j as int, h, t);
                    let c = es0[j as int].1->Directory_0;
                    assert(child_wf(es0[j as int].1, b));
                    lemma_nonroot_keys(c, b);
                    lemma_nonroot_nonempty(c, b);
                    if l is Some {
                        let lc = listing(c, b, true)->Some_0;
                        let p = prefix_all(h, lc);
                        assert(p[0].0 == h + lc[0].0);
                        assert(h.is_prefix_of(p[0].0));
                        assert(holds_dir(p, h + t));
                    }
                }
                Ok(true)
            },
            PathRecurse::ConflictingFile(j) => {
                proof {
                    lemma_below_found(es0, b, nonroot, j as int, h, t);
                }
                Ok(false)
            },
            PathRecurse::MissingDirectory(j) => {
                proof {
                    lemma_below_missing(es0, b, nonroot, j as int, h, t);
                }
                Ok(false)
            },
            PathRecurse::File(j) => {
                proof {
                    if slash_end {
                        lemma_below_found(es0, b, nonroot, j as int, h, t);
                    }
                }
                Ok(false)
            },
            PathRecurse::MissingFile(j) => {
                proof {
                    if slash_end {
                        lemma_below_missing(es0, b, nonroot, j as int, h, t);
                    }
                }
                Ok(false)
            },
        }
    }


    /// Adds or updates the file at `name` below this node.  Returns whether the file
    /// is new.
    pub(crate) fn add<V: StoreView>(&mut self, store: &V, name: &[u8], info: &T, nonroot: bool) -> (r:
        Result<bool, TreeError>)
        requires
            wf(*old(self), store.blocks(), nonroot),
            nonroot ==> name@.len() > 0,
        ensures
            path_unreadable(*old(self), store.blocks(), nonroot, name@) ==> r is Err,
            unreadable(*old(self), store.blocks(), nonroot) ==> r is Err,
            wf(*final(self), store.blocks(), nonroot),
            match r {
                Ok(created) => {
                    &&& final(self).id is None
                    &&& !is_empty_node(*final(self))
                    &&& listing(*old(self), store.blocks(), nonroot) is Some ==> {
                        let l = listing(*old(self), store.blocks(), nonroot)->Some_0;
                        &&& listing(*final(self), store.blocks(), nonroot) == Some(
                            insert_sorted(l, name@, *info),
                        )
                        &&& created == (lookup(l, name@) is None)
                    }
                },
                Err(e) => {
                    &&& listing(*final(self), store.blocks(), nonroot) == listing(
                        *old(self),
                        store.blocks(),
                        nonroot,
                    )
                    &&& final(self).id == old(self).id
                    &&& nonroot && !is_empty_node(*old(self)) ==> !is_empty_node(*final(self))
                    &&& listing(*old(self), store.blocks(), nonroot) is Some ==> {
                        ||| e == TreeError::StoreIo && !store.reliable()
                        ||| e == TreeError::CorruptTree && conflicts(
                            listing(*old(self), store.blocks(), nonroot)->Some_0,
                            name@,
                        )
                    }
                },
            },
        decreases name@.len(),
    {
        let ghost b = store.blocks();
        match self.load(store, nonroot) {
            Ok(()) => {},
            Err(e) => {
                return Err(e);
            },
        }
        let ghost n0 = *self;
        let (elem, path) = split_key(name);
        let ghost h = elem@;
        let ghost hdir = path is Some;
        let ghost t = match path {
            Some(t) => t@,
            None => Seq::<u8>::empty(),
        };
        assert(name@ == h + t);
        assert(h + Seq::<u8>::empty() =~= h);
        let ghost es0 = self.entries->Some_0@;
        let ghost l = entries_listing(es0, b);
        proof {
            lemma_path_step(n0, b, nonroot, name@, elem@, t, path is Some);
            crate::order::lemma_lt_irreflexive(elem@);
        }
        let ghost v = *info;
        let rec = match &self.entries {
            Some(es) => path_recurse(es, elem, path.is_some()),
            None => {
                return Err(TreeError::CorruptTree);
            },
        };
        match rec {
            PathRecurse::Directory(j) => {
                let tail = match path {
                    Some(tail) => tail,
                    None => {
                        return Err(TreeError::CorruptTree);
                    },
                };
                proof {
                    lemma_lookup_found(es0, b, nonroot, j as int, h, hdir, t);
                    lemma_locate_found(es0, b, nonroot, j as int, h, hdir, t);
                    assert(child_wf(es0[j as int].1, b));
                    if l is Some {
                        let lc = listing(es0[j as int].1->Directory_0, b, true)->Some_0;
                        lemma_lookup_prefix(h, lc, t);
                        lemma_conflicts_prefix(h, lc, t);
                        lemma_conflicts_middle(
                            entries_listing(es0.subrange(0, j as int), b)->Some_0,
                            prefix_all(h, lc),
                            entries_listing(es0.subrange(j + 1, es0.len() as int), b)->Some_0,
                            name@,
                        );
                        lemma_insert_prefix(h, lc, t, v);
                        lemma_around(
                            entries_listing(es0.subrange(0, j as int), b)->Some_0,
                            prefix_all(h, lc),
                            entries_listing(es0.subrange(j + 1, es0.len() as int), b)->Some_0,
                            name@,
                            v,
                        );
                    }
                }
                let es = match &mut self.entries {
                    Some(es) => es,
                    None => {
                        return Err(TreeError::CorruptTree);
                    },
                };
                let r = match &mut es[j].1 {
                    NodeEntry::Directory(c) => c.add(store, tail, info, true),
                    NodeEntry::File(_) => Err(TreeError::CorruptTree),
                };
                match r {
                    Ok(created) => {
                        self.id = None;
                        proof {
                            lemma_replace_entry(n0, *self, j as int, b, nonroot);
                        }
                        Ok(created)
                    },
                    Err(e) => {
                        proof {
                            lemma_replace_entry(n0, *self, j as int, b, nonroot);
                        }
                        Err(e)
                    },
                }
            },
            PathRecurse::MissingDirectory(j) => {
                let tail = match path {
                    Some(tail) => tail,
                    None => {
                        return Err(TreeError::CorruptTree);
                    },
                };
                let mut node = Node::new();
                proof {
                    assert(entries_listing(node.entries->Some_0@, b) == Some(Seq::<(Seq<u8>, T)>::empty()));
                }
                let created = match node.add(store, tail, info, true) {
                    Ok(created) => created,
                    Err(e) => {
                        return Err(e);
                    },
                };
                proof {
                    lemma_lookup_missing(es0, b, nonroot, j as int, h, hdir, t);
                    lemma_locate_missing(es0, b, nonroot, j as int, h, hdir, t);
                    assert(prefix_all(h, insert_sorted(Seq::<(Seq<u8>, T)>::empty(), t, v)) =~= seq![(name@, v)]);
                    if l is Some {
                        let z = entries_listing(es0.subrange(j as int, es0.len() as int), b)->Some_0;
                        lemma_around(
                            entries_listing(es0.subrange(0, j as int), b)->Some_0,
                            Seq::empty(),
                            z,
                            name@,
                            v,
                        );
                        assert(Seq::<(Seq<u8>, T)>::empty() + z =~= z);
                    }
                }
                let entry = (slice_to_vec(elem), NodeEntry::Directory(node));
                let es = match &mut self.entries {
                    Some(es) => es,
                    None => {
                        return Err(TreeError::CorruptTree);
                    },
                };
                es.insert(j, entry);
                self.id = None;
                proof {
                    lemma_insert_entry(n0, *self, j as int, entry, b, nonroot);
                }
                Ok(created)
            },
            PathRecurse::File(j) => {
                proof {
                    lemma_locate_found(es0, b, nonroot, j as int, h, hdir, t);
                    if l is Some {
                        lemma_around(
                            entries_listing(es0.subrange(0, j as int), b)->Some_0,
                            seq![(h, es0[j as int].1->File_0)],
                            entries_listing(es0.subrange(j + 1, es0.len() as int), b)->Some_0,
                            name@,
                            v,
                        );
                    }
                }
                let es = match &mut self.entries {
                    Some(es) => es,
                    None => {
                        return Err(TreeError::CorruptTree);
                    },
                };
                match &mut es[j].1 {
                    NodeEntry::File(f) => {
                        *f = info.duplicate();
                    },
                    NodeEntry::Directory(_) => {},
                }
                self.id = None;
                proof {
                    lemma_replace_entry(n0, *self, j as int, b, nonroot);
                }
                Ok(false)
            },
            PathRecurse::MissingFile(j) => {
                proof {
                    lemma_lookup_missing(es0, b, nonroot, j as int, h, hdir, t);
                    lemma_locate_missing(es0, b, nonroot, j as int, h, hdir, t);
                    if l is Some {
                        let z = entries_listing(es0.subrange(j as int, es0.len() as int), b)->Some_0;
                        lemma_around(
                            entries_listing(es0.subrange(0, j as int), b)->Some_0,
                            Seq::empty(),
                            z,
                            name@,
                            v,
                        );
                        assert(Seq::<(Seq<u8>, T)>::empty() + z =~= z);
                    }
                }
                let entry = (slice_to_vec(elem), NodeEntry::File(info.duplicate()));
                let es = match &mut self.entries {
                    Some(es) => es,
                    None => {
                        return Err(TreeError::CorruptTree);
                    },
                };
                es.insert(j, entry);
                self.id = None;
                proof {
                    lemma_insert_entry(n0, *self, j as int, entry, b, nonroot);
                }
                Ok(true)
            },
            PathRecurse::ExactDirectory(j) => {
                proof {
                    assert(valid_name(h, true, nonroot));
                    lemma_below_found(es0, b, nonroot, j as int, h, t);
                    let c = es0[j as int].1->Directory_0;
                    assert(child_wf(es0[j as int].1, b));
                    lemma_nonroot_keys(c, b);
                    lemma_nonroot_nonempty(c, b);
                    if l is Some {
                        let lc = listing(c, b, true)->Some_0;
                        let p = prefix_all(h, lc);
                        assert(p[0].0 == h + lc[0].0);
                        assert(h.is_prefix_of(p[0].0));
                        assert(holds_dir(p, h + t));
                    }
                }
                Err(TreeError::CorruptTree)
            },
            PathRecurse::ConflictingFile(j) => {
                proof {
                    lemma_locate_found(es0, b, nonroot, j as int, h, hdir, t);
                    if l is Some {
                        let a = entries_listing(es0.subrange(0, j as int), b)->Some_0;
                        let c = seq![(h, es0[j as int].1->File_0)];
                        let z = entries_listing(es0.subrange(j + 1, es0.len() as int), b)->Some_0;
                        assert(h.is_prefix_of(name@));
                        assert(c[0].0 == h);
                        assert(crate::model::file_on_path(c, name@));
                        lemma_conflicts_middle(a, c, z, name@);
                    }
                }
                Err(TreeError::CorruptTree)
            },
        }
    }


    /// Removes the file at `name` below this node.  Returns whether a file was
    /// removed, and whether this node is now empty.
    #[verifier::spinoff_prover]
    #[verifier::rlimit(60)]
    pub(crate) fn remove<V: StoreView>(&mut self, store: &V, name: &[u8], nonroot: bool) -> (r: Result<
        (bool, bool),
        TreeError,
    >)
        requires
            wf(*old(self), store.blocks(), nonroot),
        ensures
            path_unreadable(*old(self), store.blocks(), nonroot, name@) ==> r is Err,
            unreadable(*old(self), store.blocks(), nonroot) ==> r is Err,
            wf(*final(self), store.blocks(), nonroot),
            match r {
                Ok((removed, now_empty)) => {
                    &&& now_empty == is_empty_node(*final(self))
                    &&& final(self).id == (if removed {
                        None
                    } else {
                        old(self).id
                    })
                    &&& !removed ==> listing(*final(self), store.blocks(), nonroot) == listing(
                        *old(self),
                        store.blocks(),
                        nonroot,
                    ) && (nonroot && !is_empty_node(*old(self)) ==> !is_empty_node(*final(self)))
                    &&& listing(*old(self), store.blocks(), nonroot) is Some ==> {
                        let l = listing(*old(self), store.blocks(), nonroot)->Some_0;
                        &&& listing(*final(self), store.blocks(), nonroot) == Some(remove_key(l, name@))
                        &&& removed == (lookup(l, name@) is Some)
                    }
                },
                Err(e) => {
                    &&& listing(*final(self), store.blocks(), nonroot) == listing(
                        *old(self),
                        store.blocks(),
                        nonroot,
                    )
                    &&& final(self).id == old(self).id
                    &&& nonroot && !is_empty_node(*old(self)) ==> !is_empty_node(*final(self))
                    &&& listing(*old(self), store.blocks(), nonroot) is Some ==> e
                        == TreeError::StoreIo && !store.reliable()
                },
            },
        decreases name@.len(),
    {
        let ghost b = store.blocks();
        match self.load(store, nonroot) {
            Ok(()) => {},
            Err(e) => {
                return Err(e);
            },
        }
        let ghost n0 = *self;
        let (elem, path) = split_key(name);
        let ghost h = elem@;
        let ghost hdir = path is Some;
        let ghost t = match path {
            Some(t) => t@,
            None => Seq::<u8>::empty(),
        };
        assert(name@ == h + t);
        assert(h + Seq::<u8>::empty() =~= h);
        let ghost es0 = self.entries->Some_0@;
        let ghost l = entries_listing(es0, b);
        proof {
            lemma_path_step(n0, b, nonroot, name@, elem@, t, path is Some);
            crate::order::lemma_lt_irreflexive(elem@);
        }
        let rec = match &self.entries {
            Some(es) => path_recurse(es, elem, path.is_some()),
            None => {
                return Err(TreeError::CorruptTree);
            },
        };
        match rec {
            PathRecurse::Directory(j) => {
                let tail = match path {
                    Some(tail) => tail,
                    None => {
                        return Err(TreeError::CorruptTree);
                    },
                };
                proof {
                    lemma_lookup_found(es0, b, nonroot, j as int, h, hdir, t);
                    lemma_locate_found(es0, b, nonroot, j as int, h, hdir, t);
                    assert(child_wf(es0[j as int].1, b));
                    if l is Some {
                        let lc = listing(es0[j as int].1->Directory_0, b, true)->Some_0;
                        lemma_lookup_prefix(h, lc, t);
                        lemma_remove_prefix(h, lc, t);
                        lemma_around(
                            entries_listing(es0.subrange(0, j as int), b)->Some_0,
                            prefix_all(h, lc),
                            entries_listing(es0.subrange(j + 1, es0.len() as int), b)->Some_0,
                            name@,
                            arbitrary(),
                        );
                    }
                }
                let es = match &mut self.entries {
                    Some(es) => es,
                    None => {
                        return Err(TreeError::CorruptTree);
                    },
                };
                let r = match &mut es[j].1 {
                    NodeEntry::Directory(c) => c.remove(store, tail, true),
                    NodeEntry::File(_) => Err(TreeError::CorruptTree),
                };
                let ghost es1 = es@;
                match r {
                    Ok((removed, child_empty)) => {
                        if child_empty {
                            es.remove(j);
                            self.id = None;
                            proof {
                                assert(es1.remove(j as int) =~= es0.remove(j as int));
                                lemma_remove_entry(n0, *self, j as int, b, nonroot);
                                let c1 = es1[j as int].1->Directory_0;
                                assert(entries_listing(c1.entries->Some_0@, b) == Some(
                                    Seq::<(Seq<u8>, T)>::empty(),
                                ));
                                if l is Some {
                                    let z = entries_listing(es0.subrange(j + 1, es0.len() as int), b)->Some_0;
                                    assert(prefix_all(h, Seq::<(Seq<u8>, T)>::empty()) =~= Seq::empty());
                                    assert(Seq::<(Seq<u8>, T)>::empty() + z =~= z);
                                }
                            }
                        } else {
                            if removed {
                                self.id = None;
                            }
                            proof {
                                lemma_replace_entry(n0, *self, j as int, b, nonroot);
                            }
                        }
                        let now_empty = match &self.entries {
                            Some(es) => es.len() == 0,
                            None => false,
                        };
                        Ok((removed, now_empty))
                    },
                    Err(e) => {
                        proof {
                            lemma_replace_entry(n0, *self, j as int, b, nonroot);
                            lemma_entries_listing_split(es0, j as int, b);
                        }
                        Err(e)
                    },
                }
            },
            PathRecurse::File(j) => {
                proof {
                    lemma_locate_found(es0, b, nonroot, j as int, h, hdir, t);
                    if l is Some {
                        let c = seq![(h, es0[j as int].1->File_0)];
                        let z = entries_listing(es0.subrange(j + 1, es0.len() as int), b)->Some_0;
                        lemma_around(
                            entries_listing(es0.subrange(0, j as int), b)->Some_0,
                            c,
                            z,
                            name@,
                            arbitrary(),
                        );
                        assert(c.drop_first() =~= Seq::<(Seq<u8>, T)>::empty());
                        assert(Seq::<(Seq<u8>, T)>::empty() + z =~= z);
                    }
                }
                let es = match &mut self.entries {
                    Some(es) => es,
                    None => {
                        return Err(TreeError::CorruptTree);
                    },
                };
                es.remove(j);
                let now_empty = es.len() == 0;
                self.id = None;
                proof {
                    lemma_remove_entry(n0, *self, j as int, b, nonroot);
                }
                Ok((true, now_empty))
            },
            PathRecurse::ExactDirectory(j) => {
                proof {
                    lemma_lookup_found(es0, b, nonroot, j as int, h, hdir, t);
                    let c = es0[j as int].1->Directory_0;
                    assert(child_wf(es0[j as int].1, b));
                    lemma_nonroot_keys(c, b);
                    if l is Some {
                        let lc = listing(c, b, true)->Some_0;
                        lemma_lookup_prefix(h, lc, t);
                        crate::model::lemma_lookup_some(lc, t);
                        lemma_remove_absent(l->Some_0, name@);
                    }
                }
                let now_empty = match &self.entries {
                    Some(es) => es.len() == 0,
                    None => false,
                };
                Ok((false, now_empty))
            },
            PathRecurse::ConflictingFile(j) => {
                proof {
                    lemma_lookup_found(es0, b, nonroot, j as int, h, hdir, t);
                    assert((h + t).len() != h.len());
                    let s1 = seq![(h, es0[j as int].1->File_0)];
                    assert(s1[0].0 != name@);
                    assert(s1.drop_first() =~= Seq::empty());
                    assert(lookup(s1, name@) == lookup(s1.drop_first(), name@));
                    if l is Some {
                        lemma_remove_absent(l->Some_0, name@);
                    }
                }
                let now_empty = match &self.entries {
                    Some(es) => es.len() == 0,
                    None => false,
                };
                Ok((false, now_empty))
            },
            PathRecurse::MissingDirectory(j) | PathRecurse::MissingFile(j) => {
                proof {
                    lemma_lookup_missing(es0, b, nonroot, j as int, h, hdir, t);
                    if l is Some {
                        lemma_remove_absent(l->Some_0, name@);
                    }
                }
                let now_empty = match &self.entries {
                    Some(es) => es.len() == 0,
                    None => false,
                };
                Ok((false, now_empty))
            },
        }
    }


    /// The first file at or after entry `start` of this loaded node.
    fn first_from<V: StoreView>(&mut self, store: &V, start: usize, nonroot: bool) -> (r: Result<
        Option<(Vec<u8>, T)>,
        TreeError,
    >)
        requires
            wf(*old(self), store.blocks(), nonroot),
            old(self).entries is Some,
            start <= old(self).entries->Some_0@.len(),
        ensures
            wf(*final(self), store.blocks(), nonroot),
            listing(*final(self), store.blocks(), nonroot) == listing(*old(self), store.blocks(), nonroot),
            final(self).id == old(self).id,
            final(self).entries is Some,
            final(self).entries->Some_0@.len() == old(self).entries->Some_0@.len(),
            listing(*old(self), store.blocks(), nonroot) is Some ==> match r {
                Ok(x) => pair_view(x) == first_of(
                    entries_listing(
                        old(self).entries->Some_0@.subrange(
                            start as int,
                            old(self).entries->Some_0@.len() as int,
                        ),
                        store.blocks(),
                    )->Some_0,
                ),
                Err(e) => e == TreeError::StoreIo && !store.reliable(),
            },
        decreases depth(*old(self)), 0nat,
    {
        let ghost b = store.blocks();
        let ghost n0 = *self;
        let ghost es0 = self.entries->Some_0@;
        let ghost l = entries_listing(es0, b);
        let n = match &self.entries {
            Some(es) => es.len(),
            None => 0,
        };
        proof {
            lemma_entries_depth(es0, 0);
            if l is Some {
                assert(es0.subrange(start as int, start as int) =~= Seq::<(Vec<u8>, NodeEntry<T>)>::empty());
                if start < es0.len() {
                    lemma_range_split(es0, start as int, start as int, b);
                }
                let full = es0.subrange(0, es0.len() as int);
                assert(full =~= es0);
                if start > 0 {
                    lemma_range_split(es0, 0, start as int - 1, b);
                }
            }
        }
        let mut i: usize = start;
        while i < n
            invariant
                wf(*self, b, nonroot),
                self.entries is Some,
                self.entries->Some_0@.len() == n,
                n == es0.len(),
                start <= i <= n,
                self.id == n0.id,
                entries_listing(self.entries->Some_0@, b) == l,
                forall|k: int| i <= k < n ==> self.entries->Some_0@[k] == es0[k],
                l is Some ==> entries_listing(es0.subrange(start as int, n as int), b) is Some,
                l is Some ==> entries_listing(es0.subrange(start as int, i as int), b) == Some(
                    Seq::<(Seq<u8>, T)>::empty(),
                ),
                wf(n0, b, nonroot),
                n0.entries is Some && n0.entries->Some_0@ == es0,
                n0 == *old(self),
                l == entries_listing(es0, b),
                b == store.blocks(),
                depth(n0) == 1 + entries_depth(es0),
                forall|k: int|
                    0 <= k < es0.len() && (#[trigger] es0[k]).1 is Directory ==> depth(
                        es0[k].1->Directory_0,
                    ) <= entries_depth(es0),
            decreases n - i,
        {
            let ghost before = *self;
            proof {
                lemma_range_split(es0, start as int, i as int, b);
            }
            let mut key = match &self.entries {
                Some(es) => {
                    let key = slice_to_vec(es[i].0.as_slice());
                    if let NodeEntry::File(v) = &es[i].1 {
                        let v2 = v.duplicate();
                        proof {
                            if l is Some {
                                assert(Seq::<(Seq<u8>, T)>::empty() + (seq![(key@, v2)]
                                    + entries_listing(es0.subrange(i + 1, n as int), b)->Some_0)
                                    =~= seq![(key@, v2)] + entries_listing(
                                    es0.subrange(i + 1, n as int),
                                    b,
                                )->Some_0);
                            }
                        }
                        assert(wf(*self, b, nonroot));
                        assert(listing(*self, b, nonroot) == l);
                        assert(listing(n0, b, nonroot) == l);
                        return Ok(Some((key, v2)));
                    }
                    key
                },
                None => {
                    return Err(TreeError::CorruptTree);
                },
            };
            let es = match &mut self.entries {
                Some(es) => es,
                None => {
                    return Err(TreeError::CorruptTree);
                },
            };
            let found = match &mut es[i].1 {
                NodeEntry::File(_) => Ok(None),
                NodeEntry::Directory(c) => {
                    proof {
                        assert(child_wf(es0[i as int].1, b));
                    }
                    c.get_first(store, true)
                },
            };
            proof {
                lemma_replace_entry(before, *self, i as int, b, nonroot);
                lemma_entries_listing_split(before.entries->Some_0@, i as int, b);
            }
            match found {
                Err(e) => {
                    return Err(e);
                },
                Ok(Some((mut sub, v))) => {
                    let ghost k0 = key@;
                    let ghost s0 = sub@;
                    key.append(&mut sub);
                    proof {
                        if l is Some {
                            let lc = listing(es0[i as int].1->Directory_0, b, true)->Some_0;
                            let p = prefix_all(k0, lc);
                            let z = entries_listing(es0.subrange(i + 1, n as int), b)->Some_0;
                            assert(p[0] == (k0 + lc[0].0, lc[0].1));
                            assert((Seq::<(Seq<u8>, T)>::empty() + (p + z))[0] == p[0]);
                        }
                    }
                    return Ok(Some((key, v)));
                },
                Ok(None) => {
                    proof {
                        if l is Some {
                            let lc = listing(es0[i as int].1->Directory_0, b, true)->Some_0;
                            assert(prefix_all(es0[i as int].0@, lc) =~= Seq::<(Seq<u8>, T)>::empty());
                            assert(Seq::<(Seq<u8>, T)>::empty() + (Seq::<(Seq<u8>, T)>::empty() + Seq::<
                                (Seq<u8>, T),
                            >::empty()) =~= Seq::<(Seq<u8>, T)>::empty());
                        }
                    }
                },
            }
            i = i + 1;
        }
        proof {
            assert(es0.subrange(start as int, i as int) == es0.subrange(start as int, n as int));
        }
        Ok(None)
    }

    /// The first file below this node, in key order.
    pub(crate) fn get_first<V: StoreView>(&mut self, store: &V, nonroot: bool) -> (r: Result<
        Option<(Vec<u8>, T)>,
        TreeError,
    >)
        requires
            wf(*old(self), store.blocks(), nonroot),
        ensures
            unreadable(*old(self), store.blocks(), nonroot) ==> r is Err,
            wf(*final(self), store.blocks(), nonroot),
            listing(*final(self), store.blocks(), nonroot) == listing(*old(self), store.blocks(), nonroot),
            final(self).id == old(self).id,
            nonroot && !is_empty_node(*old(self)) ==> !is_empty_node(*final(self)),
            listing(*old(self), store.blocks(), nonroot) is Some ==> match r {
                Ok(x) => pair_view(x) == first_of(listing(*old(self), store.blocks(), nonroot)->Some_0),
                Err(e) => e == TreeError::StoreIo && !store.reliable(),
            },
        decreases depth(*old(self)), 1nat,
    {
        match self.load(store, nonroot) {
            Ok(()) => {},
            Err(e) => {
                return Err(e);
            },
        }
        proof {
            let es = self.entries->Some_0@;
            assert(es.subrange(0, es.len() as int) =~= es);
        }
        self.first_from(store, 0, nonroot)
    }


    /// The first file below this node whose key sorts after `name`.
    #[verifier::spinoff_prover]
    pub(crate) fn get_next<V: StoreView>(&mut self, store: &V, name: &[u8], nonroot: bool) -> (r:
        Result<Option<(Vec<u8>, T)>, TreeError>)
        requires
            wf(*old(self), store.blocks(), nonroot),
        ensures
            unreadable(*old(self), store.blocks(), nonroot) ==> r is Err,
            wf(*final(self), store.blocks(), nonroot),
            listing(*final(self), store.blocks(), nonroot) == listing(*old(self), store.blocks(), nonroot),
            final(self).id == old(self).id,
            nonroot && !is_empty_node(*old(self)) ==> !is_empty_node(*final(self)),
            listing(*old(self), store.blocks(), nonroot) is Some ==> match r {
                Ok(x) => pair_view(x) == next_after(
                    listing(*old(self), store.blocks(), nonroot)->Some_0,
                    name@,
                ),
                Err(e) => e == TreeError::StoreIo && !store.reliable(),
            },
        decreases depth(*old(self)), 2nat,
    {
        let ghost b = store.blocks();
        match self.load(store, nonroot) {
            Ok(()) => {},
            Err(e) => {
                return Err(e);
            },
        }
        let ghost n0 = *self;
        let (elem, path) = split_key(name);
        let ghost h = elem@;
        let ghost hdir = path is Some;
        let ghost t = match path {
            Some(t) => t@,
            None => Seq::<u8>::empty(),
        };
        assert(name@ == h + t);
        assert(h + Seq::<u8>::empty() =~= h);
        let ghost es0 = self.entries->Some_0@;
        let ghost l = entries_listing(es0, b);
        proof {
            lemma_entries_depth(es0, 0);
        }
        let n: usize = match &self.entries {
            Some(es) => es.len(),
            None => 0,
        };
        let rec = match &self.entries {
            Some(es) => path_recurse(es, elem, path.is_some()),
            None => {
                return Err(TreeError::CorruptTree);
            },
        };
        match rec {
            PathRecurse::MissingDirectory(j) | PathRecurse::MissingFile(j) => {
                proof {
                    lemma_next_missing(es0, b, nonroot, j as int, h, hdir, t);
                }
                self.first_from(store, j, nonroot)
            },
            PathRecurse::File(j) => {
                proof {
                    lemma_next_file(es0, b, nonroot, j as int, h, hdir, t);
                }
                self.first_from(store, j + 1, nonroot)
            },
            PathRecurse::ConflictingFile(j) => {
                proof {
                    lemma_next_file(es0, b, nonroot, j as int, h, hdir, t);
                }
                self.first_from(store, j + 1, nonroot)
            },
            PathRecurse::ExactDirectory(j) => {
                proof {
                    lemma_next_exact(es0, b, nonroot, j as int, h);
                }
                self.first_from(store, j, nonroot)
            },
            PathRecurse::Directory(j) => {
                let tail = match path {
                    Some(tail) => tail,
                    None => {
                        return Err(TreeError::CorruptTree);
                    },
                };
                proof {
                    lemma_next_dir(es0, b, nonroot, j as int, h, t);
                    assert(child_wf(es0[j as int].1, b));
                }
                let key = slice_to_vec(elem);
                let es = match &mut self.entries {
                    Some(es) => es,
                    None => {
                        return Err(TreeError::CorruptTree);
                    },
                };
                let r = match &mut es[j].1 {
                    NodeEntry::Directory(c) => c.get_next(store, tail, true),
                    NodeEntry::File(_) => Err(TreeError::CorruptTree),
                };
                proof {
                    lemma_replace_entry(n0, *self, j as int, b, nonroot);
                    lemma_entries_listing_split(es0, j as int, b);
                    assert(self.entries->Some_0@.subrange(j + 1, es0.len() as int) =~= es0.subrange(
                        j + 1,
                        es0.len() as int,
                    ));
                }
                match r {
                    Err(e) => Err(e),
                    Ok(Some((mut sub, v))) => {
                        let mut key = key;
                        key.append(&mut sub);
                        Ok(Some((key, v)))
                    },
                    Ok(None) => self.first_from(store, j + 1, nonroot),
                }
            },
        }
    }


    /// Writes this node's entries to the store as one block and takes its id.
    /// Every subdirectory must have an id already.
    fn write_entries<S: Store>(&mut self, store: &mut S) -> (r: Result<(), TreeError>)
        requires
            old(self).entries is Some,
            forall|i: int|
                0 <= i < old(self).entries->Some_0@.len() && (#[trigger] old(
                    self,
                ).entries->Some_0@[i]).1 is Directory ==> old(self).entries->Some_0@[i].1->Directory_0.id is Some,
        ensures
            final(self).entries == old(self).entries,
            match r {
                Ok(()) => {
                    let id = final(self).id->Some_0.0;
                    &&& final(self).id is Some
                    &&& encodable(raw_of(old(self).entries->Some_0@))
                    &&& forall|k: u64| #[trigger] old(store).blocks().contains_key(k) ==> k < id
                    &&& final(store).blocks() == old(store).blocks().insert(
                        id,
                        encode_block(raw_of(old(self).entries->Some_0@)),
                    )
                },
                Err(e) => {
                    &&& final(self).id == old(self).id
                    &&& final(store).blocks() == old(store).blocks()
                    &&& e == TreeError::StoreIo || e == TreeError::CorruptTree
                    &&& (e == TreeError::CorruptTree <==> !encodable(
                        raw_of(old(self).entries->Some_0@),
                    ))
                },
            },
    {
        let ghost es0 = self.entries->Some_0@;
        let ghost raw = raw_of(es0);
        let es = match &self.entries {
            Some(es) => es,
            None => {
                return Err(TreeError::CorruptTree);
            },
        };
        if es.len() as u64 > MAX_LEN {
            return Err(TreeError::CorruptTree);
        }
        let mut data: Vec<u8> = Vec::new();
        push_be_u32(&mut data, es.len() as u32);
        let mut i: usize = 0;
        assert(raw.subrange(0, 0) =~= Seq::<(Seq<u8>, RawEntry<T>)>::empty());
        while i < es.len()
            invariant
                es@ == es0,
                raw == raw_of(es0),
                es0.len() <= MAX_LEN,
                es0 == old(self).entries->Some_0@,
                store.blocks() == old(store).blocks(),
                self.id == old(self).id,
                i <= es0.len(),
                forall|k: int| 0 <= k < i ==> (#[trigger] raw[k]).0.len() <= MAX_LEN,
                forall|k: int|
                    0 <= k < es0.len() && (#[trigger] es0[k]).1 is Directory ==> es0[k].1->Directory_0.id is Some,
                data@ == be32_bytes(es0.len() as u32) + encode_entries(raw.subrange(0, i as int)),
            decreases es0.len() - i,
        {
            let name = es[i].0.as_slice();
            assert(raw[i as int] == (es0[i as int].0@, raw_entry(es0[i as int].1)));
            if name.len() as u64 > MAX_LEN {
                assert(raw[i as int].0.len() > MAX_LEN);
                assert(!encodable(raw));
                return Err(TreeError::CorruptTree);
            }
            let ghost before = data@;
            match &es[i].1 {
                NodeEntry::File(v) => push_file_entry(&mut data, name, v),
                NodeEntry::Directory(c) => {
                    let id = match c.id {
                        Some(id) => id.0,
                        None => 0,
                    };
                    push_dir_entry::<T>(&mut data, name, id);
                },
            }
            proof {
                lemma_encode_entries_push(raw.subrange(0, i as int), raw[i as int]);
                assert(raw.subrange(0, i as int).push(raw[i as int]) =~= raw.subrange(0, i + 1));
                assert(data@ =~= be32_bytes(es0.len() as u32) + encode_entries(
                    raw.subrange(0, i + 1),
                ));
            }
            i = i + 1;
        }
        proof {
            assert(raw.subrange(0, i as int) =~= raw);
            assert(encodable(raw));
        }
        let id = match store.append(data.as_slice()) {
            Ok(id) => id,
            Err(e) => {
                return Err(e);
            },
        };
        self.id = Some(id);
        Ok(())
    }

    /// Writes, children first, every subdirectory that changed since it was last
    /// stored; the node itself is left to be written.
    fn write_children<S: Store>(&mut self, store: &mut S, nonroot: bool) -> (r: Result<(), TreeError>)
        requires
            wf(*old(self), old(store).blocks(), nonroot),
            listing(*old(self), old(store).blocks(), nonroot) is Some,
            nonroot ==> !is_empty_node(*old(self)),
            old(self).id is None,
        ensures
            extends(old(store).blocks(), final(store).blocks()),
            r is Err ==> {
                &&& wf(*final(self), final(store).blocks(), nonroot)
                &&& listing(*final(self), final(store).blocks(), nonroot) == listing(
                    *old(self),
                    old(store).blocks(),
                    nonroot,
                )
                &&& final(self).id == old(self).id
                &&& nonroot ==> !is_empty_node(*final(self))
                &&& r->Err_0 == TreeError::StoreIo || r->Err_0 == TreeError::CorruptTree
                &&& r->Err_0 == TreeError::CorruptTree ==> !dirty_encodable(*old(self))
            },
            r is Ok ==> {
                let es0 = old(self).entries->Some_0@;
                let es = final(self).entries->Some_0@;
                let fb = final(store).blocks();
                &&& final(self).id is None
                &&& final(self).entries is Some
                &&& es.len() == es0.len()
                &&& forall|k: int|
                    0 <= k < es.len() ==> (#[trigger] es[k]).0@ == es0[k].0@ && (es[k].1 is Directory
                        <==> es0[k].1 is Directory)
                &&& forall|k: int|
                    0 <= k < es.len() ==> child_wf(#[trigger] es[k].1, fb) && entry_listing(
                        es0[k].0@,
                        es[k].1,
                        fb,
                    ) == entry_listing(es0[k].0@, es0[k].1, old(store).blocks())
                &&& forall|k: int|
                    0 <= k < es.len() && (#[trigger] es[k]).1 is Directory ==> {
                        let c = es[k].1->Directory_0;
                        c.id is Some && fb.contains_key(c.id->Some_0.0)
                    }
                &&& forall|k: int| 0 <= k < es.len() ==> #[trigger] kept_entry(es0[k].1, es[k].1)
                &&& forall|k: int|
                    0 <= k < es.len() ==> match #[trigger] es0[k].1 {
                        NodeEntry::Directory(c) => dirty_encodable(c),
                        NodeEntry::File(_) => true,
                    }
                &&& forall|key: u64|
                    #[trigger] fb.contains_key(key) && !old(store).blocks().contains_key(key)
                        ==> exists|j: int|
                        0 <= j < es.len() && #[trigger] written_entry(es0[j].1, es[j].1, key)
            },
        decreases *old(self), 0nat,
    {
        let ghost b0 = store.blocks();
        let ghost n0 = *self;
        let ghost es0 = self.entries->Some_0@;
        let ghost l = entries_listing(es0, b0);
        proof {
            lemma_entries_some(es0, b0);
        }
        let n: usize = match &self.entries {
            Some(es) => es.len(),
            None => {
                return Err(TreeError::CorruptTree);
            },
        };
        let mut i: usize = 0;
        while i < n
            invariant
                n == es0.len(),
                i <= n,
                n0 == *old(self),
                n0.entries is Some && n0.entries->Some_0@ == es0,
                l == entries_listing(es0, b0),
                l is Some,
                b0 == old(store).blocks(),
                wf(n0, b0, nonroot),
                self.id is None,
                self.entries is Some,
                self.entries->Some_0@.len() == n,
                extends(b0, store.blocks()),
                forall|k: int| i <= k < n ==> self.entries->Some_0@[k] == es0[k],
                forall|k: int|
                    0 <= k < n ==> (#[trigger] self.entries->Some_0@[k]).0@ == es0[k].0@ && (
                    self.entries->Some_0@[k].1 is Directory <==> es0[k].1 is Directory),
                forall|k: int|
                    0 <= k < n ==> child_wf(#[trigger] self.entries->Some_0@[k].1, store.blocks())
                        && entry_listing(es0[k].0@, self.entries->Some_0@[k].1, store.blocks())
                        == entry_listing(es0[k].0@, es0[k].1, b0),
                forall|k: int|
                    0 <= k < i && (#[trigger] self.entries->Some_0@[k]).1 is Directory ==> {
                        let c = self.entries->Some_0@[k].1->Directory_0;
                        c.id is Some && store.blocks().contains_key(c.id->Some_0.0)
                    },
                forall|k: int| 0 <= k < n ==> (#[trigger] entry_listing(es0[k].0@, es0[k].1, b0)) is Some,
                forall|k: int| 0 <= k < i ==> #[trigger] kept_entry(es0[k].1, self.entries->Some_0@[k].1),
                forall|k: int|
                    0 <= k < i ==> match #[trigger] es0[k].1 {
                        NodeEntry::Directory(c) => dirty_encodable(c),
                        NodeEntry::File(_) => true,
                    },
                forall|k: u64|
                    #[trigger] store.blocks().contains_key(k) && !b0.contains_key(k) ==> exists|j: int|
                        0 <= j < i && #[trigger] written_entry(es0[j].1, self.entries->Some_0@[j].1, k),
            decreases n - i,
        {
            let ghost b1 = store.blocks();
            let ghost before = *self;
            let es = match &mut self.entries {
                Some(es) => es,
                None => {
                    return Err(TreeError::CorruptTree);
                },
            };
            let r = match &mut es[i].1 {
                NodeEntry::Directory(c) => {
                    proof {
                        assert(child_wf(before.entries->Some_0@[i as int].1, b1));
                        assert(entry_listing(es0[i as int].0@, es0[i as int].1, b0) is Some);
                    }
                    c.write_delta(store, true)
                },
                NodeEntry::File(_) => Ok(()),
            };
            let ghost b2 = store.blocks();
            proof {
                let es1 = self.entries->Some_0@;
                assert forall|k: int| 0 <= k < n implies child_wf(#[trigger] es1[k].1, b2)
                    && entry_listing(es0[k].0@, es1[k].1, b2) == entry_listing(es0[k].0@, es0[k].1, b0) by {
                    if k != i {
                        assert(es1[k] == before.entries->Some_0@[k]);
                        assert(child_wf(es1[k].1, b1));
                        if es1[k].1 is Directory {
                            lemma_node_mono(es1[k].1->Directory_0, b1, b2, true);
                        }
                    }
                }
            }
            match r {
                Ok(()) => {
                    proof {
                        let es1 = self.entries->Some_0@;
                        assert forall|k: int|
                            0 <= k <= i && (#[trigger] es1[k]).1 is Directory implies {
                                let c = es1[k].1->Directory_0;
                                c.id is Some && b2.contains_key(c.id->Some_0.0)
                            } by {
                            if k < i {
                                assert(es1[k] == before.entries->Some_0@[k]);
                            }
                        }
                        assert forall|k: int| 0 <= k <= i implies #[trigger] kept_entry(es0[k].1, es1[k].1) by {
                            if k < i {
                                assert(es1[k] == before.entries->Some_0@[k]);
                            } else {
                                assert(es0[k] == before.entries->Some_0@[k]);
                            }
                        }
                        assert forall|k: u64|
                            #[trigger] b2.contains_key(k) && !b0.contains_key(k) implies exists|j: int|
                                0 <= j <= i && #[trigger] written_entry(es0[j].1, es1[j].1, k) by {
                            if b1.contains_key(k) {
                                let j = choose|j: int|
                                    0 <= j < i && #[trigger] written_entry(
                                        es0[j].1,
                                        before.entries->Some_0@[j].1,
                                        k,
                                    );
                                assert(es1[j] == before.entries->Some_0@[j]);
                            } else {
                                assert(es0[i as int] == before.entries->Some_0@[i as int]);
                                assert(b2 != b1);
                                let co = es0[i as int].1->Directory_0;
                                let cf = es1[i as int].1->Directory_0;
                                assert(es0[i as int].1 is Directory);
                                assert(written(co, cf, k));
                                assert(written_entry(es0[i as int].1, es1[i as int].1, k));
                            }
                        }
                    }
                },
                Err(e) => {
                    proof {
                        let es1 = self.entries->Some_0@;
                        assert(es0[i as int] == before.entries->Some_0@[i as int]);
                        crate::listing::lemma_entries_same2(es0, es1, b0, b2);
                        assert(wf(*self, b2, nonroot)) by {
                            assert(entries_ok(es1, nonroot)) by {
                                assert forall|a: int, c: int| 0 <= a < c < es1.len() implies lex_lt(
                                    #[trigger] es1[a].0@,
                                    #[trigger] es1[c].0@,
                                ) by {
                                    assert(lex_lt(es0[a].0@, es0[c].0@));
                                }
                                assert forall|a: int| 0 <= a < es1.len() implies valid_name(
                                    (#[trigger] es1[a]).0@,
                                    es1[a].1 is Directory,
                                    nonroot,
                                ) by {
                                    assert(valid_name(es0[a].0@, es0[a].1 is Directory, nonroot));
                                }
                            }
                        }
                        if nonroot {
                            assert(es0.len() > 0);
                        }
                    }
                    return Err(e);
                },
            }
            i = i + 1;
        }
        Ok(())
    }

    /// Writes the nodes that changed since they were last stored, children first.
    /// A node that still has its id is in the store already.
    #[verifier::spinoff_prover]
    #[verifier::rlimit(100)]
    pub(crate) fn write_delta<S: Store>(&mut self, store: &mut S, nonroot: bool) -> (r: Result<
        (),
        TreeError,
    >)
        requires
            wf(*old(self), old(store).blocks(), nonroot),
            listing(*old(self), old(store).blocks(), nonroot) is Some,
            nonroot ==> !is_empty_node(*old(self)),
        ensures
            extends(old(store).blocks(), final(store).blocks()),
            wf(*final(self), final(store).blocks(), nonroot),
            listing(*final(self), final(store).blocks(), nonroot) == listing(
                *old(self),
                old(store).blocks(),
                nonroot,
            ),
            nonroot ==> !is_empty_node(*final(self)),
            old(self).id is Some ==> *final(self) == *old(self) && r is Ok,
            r is Ok ==> final(self).id is Some && final(store).blocks().contains_key(
                final(self).id->Some_0.0,
            ),
            r is Err ==> r->Err_0 == TreeError::StoreIo || r->Err_0 == TreeError::CorruptTree,
            old(self).id is Some ==> final(store).blocks() == old(store).blocks(),
            r == Err::<(), TreeError>(TreeError::CorruptTree) ==> !dirty_encodable(*old(self)),
            !dirty_encodable(*old(self)) ==> r is Err,
            r is Ok ==> kept_clean(*old(self), *final(self)),
            r is Ok ==> forall|k: u64|
                final(store).blocks().contains_key(k) && !old(store).blocks().contains_key(k)
                    ==> #[trigger] written(*old(self), *final(self), k),
        decreases *old(self), 1nat,
    {
        let ghost b0 = store.blocks();
        let ghost n0 = *self;
        if self.id.is_some() {
            proof {
                lemma_clean_listing(n0, b0, nonroot);
            }
            return Ok(());
        }
        let ghost es0 = self.entries->Some_0@;
        match self.write_children(store, nonroot) {
            Ok(()) => {},
            Err(e) => {
                return Err(e);
            },
        }
        let n: usize = match &self.entries {
            Some(es) => es.len(),
            None => 0,
        };
        let ghost b3 = store.blocks();
        let ghost es3 = self.entries->Some_0@;
        proof {
            lemma_entries_some(es0, b0);
        }
        let r = self.write_entries(store);
        let ghost b4 = store.blocks();
        proof {
            assert(entries_ok(es3, nonroot)) by {
                assert forall|a: int, c: int| 0 <= a < c < es3.len() implies lex_lt(
                    #[trigger] es3[a].0@,
                    #[trigger] es3[c].0@,
                ) by {
                    assert(lex_lt(es0[a].0@, es0[c].0@));
                }
                assert forall|a: int| 0 <= a < es3.len() implies valid_name(
                    (#[trigger] es3[a]).0@,
                    es3[a].1 is Directory,
                    nonroot,
                ) by {
                    assert(valid_name(es0[a].0@, es0[a].1 is Directory, nonroot));
                }
            }
            if nonroot {
                assert(es0.len() > 0);
            }
            assert(extends(b3, b4));
            assert forall|k: int| 0 <= k < n implies child_wf(#[trigger] es3[k].1, b4)
                && entry_listing(es0[k].0@, es3[k].1, b4) == entry_listing(es0[k].0@, es0[k].1, b0) by {
                assert(child_wf(es3[k].1, b3));
                if es3[k].1 is Directory {
                    lemma_node_mono(es3[k].1->Directory_0, b3, b4, true);
                }
            }
            crate::listing::lemma_entries_same2(es0, es3, b0, b4);
            if r is Ok {
                let id = self.id->Some_0.0;
                let raw = raw_of(es3);
                lemma_parse_block_encoded(raw);
                assert(valid_raw(raw, id, nonroot)) by {
                    assert forall|a: int| 0 <= a < raw.len() implies raw[a] == (
                        #[trigger] es3[a].0@,
                        raw_entry(es3[a].1),
                    ) by {}
                    assert forall|a: int, c: int| 0 <= a < c < raw.len() implies lex_lt(
                        #[trigger] raw[a].0,
                        #[trigger] raw[c].0,
                    ) by {
                        assert(raw[a].0 == es3[a].0@ && raw[c].0 == es3[c].0@);
                    }
                    assert forall|a: int| 0 <= a < raw.len() implies valid_name(
                        (#[trigger] raw[a]).0,
                        raw[a].1 is Directory,
                        nonroot,
                    ) && (raw[a].1 is Directory ==> raw[a].1->Directory_0 < id) by {
                        assert(raw[a] == (es3[a].0@, raw_entry(es3[a].1)));
                        if es3[a].1 is Directory {
                            assert(b3.contains_key(es3[a].1->Directory_0.id->Some_0.0));
                        }
                    }
                }
                assert(mirrors(es3, b4, id, nonroot));
                lemma_delta_written(n0, *self, b0, b3, b4);
            }
            lemma_encodable_names(es0, es3);
        }
        r
    }


    /// Loads every node below this one.
    fn load_all<V: StoreView>(&mut self, store: &V, nonroot: bool) -> (r: Result<(), TreeError>)
        requires
            wf(*old(self), store.blocks(), nonroot),
        ensures
            wf(*final(self), store.blocks(), nonroot),
            listing(*final(self), store.blocks(), nonroot) == listing(*old(self), store.blocks(), nonroot),
            final(self).id == old(self).id,
            nonroot && !is_empty_node(*old(self)) ==> !is_empty_node(*final(self)),
            r is Ok ==> loaded_all(*final(self)),
            mem_encodable(*final(self)) == mem_encodable(*old(self)),
            r is Err ==> (listing(*old(self), store.blocks(), nonroot) is Some ==> r->Err_0
                == TreeError::StoreIo && !store.reliable()),
        decreases depth(*old(self)),
    {
        let ghost b = store.blocks();
        match self.load(store, nonroot) {
            Ok(()) => {},
            Err(e) => {
                return Err(e);
            },
        }
        let ghost n0 = *self;
        let ghost es0 = self.entries->Some_0@;
        let ghost l = entries_listing(es0, b);
        proof {
            lemma_entries_depth(es0, 0);
        }
        let n: usize = match &self.entries {
            Some(es) => es.len(),
            None => 0,
        };
        let mut i: usize = 0;
        while i < n
            invariant
                wf(*self, b, nonroot),
                b == store.blocks(),
                self.entries is Some,
                self.entries->Some_0@.len() == n,
                n == es0.len(),
                i <= n,
                self.id == n0.id,
                n0.id == old(self).id,
                n0.entries is Some && n0.entries->Some_0@ == es0,
                depth(n0) <= depth(*old(self)),
                mem_encodable(*self) == mem_encodable(*old(self)),
                l == entries_listing(es0, b),
                listing(n0, b, nonroot) == listing(*old(self), b, nonroot),
                entries_listing(self.entries->Some_0@, b) == l,
                forall|k: int| i <= k < n ==> self.entries->Some_0@[k] == es0[k],
                forall|k: int|
                    0 <= k < i ==> match #[trigger] self.entries->Some_0@[k].1 {
                        NodeEntry::Directory(c) => loaded_all(c),
                        NodeEntry::File(_) => true,
                    },
                depth(n0) == 1 + entries_depth(es0),
                forall|k: int|
                    0 <= k < es0.len() && (#[trigger] es0[k]).1 is Directory ==> depth(
                        es0[k].1->Directory_0,
                    ) <= entries_depth(es0),
            decreases n - i,
        {
            let ghost before = *self;
            let es = match &mut self.entries {
                Some(es) => es,
                None => {
                    return Err(TreeError::CorruptTree);
                },
            };
            let r = match &mut es[i].1 {
                NodeEntry::Directory(c) => {
                    proof {
                        assert(child_wf(es0[i as int].1, b));
                    }
                    c.load_all(store, true)
                },
                NodeEntry::File(_) => Ok(()),
            };
            proof {
                lemma_replace_entry(before, *self, i as int, b, nonroot);
                lemma_mem_enc_replace(before, *self, i as int);
                lemma_entries_listing_split(before.entries->Some_0@, i as int, b);
                lemma_entries_listing_split(es0, i as int, b);
                let es1 = self.entries->Some_0@;
                assert forall|k: int| 0 <= k < i implies es1[k] == before.entries->Some_0@[k] by {}
            }
            match r {
                Ok(()) => {},
                Err(e) => {
                    proof {
                        if l is Some {
                            lemma_entries_some(es0, b);
                            assert(entry_listing(es0[i as int].0@, es0[i as int].1, b) is Some);
                        }
                    }
                    return Err(e);
                },
            }
            i = i + 1;
        }
        Ok(())
    }

    /// Forgets the id of every node below this loaded one.
    fn mark_dirty(&mut self, Ghost(b): Ghost<Map<u64, Seq<u8>>>, nonroot: bool)
        requires
            wf(*old(self), b, nonroot),
            loaded_all(*old(self)),
        ensures
            wf(*final(self), b, nonroot),
            dirty_all(*final(self)),
            listing(*final(self), b, nonroot) == listing(*old(self), b, nonroot),
            is_empty_node(*final(self)) == is_empty_node(*old(self)),
            mem_encodable(*final(self)) == mem_encodable(*old(self)),
        decreases *old(self),
    {
        let ghost n0 = *self;
        let ghost es0 = self.entries->Some_0@;
        self.id = None;
        let ghost n1 = *self;
        proof {
            assert(self.entries->Some_0@ =~= es0.update(0, es0[0]) || es0.len() == 0);
            assert(wf(n1, b, nonroot));
            assert(mem_encodable(n1) == mem_encodable(n0));
        }
        let n: usize = match &self.entries {
            Some(es) => es.len(),
            None => 0,
        };
        let mut i: usize = 0;
        while i < n
            invariant
                wf(*self, b, nonroot),
                self.id is None,
                self.entries is Some,
                self.entries->Some_0@.len() == n,
                n == es0.len(),
                i <= n,
                n0 == *old(self),
                mem_encodable(*self) == mem_encodable(*old(self)),
                n0.entries is Some && n0.entries->Some_0@ == es0,
                entries_listing(self.entries->Some_0@, b) == entries_listing(es0, b),
                forall|k: int| i <= k < n ==> self.entries->Some_0@[k] == es0[k],
                forall|k: int|
                    0 <= k < n ==> match #[trigger] es0[k].1 {
                        NodeEntry::Directory(c) => loaded_all(c),
                        NodeEntry::File(_) => true,
                    },
                forall|k: int|
                    0 <= k < i ==> match #[trigger] self.entries->Some_0@[k].1 {
                        NodeEntry::Directory(c) => dirty_all(c),
                        NodeEntry::File(_) => true,
                    },
            decreases n - i,
        {
            let ghost before = *self;
            let es = match &mut self.entries {
                Some(es) => es,
                None => {
                    return;
                },
            };
            match &mut es[i].1 {
                NodeEntry::Directory(c) => {
                    proof {
                        assert(child_wf(es0[i as int].1, b));
                        assert(loaded_all(es0[i as int].1->Directory_0));
                    }
                    c.mark_dirty(Ghost(b), true);
                },
                NodeEntry::File(_) => {},
            }
            proof {
                lemma_replace_entry(before, *self, i as int, b, nonroot);
                lemma_mem_enc_replace(before, *self, i as int);
                lemma_entries_listing_split(before.entries->Some_0@, i as int, b);
                let es1 = self.entries->Some_0@;
                assert forall|k: int| 0 <= k < i implies es1[k] == before.entries->Some_0@[k] by {}
            }
            i = i + 1;
        }
    }

    /// Writes this node and every node below it to `store`, reading what is not
    /// loaded yet from `old_store`.
    pub(crate) fn write_full<S: Store, V: StoreView>(
        &mut self,
        store: &mut S,
        old_store: &V,
        nonroot: bool,
    ) -> (r: Result<(), TreeError>)
        requires
            wf(*old(self), old_store.blocks(), nonroot),
            nonroot ==> !is_empty_node(*old(self)),
        ensures
            extends(old(store).blocks(), final(store).blocks()),
            !mem_encodable(*old(self)) ==> r is Err,
            r == Err::<(), TreeError>(TreeError::CorruptTree) ==> !mem_encodable(*old(self)) || listing(
                *old(self),
                old_store.blocks(),
                nonroot,
            ) is None,
            r is Err && old_store.reliable() && listing(*old(self), old_store.blocks(), nonroot) is Some
                ==> r->Err_0 == TreeError::StoreIo || r->Err_0 == TreeError::CorruptTree && !mem_encodable(
                *old(self),
            ),
            match r {
                Ok(()) => {
                    &&& listing(*old(self), old_store.blocks(), nonroot) is Some
                    &&& wf(*final(self), final(store).blocks(), nonroot)
                    &&& listing(*final(self), final(store).blocks(), nonroot) == listing(
                        *old(self),
                        old_store.blocks(),
                        nonroot,
                    )
                    &&& final(self).id is Some
                    &&& stored_listing::<T>(final(store).blocks(), final(self).id->Some_0.0, nonroot)
                        == listing(*old(self), old_store.blocks(), nonroot)
                },
                Err(e) => {
                    ||| wf(*final(self), old_store.blocks(), nonroot) && listing(
                        *final(self),
                        old_store.blocks(),
                        nonroot,
                    ) == listing(*old(self), old_store.blocks(), nonroot)
                    ||| wf(*final(self), final(store).blocks(), nonroot) && listing(
                        *final(self),
                        final(store).blocks(),
                        nonroot,
                    ) == listing(*old(self), old_store.blocks(), nonroot)
                },
            },
    {
        let ghost ob = old_store.blocks();
        match self.load_all(old_store, nonroot) {
            Ok(()) => {},
            Err(e) => {
                return Err(e);
            },
        }
        proof {
            lemma_loaded_some(*self, ob, nonroot);
        }
        self.mark_dirty(Ghost(ob), nonroot);
        let ghost nb = store.blocks();
        proof {
            lemma_dirty_any(*self, ob, nb, nonroot);
            lemma_dirty_enc(*self);
        }
        let r = self.write_delta(store, nonroot);
        proof {
            if r is Ok {
                lemma_clean_listing(*self, store.blocks(), nonroot);
            }
        }
        r
    }

    /// Appends every file below this node to `out`, in key order, with `prefix`
    /// before each key.
    pub(crate) fn visit<V: StoreView>(
        &mut self,
        store: &V,
        prefix: &Vec<u8>,
        out: &mut Vec<(Vec<u8>, T)>,
        nonroot: bool,
    ) -> (r: Result<(), TreeError>)
        requires
            wf(*old(self), store.blocks(), nonroot),
        ensures
            unreadable(*old(self), store.blocks(), nonroot) ==> r is Err,
            wf(*final(self), store.blocks(), nonroot),
            listing(*final(self), store.blocks(), nonroot) == listing(*old(self), store.blocks(), nonroot),
            final(self).id == old(self).id,
            nonroot && !is_empty_node(*old(self)) ==> !is_empty_node(*final(self)),
            listing(*old(self), store.blocks(), nonroot) is Some ==> match r {
                Ok(()) => pairs_view(final(out)@) == pairs_view(old(out)@) + prefix_all(
                    prefix@,
                    listing(*old(self), store.blocks(), nonroot)->Some_0,
                ),
                Err(e) => e == TreeError::StoreIo && !store.reliable(),
            },
        decreases depth(*old(self)),
    {
        let ghost b = store.blocks();
        match self.load(store, nonroot) {
            Ok(()) => {},
            Err(e) => {
                return Err(e);
            },
        }
        let ghost n0 = *self;
        let ghost es0 = self.entries->Some_0@;
        let ghost l = entries_listing(es0, b);
        let ghost out0 = pairs_view(out@);
        proof {
            lemma_entries_depth(es0, 0);
            lemma_entries_some(es0, b);
            assert(es0.subrange(0, 0) =~= Seq::<(Vec<u8>, NodeEntry<T>)>::empty());
            assert(out0 + prefix_all(prefix@, Seq::<(Seq<u8>, T)>::empty()) =~= out0);
        }
        let n: usize = match &self.entries {
            Some(es) => es.len(),
            None => 0,
        };
        let mut i: usize = 0;
        while i < n
            invariant
                wf(*self, b, nonroot),
                b == store.blocks(),
                self.entries is Some,
                self.entries->Some_0@.len() == n,
                n == es0.len(),
                i <= n,
                self.id == n0.id,
                n0.id == old(self).id,
                n0.entries is Some && n0.entries->Some_0@ == es0,
                depth(n0) <= depth(*old(self)),
                l == entries_listing(es0, b),
                listing(n0, b, nonroot) == listing(*old(self), b, nonroot),
                entries_listing(self.entries->Some_0@, b) == l,
                forall|k: int| i <= k < n ==> self.entries->Some_0@[k] == es0[k],
                depth(n0) == 1 + entries_depth(es0),
                forall|k: int|
                    0 <= k < es0.len() && (#[trigger] es0[k]).1 is Directory ==> depth(
                        es0[k].1->Directory_0,
                    ) <= entries_depth(es0),
                out0 == pairs_view(old(out)@),
                l is Some ==> pairs_view(out@) == out0 + prefix_all(
                    prefix@,
                    entries_listing(es0.subrange(0, i as int), b)->Some_0,
                ),
                l is Some ==> forall|k: int|
                    0 <= k < n ==> (#[trigger] entry_listing(es0[k].0@, es0[k].1, b)) is Some,
            decreases n - i,
        {
            let ghost before = *self;
            let ghost outb = pairs_view(out@);
            proof {
                lemma_range_split(es0, 0, i as int, b);
                assert(es0.subrange(0, es0.len() as int) =~= es0);
            }
            let mut key = prefix.clone();
            proof {
                assert(key@ == prefix@) by {
                    assert(key@ =~= prefix@);
                }
            }
            let es = match &mut self.entries {
                Some(es) => es,
                None => {
                    return Err(TreeError::CorruptTree);
                },
            };
            let mut name = slice_to_vec(es[i].0.as_slice());
            let ghost nm = name@;
            key.append(&mut name);
            let r = match &mut es[i].1 {
                NodeEntry::File(v) => {
                    let v2 = v.duplicate();
                    out.push((key, v2));
                    proof {
                        if l is Some {
                            let c = seq![(nm, v2)];
                            assert(pairs_view(out@) =~= outb + seq![(prefix@ + nm, v2)]);
                            lemma_prefix_all_append(
                                prefix@,
                                entries_listing(es0.subrange(0, i as int), b)->Some_0,
                                c,
                            );
                            assert(prefix_all(prefix@, c) =~= seq![(prefix@ + nm, v2)]);
                            assert(nm == es0[i as int].0@);
                            assert(entries_listing(es0.subrange(0, i as int), b)->Some_0 + (c
                                + Seq::<(Seq<u8>, T)>::empty()) =~= entries_listing(
                                es0.subrange(0, i as int),
                                b,
                            )->Some_0 + c);
                        }
                    }
                    Ok(())
                },
                NodeEntry::Directory(c) => {
                    proof {
                        assert(child_wf(es0[i as int].1, b));
                    }
                    let r = c.visit(store, &key, out, true);
                    proof {
                        if l is Some && r is Ok {
                            let lc = listing(es0[i as int].1->Directory_0, b, true)->Some_0;
                            let a = entries_listing(es0.subrange(0, i as int), b)->Some_0;
                            lemma_prefix_all_twice(prefix@, nm, lc);
                            lemma_prefix_all_append(prefix@, a, prefix_all(nm, lc));
                            assert(a + (prefix_all(nm, lc) + Seq::<(Seq<u8>, T)>::empty()) =~= a
                                + prefix_all(nm, lc));
                            let pa = prefix_all(prefix@, a);
                            let pc = prefix_all(prefix@, prefix_all(nm, lc));
                            assert(outb == out0 + pa);
                            assert(pairs_view(out@) == outb + pc);
                            assert(out0 + pa + pc =~= out0 + (pa + pc));
                            assert(nm == es0[i as int].0@);
                            assert(entry_listing(nm, es0[i as int].1, b) == Some(prefix_all(nm, lc)));
                            assert(entries_listing(es0.subrange(0, i + 1), b)->Some_0 == a + (prefix_all(
                                nm,
                                lc,
                            ) + Seq::<(Seq<u8>, T)>::empty()));
                            assert(pairs_view(out@) == out0 + prefix_all(
                                prefix@,
                                entries_listing(es0.subrange(0, i + 1), b)->Some_0,
                            ));
                        }
                    }
                    r
                },
            };
            proof {
                lemma_replace_entry(before, *self, i as int, b, nonroot);
                lemma_entries_listing_split(before.entries->Some_0@, i as int, b);
            }
            match r {
                Ok(()) => {},
                Err(e) => {
                    return Err(e);
                },
            }
            i = i + 1;
        }
        proof {
            assert(es0.subrange(0, n as int) =~= es0);
        }
        Ok(())
    }

}

} // verus!
