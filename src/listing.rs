//! Facts about the listing of a directory's entries.

use crate::codec::{parse_block, RawEntry};
use crate::key::{lemma_component_order, valid_name};
use crate::model::{
    all_after,
    all_before,
    first_of,
    holds_dir,
    lemma_around,
    lemma_next_all_after,
    lemma_next_append,
    lemma_next_none_after,
    lemma_next_prefix,
    lemma_prefix_not_after,
    lookup,
    next_after,
    prefix_all,
    sorted,
};
use crate::node::{
    child_wf,
    entries_listing,
    entries_ok,
    entry_listing,
    is_empty_node,
    join,
    listing,
    raw_entry,
    raw_listing,
    raw_of,
    stored_listing,
    valid_raw,
    wf,
    Node,
    NodeEntry,
};
use crate::order::{lemma_lt_irreflexive, lemma_lt_proper_prefix, lex_lt};
use crate::storable::Storable;
use crate::store::extends;
use vstd::prelude::*;

verus! {

pub(crate) proof fn lemma_join_assoc<A>(x: Option<Seq<A>>, y: Option<Seq<A>>, z: Option<Seq<A>>)
    ensures
        join(join(x, y), z) == join(x, join(y, z)),
{
    if x is Some && y is Some && z is Some {
        assert(x->Some_0 + y->Some_0 + z->Some_0 =~= x->Some_0 + (y->Some_0 + z->Some_0));
    }
}

pub(crate) proof fn lemma_entries_listing_append<T: Storable>(
    a: Seq<(Vec<u8>, NodeEntry<T>)>,
    c: Seq<(Vec<u8>, NodeEntry<T>)>,
    b: Map<u64, Seq<u8>>,
)
    ensures
        entries_listing(a + c, b) == join(entries_listing(a, b), entries_listing(c, b)),
    decreases a.len(),
{
    if a.len() == 0 {
        assert(a + c =~= c);
        if entries_listing(c, b) is Some {
            assert(Seq::<(Seq<u8>, T)>::empty() + entries_listing(c, b)->Some_0 =~= entries_listing(
                c,
                b,
            )->Some_0);
        }
    } else {
        let ac = a + c;
        assert(ac[0] == a[0]);
        assert(ac.subrange(1, ac.len() as int) =~= a.subrange(1, a.len() as int) + c);
        lemma_entries_listing_append(a.subrange(1, a.len() as int), c, b);
        lemma_join_assoc(
            entry_listing(a[0].0@, a[0].1, b),
            entries_listing(a.subrange(1, a.len() as int), b),
            entries_listing(c, b),
        );
    }
}

/// The listing of the entries around entry `j`.
pub(crate) proof fn lemma_entries_listing_split<T: Storable>(
    es: Seq<(Vec<u8>, NodeEntry<T>)>,
    j: int,
    b: Map<u64, Seq<u8>>,
)
    requires
        0 <= j < es.len(),
    ensures
        entries_listing(es, b) == join(
            entries_listing(es.subrange(0, j), b),
            join(entry_listing(es[j].0@, es[j].1, b), entries_listing(es.subrange(j + 1, es.len() as int), b)),
        ),
{
    let tail = es.subrange(j, es.len() as int);
    assert(es =~= es.subrange(0, j) + tail);
    lemma_entries_listing_append(es.subrange(0, j), tail, b);
    assert(tail[0] == es[j]);
    assert(tail.subrange(1, tail.len() as int) =~= es.subrange(j + 1, es.len() as int));
}

/// Replacing an entry by one with the same name and listing keeps the listing.
pub(crate) proof fn lemma_entries_listing_update<T: Storable>(
    es: Seq<(Vec<u8>, NodeEntry<T>)>,
    j: int,
    e: (Vec<u8>, NodeEntry<T>),
    b: Map<u64, Seq<u8>>,
)
    requires
        0 <= j < es.len(),
        e.0@ == es[j].0@,
    ensures
        entries_listing(es.update(j, e), b) == join(
            entries_listing(es.subrange(0, j), b),
            join(entry_listing(e.0@, e.1, b), entries_listing(es.subrange(j + 1, es.len() as int), b)),
        ),
{
    let es2 = es.update(j, e);
    lemma_entries_listing_split(es2, j, b);
    assert(es2.subrange(0, j) =~= es.subrange(0, j));
    assert(es2.subrange(j + 1, es.len() as int) =~= es.subrange(j + 1, es.len() as int));
}

/// Keys below entries whose names all sort before `h` sort before any key below `h`.
pub(crate) proof fn lemma_entries_before<T: Storable>(
    es: Seq<(Vec<u8>, NodeEntry<T>)>,
    b: Map<u64, Seq<u8>>,
    h: Seq<u8>,
    hdir: bool,
    t: Seq<u8>,
)
    requires
        forall|i: int|
            0 <= i < es.len() ==> valid_name((#[trigger] es[i]).0@, es[i].1 is Directory, false)
                && lex_lt(es[i].0@, h),
        valid_name(h, hdir, false),
        !hdir ==> t.len() == 0,
    ensures
        entries_listing(es, b) is Some ==> all_before(entries_listing(es, b)->Some_0, h + t),
    decreases es.len(),
{
    if es.len() > 0 {
        let rest = es.subrange(1, es.len() as int);
        assert forall|i: int| 0 <= i < rest.len() implies valid_name(
            (#[trigger] rest[i]).0@,
            rest[i].1 is Directory,
            false,
        ) && lex_lt(rest[i].0@, h) by {
            assert(rest[i] == es[i + 1]);
        }
        lemma_entries_before(rest, b, h, hdir, t);
        let m = es[0].0@;
        match es[0].1 {
            NodeEntry::File(v) => {
                lemma_component_order(m, false, Seq::empty(), h, hdir, t);
                assert(m + Seq::<u8>::empty() =~= m);
            },
            NodeEntry::Directory(c) => {
                if listing(c, b, true) is Some {
                    let l = listing(c, b, true)->Some_0;
                    assert forall|i: int| 0 <= i < l.len() implies lex_lt(
                        #[trigger] prefix_all(m, l)[i].0,
                        h + t,
                    ) by {
                        lemma_component_order(m, true, l[i].0, h, hdir, t);
                    }
                }
            },
        }
        if entries_listing(es, b) is Some {
            let f = entry_listing(m, es[0].1, b)->Some_0;
            let r = entries_listing(rest, b)->Some_0;
            assert forall|i: int| 0 <= i < (f + r).len() implies lex_lt(
                #[trigger] (f + r)[i].0,
                h + t,
            ) by {
                if i >= f.len() {
                    assert((f + r)[i] == r[i - f.len()]);
                }
            }
        }
    }
}

/// Keys below entries whose names all sort after `h` sort after any key below `h`.
pub(crate) proof fn lemma_entries_after<T: Storable>(
    es: Seq<(Vec<u8>, NodeEntry<T>)>,
    b: Map<u64, Seq<u8>>,
    h: Seq<u8>,
    hdir: bool,
    t: Seq<u8>,
)
    requires
        forall|i: int|
            0 <= i < es.len() ==> valid_name((#[trigger] es[i]).0@, es[i].1 is Directory, false)
                && lex_lt(h, es[i].0@),
        valid_name(h, hdir, false),
        !hdir ==> t.len() == 0,
    ensures
        entries_listing(es, b) is Some ==> all_after(entries_listing(es, b)->Some_0, h + t),
    decreases es.len(),
{
    if es.len() > 0 {
        let rest = es.subrange(1, es.len() as int);
        assert forall|i: int| 0 <= i < rest.len() implies valid_name(
            (#[trigger] rest[i]).0@,
            rest[i].1 is Directory,
            false,
        ) && lex_lt(h, rest[i].0@) by {
            assert(rest[i] == es[i + 1]);
        }
        lemma_entries_after(rest, b, h, hdir, t);
        let m = es[0].0@;
        match es[0].1 {
            NodeEntry::File(v) => {
                lemma_component_order(h, hdir, t, m, false, Seq::empty());
                assert(m + Seq::<u8>::empty() =~= m);
            },
            NodeEntry::Directory(c) => {
                if listing(c, b, true) is Some {
                    let l = listing(c, b, true)->Some_0;
                    assert forall|i: int| 0 <= i < l.len() implies lex_lt(
                        h + t,
                        #[trigger] prefix_all(m, l)[i].0,
                    ) by {
                        lemma_component_order(h, hdir, t, m, true, l[i].0);
                    }
                }
            },
        }
        if entries_listing(es, b) is Some {
            let f = entry_listing(m, es[0].1, b)->Some_0;
            let r = entries_listing(rest, b)->Some_0;
            assert forall|i: int| 0 <= i < (f + r).len() implies lex_lt(
                h + t,
                #[trigger] (f + r)[i].0,
            ) by {
                if i >= f.len() {
                    assert((f + r)[i] == r[i - f.len()]);
                }
            }
        }
    }
}

/// The entries list exactly what the stored entries of block `bound` list.
pub(crate) proof fn lemma_entries_raw<T: Storable>(
    es: Seq<(Vec<u8>, NodeEntry<T>)>,
    b: Map<u64, Seq<u8>>,
    bound: u64,
)
    requires
        forall|i: int|
            0 <= i < es.len() && (#[trigger] es[i]).1 is Directory ==> {
                let c = es[i].1->Directory_0;
                &&& c.id is Some
                &&& c.id->Some_0.0 < bound
                &&& listing(c, b, true) == stored_listing::<T>(b, c.id->Some_0.0, true)
            },
    ensures
        entries_listing(es, b) == raw_listing(b, raw_of(es), bound),
    decreases es.len(),
{
    if es.len() > 0 {
        let rest = es.subrange(1, es.len() as int);
        assert(raw_of(es).drop_first() =~= raw_of(rest));
        assert forall|i: int| 0 <= i < rest.len() && (#[trigger] rest[i]).1 is Directory implies {
            let c = rest[i].1->Directory_0;
            &&& c.id is Some
            &&& c.id->Some_0.0 < bound
            &&& listing(c, b, true) == stored_listing::<T>(b, c.id->Some_0.0, true)
        } by {
            assert(0 <= i + 1 < es.len());
            assert(rest[i] == es[i + 1]);
        }
        lemma_entries_raw(rest, b, bound);
        let raw = raw_of(es);
        assert(raw[0] == (es[0].0@, raw_entry(es[0].1)));
        assert(raw.drop_first() == raw_of(rest));
        match es[0].1 {
            NodeEntry::Directory(c) => {
                assert(raw[0].1 == RawEntry::<T>::Directory(c.id->Some_0.0));
                assert(listing(c, b, true) == stored_listing::<T>(b, c.id->Some_0.0, true));
            },
            NodeEntry::File(v) => {
                assert(raw[0].1 == RawEntry::<T>::File(v));
            },
        }
        assert(entries_listing(es, b) == join(
            entry_listing(es[0].0@, es[0].1, b),
            entries_listing(rest, b),
        ));
    }
}

/// A node that still has its id lists what its block lists.
pub(crate) proof fn lemma_clean_listing<T: Storable>(n: Node<T>, b: Map<u64, Seq<u8>>, nonroot: bool)
    requires
        wf(n, b, nonroot),
        n.id is Some,
    ensures
        listing(n, b, nonroot) == stored_listing::<T>(b, n.id->Some_0.0, nonroot),
    decreases n,
{
    if n.entries is Some {
        let es = n.entries->Some_0@;
        let id = n.id->Some_0.0;
        let raw = raw_of(es);
        assert forall|i: int| 0 <= i < es.len() && (#[trigger] es[i]).1 is Directory implies {
            let c = es[i].1->Directory_0;
            &&& c.id is Some
            &&& c.id->Some_0.0 < id
            &&& listing(c, b, true) == stored_listing::<T>(b, c.id->Some_0.0, true)
        } by {
            let c = es[i].1->Directory_0;
            assert(raw[i] == (es[i].0@, raw_entry(es[i].1)));
            assert(child_wf(es[i].1, b));
            lemma_clean_listing(c, b, true);
        }
        lemma_entries_raw(es, b, id);
    }
}

/// Where entry `j` is named `h`, the listing is what sorts before, what lies below
/// `h`, and what sorts after, in that order.
pub(crate) proof fn lemma_locate_found<T: Storable>(
    es: Seq<(Vec<u8>, NodeEntry<T>)>,
    b: Map<u64, Seq<u8>>,
    nonroot: bool,
    j: int,
    h: Seq<u8>,
    hdir: bool,
    t: Seq<u8>,
)
    requires
        entries_ok(es, nonroot),
        0 <= j < es.len(),
        es[j].0@ == h,
        valid_name(h, hdir, false),
        !hdir ==> t.len() == 0,
    ensures
        entries_listing(es, b) == join(
            entries_listing(es.subrange(0, j), b),
            join(entry_listing(h, es[j].1, b), entries_listing(es.subrange(j + 1, es.len() as int), b)),
        ),
        entries_listing(es.subrange(0, j), b) is Some ==> all_before(
            entries_listing(es.subrange(0, j), b)->Some_0,
            h + t,
        ),
        entries_listing(es.subrange(j + 1, es.len() as int), b) is Some ==> all_after(
            entries_listing(es.subrange(j + 1, es.len() as int), b)->Some_0,
            h + t,
        ),
{
    lemma_entries_listing_split(es, j, b);
    let a = es.subrange(0, j);
    let z = es.subrange(j + 1, es.len() as int);
    assert forall|i: int| 0 <= i < a.len() implies valid_name(
        (#[trigger] a[i]).0@,
        a[i].1 is Directory,
        false,
    ) && lex_lt(a[i].0@, h) by {
        assert(a[i] == es[i]);
    }
    lemma_entries_before(a, b, h, hdir, t);
    assert forall|i: int| 0 <= i < z.len() implies valid_name(
        (#[trigger] z[i]).0@,
        z[i].1 is Directory,
        false,
    ) && lex_lt(h, z[i].0@) by {
        assert(z[i] == es[i + j + 1]);
    }
    lemma_entries_after(z, b, h, hdir, t);
}

/// Where no entry is named `h` and `j` is where it would go, the listing is what
/// sorts before any key below `h`, then what sorts after.
pub(crate) proof fn lemma_locate_missing<T: Storable>(
    es: Seq<(Vec<u8>, NodeEntry<T>)>,
    b: Map<u64, Seq<u8>>,
    nonroot: bool,
    j: int,
    h: Seq<u8>,
    hdir: bool,
    t: Seq<u8>,
)
    requires
        entries_ok(es, nonroot),
        0 <= j <= es.len(),
        forall|i: int| 0 <= i < j ==> lex_lt((#[trigger] es[i]).0@, h),
        forall|i: int| j <= i < es.len() ==> lex_lt(h, (#[trigger] es[i]).0@),
        valid_name(h, hdir, false),
        !hdir ==> t.len() == 0,
    ensures
        entries_listing(es, b) == join(
            entries_listing(es.subrange(0, j), b),
            entries_listing(es.subrange(j, es.len() as int), b),
        ),
        entries_listing(es.subrange(0, j), b) is Some ==> all_before(
            entries_listing(es.subrange(0, j), b)->Some_0,
            h + t,
        ),
        entries_listing(es.subrange(j, es.len() as int), b) is Some ==> all_after(
            entries_listing(es.subrange(j, es.len() as int), b)->Some_0,
            h + t,
        ),
{
    let a = es.subrange(0, j);
    let z = es.subrange(j, es.len() as int);
    assert(es =~= a + z);
    lemma_entries_listing_append(a, z, b);
    assert forall|i: int| 0 <= i < a.len() implies valid_name(
        (#[trigger] a[i]).0@,
        a[i].1 is Directory,
        false,
    ) && lex_lt(a[i].0@, h) by {
        assert(a[i] == es[i]);
    }
    lemma_entries_before(a, b, h, hdir, t);
    assert forall|i: int| 0 <= i < z.len() implies valid_name(
        (#[trigger] z[i]).0@,
        z[i].1 is Directory,
        false,
    ) && lex_lt(h, z[i].0@) by {
        assert(z[i] == es[i + j]);
    }
    lemma_entries_after(z, b, h, hdir, t);
}

pub(crate) proof fn lemma_entries_keys_nonempty<T: Storable>(
    es: Seq<(Vec<u8>, NodeEntry<T>)>,
    b: Map<u64, Seq<u8>>,
)
    requires
        forall|i: int| 0 <= i < es.len() ==> (#[trigger] es[i]).0@.len() > 0,
    ensures
        entries_listing(es, b) is Some ==> forall|k: int|
            0 <= k < entries_listing(es, b)->Some_0.len() ==> (#[trigger] entries_listing(
                es,
                b,
            )->Some_0[k]).0.len() > 0,
    decreases es.len(),
{
    if es.len() > 0 {
        let rest = es.subrange(1, es.len() as int);
        assert forall|i: int| 0 <= i < rest.len() implies (#[trigger] rest[i]).0@.len() > 0 by {
            assert(rest[i] == es[i + 1]);
        }
        lemma_entries_keys_nonempty(rest, b);
        if entries_listing(es, b) is Some {
            let f = entry_listing(es[0].0@, es[0].1, b)->Some_0;
            let r = entries_listing(rest, b)->Some_0;
            assert forall|k: int| 0 <= k < (f + r).len() implies (#[trigger] (f + r)[k]).0.len()
                > 0 by {
                if k >= f.len() {
                    assert((f + r)[k] == r[k - f.len()]);
                }
            }
        }
    }
}

pub(crate) proof fn lemma_raw_keys_nonempty<T: Storable>(
    b: Map<u64, Seq<u8>>,
    es: Seq<(Seq<u8>, RawEntry<T>)>,
    bound: u64,
)
    requires
        forall|i: int| 0 <= i < es.len() ==> (#[trigger] es[i]).0.len() > 0,
    ensures
        raw_listing(b, es, bound) is Some ==> forall|k: int|
            0 <= k < raw_listing(b, es, bound)->Some_0.len() ==> (#[trigger] raw_listing(
                b,
                es,
                bound,
            )->Some_0[k]).0.len() > 0,
    decreases es.len(),
{
    if es.len() > 0 {
        let rest = es.drop_first();
        assert forall|i: int| 0 <= i < rest.len() implies (#[trigger] rest[i]).0.len() > 0 by {
            assert(rest[i] == es[i + 1]);
        }
        lemma_raw_keys_nonempty(b, rest, bound);
        if raw_listing(b, es, bound) is Some {
            let all = raw_listing(b, es, bound)->Some_0;
            let r = raw_listing(b, rest, bound)->Some_0;
            let f_len = all.len() - r.len();
            assert forall|k: int| 0 <= k < all.len() implies (#[trigger] all[k]).0.len() > 0 by {
                if k >= f_len {
                    assert(all[k] == r[k - f_len]);
                }
            }
        }
    }
}

/// Below the root no key is empty.
pub(crate) proof fn lemma_nonroot_keys<T: Storable>(n: Node<T>, b: Map<u64, Seq<u8>>)
    requires
        wf(n, b, true),
    ensures
        listing(n, b, true) is Some ==> forall|k: int|
            0 <= k < listing(n, b, true)->Some_0.len() ==> (#[trigger] listing(
                n,
                b,
                true,
            )->Some_0[k]).0.len() > 0,
{
    match n.entries {
        Some(es) => {
            assert forall|i: int| 0 <= i < es@.len() implies (#[trigger] es@[i]).0@.len() > 0 by {
                assert(valid_name(es@[i].0@, es@[i].1 is Directory, true));
            }
            lemma_entries_keys_nonempty(es@, b);
        },
        None => {
            let id = n.id->Some_0.0;
            if b.contains_key(id) {
                match parse_block::<T>(b[id]) {
                    Some(raw) => {
                        if valid_raw(raw, id, true) {
                            assert forall|i: int| 0 <= i < raw.len() implies (
                            #[trigger] raw[i]).0.len() > 0 by {
                                assert(valid_name(raw[i].0, raw[i].1 is Directory, true));
                            }
                            lemma_raw_keys_nonempty(b, raw, id);
                        }
                    },
                    None => {},
                }
            }
        },
    }
}

/// A stored directory below the root lists at least one file.
pub(crate) proof fn lemma_stored_nonempty<T: Storable>(b: Map<u64, Seq<u8>>, id: u64)
    ensures
        stored_listing::<T>(b, id, true) is Some ==> stored_listing::<T>(b, id, true)->Some_0.len()
            > 0,
    decreases id,
{
    if stored_listing::<T>(b, id, true) is Some {
        let raw = parse_block::<T>(b[id])->Some_0;
        let rest = raw_listing(b, raw.drop_first(), id)->Some_0;
        match raw[0].1 {
            RawEntry::File(v) => {},
            RawEntry::Directory(c) => {
                lemma_stored_nonempty::<T>(b, c);
            },
        }
    }
}

/// A directory below the root that is not known to be empty lists at least one file.
pub(crate) proof fn lemma_nonroot_nonempty<T: Storable>(n: Node<T>, b: Map<u64, Seq<u8>>)
    requires
        wf(n, b, true),
        !is_empty_node(n),
    ensures
        listing(n, b, true) is Some ==> listing(n, b, true)->Some_0.len() > 0,
    decreases n,
{
    match n.entries {
        Some(es) => {
            assert(child_wf(es@[0].1, b));
            match es@[0].1 {
                NodeEntry::File(v) => {},
                NodeEntry::Directory(c) => {
                    lemma_nonroot_nonempty(c, b);
                },
            }
        },
        None => {
            lemma_stored_nonempty::<T>(b, n.id->Some_0.0);
        },
    }
}

/// Two entries that a block would store alike.
pub(crate) open spec fn same_stored<T>(e1: NodeEntry<T>, e2: NodeEntry<T>) -> bool {
    match (e1, e2) {
        (NodeEntry::File(a), NodeEntry::File(c)) => a == c,
        (NodeEntry::Directory(a), NodeEntry::Directory(c)) => a.id == c.id,
        _ => false,
    }
}

/// Replacing entry `j` of a well-formed node by an entry of the same name and kind
/// that is itself well formed keeps the node well formed, as long as the node
/// either forgets its id or the entry keeps its stored form.
pub(crate) proof fn lemma_replace_entry<T: Storable>(
    n: Node<T>,
    m: Node<T>,
    j: int,
    b: Map<u64, Seq<u8>>,
    nonroot: bool,
)
    requires
        wf(n, b, nonroot),
        n.entries is Some,
        m.entries is Some,
        0 <= j < n.entries->Some_0@.len(),
        m.entries->Some_0@.len() == n.entries->Some_0@.len(),
        m.entries->Some_0@ == n.entries->Some_0@.update(j, m.entries->Some_0@[j]),
        m.entries->Some_0@[j].0@ == n.entries->Some_0@[j].0@,
        (m.entries->Some_0@[j].1 is Directory) == (n.entries->Some_0@[j].1 is Directory),
        child_wf(m.entries->Some_0@[j].1, b),
        m.id is None || (m.id == n.id && same_stored(m.entries->Some_0@[j].1, n.entries->Some_0@[j].1)),
    ensures
        wf(m, b, nonroot),
        entries_listing(m.entries->Some_0@, b) == join(
            entries_listing(n.entries->Some_0@.subrange(0, j), b),
            join(
                entry_listing(n.entries->Some_0@[j].0@, m.entries->Some_0@[j].1, b),
                entries_listing(n.entries->Some_0@.subrange(j + 1, n.entries->Some_0@.len() as int), b),
            ),
        ),
{
    let es = n.entries->Some_0@;
    let ms = m.entries->Some_0@;
    lemma_entries_listing_update(es, j, ms[j], b);
    assert forall|i: int| 0 <= i < ms.len() implies ms[i] == es[i] || i == j by {}
    assert(entries_ok(ms, nonroot)) by {
        assert forall|i: int, k: int| 0 <= i < k < ms.len() implies lex_lt(
            #[trigger] ms[i].0@,
            #[trigger] ms[k].0@,
        ) by {
            assert(es[i].0@ == ms[i].0@ && es[k].0@ == ms[k].0@);
        }
        assert forall|i: int| 0 <= i < ms.len() implies valid_name(
            (#[trigger] ms[i]).0@,
            ms[i].1 is Directory,
            nonroot,
        ) by {
            assert(valid_name(es[i].0@, es[i].1 is Directory, nonroot));
        }
    }
    assert forall|i: int| 0 <= i < ms.len() implies child_wf(#[trigger] ms[i].1, b) by {
        if i != j {
            assert(child_wf(es[i].1, b));
        }
    }
    if m.id is Some {
        assert(raw_of(ms) =~= raw_of(es));
        assert forall|i: int|
            0 <= i < ms.len() && (#[trigger] ms[i]).1 is Directory implies ms[i].1->Directory_0.id is Some by {
            if i == j {
                assert(raw_of(es)[i] == (es[i].0@, raw_entry(es[i].1)));
                assert(raw_of(ms)[i] == (ms[i].0@, raw_entry(ms[i].1)));
                assert(es[i].1->Directory_0.id is Some);
            } else {
                assert(ms[i] == es[i]);
            }
        }
    }
}

/// Looking up a key below entry `j` looks only at that entry.
pub(crate) proof fn lemma_lookup_found<T: Storable>(
    es: Seq<(Vec<u8>, NodeEntry<T>)>,
    b: Map<u64, Seq<u8>>,
    nonroot: bool,
    j: int,
    h: Seq<u8>,
    hdir: bool,
    t: Seq<u8>,
)
    requires
        entries_ok(es, nonroot),
        0 <= j < es.len(),
        es[j].0@ == h,
        valid_name(h, hdir, false),
        !hdir ==> t.len() == 0,
    ensures
        entries_listing(es, b) is Some ==> {
            &&& entry_listing(h, es[j].1, b) is Some
            &&& lookup(entries_listing(es, b)->Some_0, h + t) == lookup(
                entry_listing(h, es[j].1, b)->Some_0,
                h + t,
            )
        },
{
    lemma_locate_found(es, b, nonroot, j, h, hdir, t);
    if entries_listing(es, b) is Some {
        lemma_around(
            entries_listing(es.subrange(0, j), b)->Some_0,
            entry_listing(h, es[j].1, b)->Some_0,
            entries_listing(es.subrange(j + 1, es.len() as int), b)->Some_0,
            h + t,
            arbitrary(),
        );
    }
}

/// A key below a name that no entry has is not there.
pub(crate) proof fn lemma_lookup_missing<T: Storable>(
    es: Seq<(Vec<u8>, NodeEntry<T>)>,
    b: Map<u64, Seq<u8>>,
    nonroot: bool,
    j: int,
    h: Seq<u8>,
    hdir: bool,
    t: Seq<u8>,
)
    requires
        entries_ok(es, nonroot),
        0 <= j <= es.len(),
        forall|i: int| 0 <= i < j ==> lex_lt((#[trigger] es[i]).0@, h),
        forall|i: int| j <= i < es.len() ==> lex_lt(h, (#[trigger] es[i]).0@),
        valid_name(h, hdir, false),
        !hdir ==> t.len() == 0,
    ensures
        entries_listing(es, b) is Some ==> lookup(entries_listing(es, b)->Some_0, h + t) is None,
{
    lemma_locate_missing(es, b, nonroot, j, h, hdir, t);
    if entries_listing(es, b) is Some {
        let z = entries_listing(es.subrange(j, es.len() as int), b)->Some_0;
        lemma_around(
            entries_listing(es.subrange(0, j), b)->Some_0,
            Seq::empty(),
            z,
            h + t,
            arbitrary(),
        );
        assert(Seq::<(Seq<u8>, T)>::empty() + z =~= z);
    }
}

/// No key below entries named before the directory name `h` lies below `h + t`.
pub(crate) proof fn lemma_none_below_before<T: Storable>(
    es: Seq<(Vec<u8>, NodeEntry<T>)>,
    b: Map<u64, Seq<u8>>,
    h: Seq<u8>,
    t: Seq<u8>,
)
    requires
        forall|i: int|
            0 <= i < es.len() ==> valid_name((#[trigger] es[i]).0@, es[i].1 is Directory, false)
                && lex_lt(es[i].0@, h),
        valid_name(h, true, false),
    ensures
        entries_listing(es, b) is Some ==> forall|i: int|
            0 <= i < entries_listing(es, b)->Some_0.len() ==> !(h + t).is_prefix_of(
                (#[trigger] entries_listing(es, b)->Some_0[i]).0,
            ),
{
    if entries_listing(es, b) is Some {
        let l = entries_listing(es, b)->Some_0;
        assert forall|i: int| 0 <= i < l.len() implies !(h + t).is_prefix_of(
            (#[trigger] l[i]).0,
        ) by {
            if (h + t).is_prefix_of(l[i].0) {
                lemma_entries_before(es, b, h, true, t);
                lemma_prefix_not_after(h + t, l[i].0);
            }
        }
    }
}

/// No key below entries named after the directory name `h` lies below `h + t`.
pub(crate) proof fn lemma_none_below_after<T: Storable>(
    es: Seq<(Vec<u8>, NodeEntry<T>)>,
    b: Map<u64, Seq<u8>>,
    h: Seq<u8>,
    t: Seq<u8>,
)
    requires
        forall|i: int|
            0 <= i < es.len() ==> valid_name((#[trigger] es[i]).0@, es[i].1 is Directory, false)
                && lex_lt(h, es[i].0@),
        valid_name(h, true, false),
    ensures
        entries_listing(es, b) is Some ==> forall|i: int|
            0 <= i < entries_listing(es, b)->Some_0.len() ==> !(h + t).is_prefix_of(
                (#[trigger] entries_listing(es, b)->Some_0[i]).0,
            ),
{
    if entries_listing(es, b) is Some {
        let l = entries_listing(es, b)->Some_0;
        assert forall|i: int| 0 <= i < l.len() implies !(h + t).is_prefix_of(
            (#[trigger] l[i]).0,
        ) by {
            if (h + t).is_prefix_of(l[i].0) {
                let x = l[i].0;
                let z = x.subrange((h + t).len() as int, x.len() as int);
                assert(x.subrange(0, (h + t).len() as int) =~= h + t);
                assert(x =~= (h + t) + z);
                assert((h + t) + z =~= h + (t + z));
                lemma_entries_after(es, b, h, true, t + z);
                lemma_lt_irreflexive(x);
            }
        }
    }
}

/// Keys below `h + t`, for a directory name `h`, are found below entry `j`, where
/// it has that name, and nowhere else.
pub(crate) proof fn lemma_below_found<T: Storable>(
    es: Seq<(Vec<u8>, NodeEntry<T>)>,
    b: Map<u64, Seq<u8>>,
    nonroot: bool,
    j: int,
    h: Seq<u8>,
    t: Seq<u8>,
)
    requires
        entries_ok(es, nonroot),
        0 <= j < es.len(),
        es[j].0@ == h,
        valid_name(h, true, false),
    ensures
        entries_listing(es, b) is Some ==> {
            &&& entry_listing(h, es[j].1, b) is Some
            &&& holds_dir(entries_listing(es, b)->Some_0, h + t) == holds_dir(
                entry_listing(h, es[j].1, b)->Some_0,
                h + t,
            )
        },
{
    lemma_entries_listing_split(es, j, b);
    let a = es.subrange(0, j);
    let z = es.subrange(j + 1, es.len() as int);
    assert forall|i: int| 0 <= i < a.len() implies valid_name(
        (#[trigger] a[i]).0@,
        a[i].1 is Directory,
        false,
    ) && lex_lt(a[i].0@, h) by {
        assert(a[i] == es[i]);
    }
    assert forall|i: int| 0 <= i < z.len() implies valid_name(
        (#[trigger] z[i]).0@,
        z[i].1 is Directory,
        false,
    ) && lex_lt(h, z[i].0@) by {
        assert(z[i] == es[i + j + 1]);
    }
    lemma_none_below_before(a, b, h, t);
    lemma_none_below_after(z, b, h, t);
    if entries_listing(es, b) is Some {
        let la = entries_listing(a, b)->Some_0;
        let lc = entry_listing(h, es[j].1, b)->Some_0;
        let lz = entries_listing(z, b)->Some_0;
        let l = la + (lc + lz);
        let d = h + t;
        if holds_dir(l, d) {
            let i = choose|i: int|
                0 <= i < l.len() && d.len() < (#[trigger] l[i]).0.len() && d.is_prefix_of(l[i].0);
            if i < la.len() {
                assert(l[i] == la[i]);
            } else if i < la.len() + lc.len() {
                assert(l[i] == lc[i - la.len()]);
            } else {
                assert(l[i] == lz[i - la.len() - lc.len()]);
            }
        }
        if holds_dir(lc, d) {
            let i = choose|i: int|
                0 <= i < lc.len() && d.len() < (#[trigger] lc[i]).0.len() && d.is_prefix_of(lc[i].0);
            assert(l[i + la.len()] == lc[i]);
        }
    }
}

/// Keys below `h + t`, for a directory name `h` that no entry has, are not there.
pub(crate) proof fn lemma_below_missing<T: Storable>(
    es: Seq<(Vec<u8>, NodeEntry<T>)>,
    b: Map<u64, Seq<u8>>,
    nonroot: bool,
    j: int,
    h: Seq<u8>,
    t: Seq<u8>,
)
    requires
        entries_ok(es, nonroot),
        0 <= j <= es.len(),
        forall|i: int| 0 <= i < j ==> lex_lt((#[trigger] es[i]).0@, h),
        forall|i: int| j <= i < es.len() ==> lex_lt(h, (#[trigger] es[i]).0@),
        valid_name(h, true, false),
    ensures
        entries_listing(es, b) is Some ==> !holds_dir(entries_listing(es, b)->Some_0, h + t),
{
    let a = es.subrange(0, j);
    let z = es.subrange(j, es.len() as int);
    assert(es =~= a + z);
    lemma_entries_listing_append(a, z, b);
    assert forall|i: int| 0 <= i < a.len() implies valid_name(
        (#[trigger] a[i]).0@,
        a[i].1 is Directory,
        false,
    ) && lex_lt(a[i].0@, h) by {
        assert(a[i] == es[i]);
    }
    assert forall|i: int| 0 <= i < z.len() implies valid_name(
        (#[trigger] z[i]).0@,
        z[i].1 is Directory,
        false,
    ) && lex_lt(h, z[i].0@) by {
        assert(z[i] == es[i + j]);
    }
    lemma_none_below_before(a, b, h, t);
    lemma_none_below_after(z, b, h, t);
    if entries_listing(es, b) is Some {
        let la = entries_listing(a, b)->Some_0;
        let lz = entries_listing(z, b)->Some_0;
        let l = la + lz;
        let d = h + t;
        if holds_dir(l, d) {
            let i = choose|i: int|
                0 <= i < l.len() && d.len() < (#[trigger] l[i]).0.len() && d.is_prefix_of(l[i].0);
            if i < la.len() {
                assert(l[i] == la[i]);
            } else {
                assert(l[i] == lz[i - la.len()]);
            }
        }
    }
}

/// Inserting a well-formed entry where its name belongs keeps a node that forgot
/// its id well formed.
pub(crate) proof fn lemma_insert_entry<T: Storable>(
    n: Node<T>,
    m: Node<T>,
    j: int,
    e: (Vec<u8>, NodeEntry<T>),
    b: Map<u64, Seq<u8>>,
    nonroot: bool,
)
    requires
        wf(n, b, nonroot),
        n.entries is Some,
        m.entries is Some,
        m.id is None,
        0 <= j <= n.entries->Some_0@.len(),
        m.entries->Some_0@ == n.entries->Some_0@.insert(j, e),
        forall|i: int| 0 <= i < j ==> lex_lt((#[trigger] n.entries->Some_0@[i]).0@, e.0@),
        forall|i: int|
            j <= i < n.entries->Some_0@.len() ==> lex_lt(e.0@, (#[trigger] n.entries->Some_0@[i]).0@),
        valid_name(e.0@, e.1 is Directory, nonroot),
        child_wf(e.1, b),
    ensures
        wf(m, b, nonroot),
        entries_listing(m.entries->Some_0@, b) == join(
            entries_listing(n.entries->Some_0@.subrange(0, j), b),
            join(
                entry_listing(e.0@, e.1, b),
                entries_listing(n.entries->Some_0@.subrange(j, n.entries->Some_0@.len() as int), b),
            ),
        ),
{
    let es = n.entries->Some_0@;
    let ms = m.entries->Some_0@;
    assert(ms[j] == e);
    assert(ms.subrange(0, j) =~= es.subrange(0, j));
    assert(ms.subrange(j + 1, ms.len() as int) =~= es.subrange(j, es.len() as int));
    lemma_entries_listing_split(ms, j, b);
    assert forall|i: int| 0 <= i < ms.len() && i != j implies ms[i] == (if i < j {
        es[i]
    } else {
        es[i - 1]
    }) by {}
    assert(entries_ok(ms, nonroot)) by {
        assert forall|i: int, k: int| 0 <= i < k < ms.len() implies lex_lt(
            #[trigger] ms[i].0@,
            #[trigger] ms[k].0@,
        ) by {
            if k < j {
            } else if i > j {
            } else if i == j {
            } else if k == j {
            } else {
                assert(lex_lt(es[i].0@, e.0@));
                assert(lex_lt(e.0@, es[k - 1].0@));
                crate::order::lemma_lt_transitive(es[i].0@, e.0@, es[k - 1].0@);
            }
        }
        assert forall|i: int| 0 <= i < ms.len() implies valid_name(
            (#[trigger] ms[i]).0@,
            ms[i].1 is Directory,
            nonroot,
        ) by {
            if i < j {
                assert(valid_name(es[i].0@, es[i].1 is Directory, nonroot));
            } else if i > j {
                assert(valid_name(es[i - 1].0@, es[i - 1].1 is Directory, nonroot));
            }
        }
    }
    assert forall|i: int| 0 <= i < ms.len() implies child_wf(#[trigger] ms[i].1, b) by {
        if i < j {
            assert(child_wf(es[i].1, b));
        } else if i > j {
            assert(child_wf(es[i - 1].1, b));
        }
    }
}

/// Removing an entry keeps a node that forgot its id well formed.
pub(crate) proof fn lemma_remove_entry<T: Storable>(
    n: Node<T>,
    m: Node<T>,
    j: int,
    b: Map<u64, Seq<u8>>,
    nonroot: bool,
)
    requires
        wf(n, b, nonroot),
        n.entries is Some,
        m.entries is Some,
        m.id is None,
        0 <= j < n.entries->Some_0@.len(),
        m.entries->Some_0@ == n.entries->Some_0@.remove(j),
    ensures
        wf(m, b, nonroot),
        entries_listing(m.entries->Some_0@, b) == join(
            entries_listing(n.entries->Some_0@.subrange(0, j), b),
            entries_listing(n.entries->Some_0@.subrange(j + 1, n.entries->Some_0@.len() as int), b),
        ),
{
    let es = n.entries->Some_0@;
    let ms = m.entries->Some_0@;
    assert(ms =~= es.subrange(0, j) + es.subrange(j + 1, es.len() as int));
    lemma_entries_listing_append(es.subrange(0, j), es.subrange(j + 1, es.len() as int), b);
    assert forall|i: int| 0 <= i < ms.len() implies ms[i] == (if i < j {
        es[i]
    } else {
        es[i + 1]
    }) by {}
    assert(entries_ok(ms, nonroot)) by {
        assert forall|i: int, k: int| 0 <= i < k < ms.len() implies lex_lt(
            #[trigger] ms[i].0@,
            #[trigger] ms[k].0@,
        ) by {
            let i2 = if i < j { i } else { i + 1 };
            let k2 = if k < j { k } else { k + 1 };
            assert(lex_lt(es[i2].0@, es[k2].0@));
        }
        assert forall|i: int| 0 <= i < ms.len() implies valid_name(
            (#[trigger] ms[i]).0@,
            ms[i].1 is Directory,
            nonroot,
        ) by {
            let i2 = if i < j { i } else { i + 1 };
            assert(valid_name(es[i2].0@, es[i2].1 is Directory, nonroot));
        }
    }
    assert forall|i: int| 0 <= i < ms.len() implies child_wf(#[trigger] ms[i].1, b) by {
        let i2 = if i < j { i } else { i + 1 };
        assert(child_wf(es[i2].1, b));
    }
}

/// The listing of the entries from `start` on, around entry `i`.
pub(crate) proof fn lemma_range_split<T: Storable>(
    es: Seq<(Vec<u8>, NodeEntry<T>)>,
    start: int,
    i: int,
    b: Map<u64, Seq<u8>>,
)
    requires
        0 <= start <= i < es.len(),
    ensures
        entries_listing(es.subrange(start, es.len() as int), b) == join(
            entries_listing(es.subrange(start, i), b),
            join(entry_listing(es[i].0@, es[i].1, b), entries_listing(es.subrange(i + 1, es.len() as int), b)),
        ),
        entries_listing(es.subrange(start, i + 1), b) == join(
            entries_listing(es.subrange(start, i), b),
            join(entry_listing(es[i].0@, es[i].1, b), Some(Seq::empty())),
        ),
{
    let r = es.subrange(start, es.len() as int);
    lemma_entries_listing_split(r, i - start, b);
    assert(r.subrange(0, i - start) =~= es.subrange(start, i));
    assert(r.subrange(i - start + 1, r.len() as int) =~= es.subrange(i + 1, es.len() as int));
    assert(r[i - start] == es[i]);
    let r2 = es.subrange(start, i + 1);
    lemma_entries_listing_split(r2, i - start, b);
    assert(r2.subrange(0, i - start) =~= es.subrange(start, i));
    assert(r2.subrange(i - start + 1, r2.len() as int) =~= Seq::<(Vec<u8>, NodeEntry<T>)>::empty());
    assert(r2[i - start] == es[i]);
}

pub(crate) proof fn lemma_next_missing<T: Storable>(
    es: Seq<(Vec<u8>, NodeEntry<T>)>,
    b: Map<u64, Seq<u8>>,
    nonroot: bool,
    j: int,
    h: Seq<u8>,
    hdir: bool,
    t: Seq<u8>,
)
    requires
        entries_ok(es, nonroot),
        0 <= j <= es.len(),
        forall|i: int| 0 <= i < j ==> lex_lt((#[trigger] es[i]).0@, h),
        forall|i: int| j <= i < es.len() ==> lex_lt(h, (#[trigger] es[i]).0@),
        valid_name(h, hdir, false),
        !hdir ==> t.len() == 0,
    ensures
        entries_listing(es, b) is Some ==> next_after(entries_listing(es, b)->Some_0, h + t)
            == first_of(entries_listing(es.subrange(j, es.len() as int), b)->Some_0),
{
    lemma_locate_missing(es, b, nonroot, j, h, hdir, t);
    if entries_listing(es, b) is Some {
        let z = entries_listing(es.subrange(j, es.len() as int), b)->Some_0;
        lemma_around(entries_listing(es.subrange(0, j), b)->Some_0, Seq::empty(), z, h + t, arbitrary());
        assert(Seq::<(Seq<u8>, T)>::empty() + z =~= z);
        lemma_next_all_after(z, h + t);
    }
}

pub(crate) proof fn lemma_next_file<T: Storable>(
    es: Seq<(Vec<u8>, NodeEntry<T>)>,
    b: Map<u64, Seq<u8>>,
    nonroot: bool,
    j: int,
    h: Seq<u8>,
    hdir: bool,
    t: Seq<u8>,
)
    requires
        entries_ok(es, nonroot),
        0 <= j < es.len(),
        es[j].0@ == h,
        es[j].1 is File,
        valid_name(h, hdir, false),
        !hdir ==> t.len() == 0,
    ensures
        entries_listing(es, b) is Some ==> next_after(entries_listing(es, b)->Some_0, h + t)
            == first_of(entries_listing(es.subrange(j + 1, es.len() as int), b)->Some_0),
{
    lemma_locate_found(es, b, nonroot, j, h, hdir, t);
    if entries_listing(es, b) is Some {
        let c = seq![(h, es[j].1->File_0)];
        let z = entries_listing(es.subrange(j + 1, es.len() as int), b)->Some_0;
        lemma_around(entries_listing(es.subrange(0, j), b)->Some_0, c, z, h + t, arbitrary());
        assert(h.is_prefix_of(h + t));
        lemma_prefix_not_after(h, h + t);
        lemma_next_none_after(c, h + t);
        lemma_next_append(c, z, h + t);
        lemma_next_all_after(z, h + t);
    }
}

pub(crate) proof fn lemma_next_exact<T: Storable>(
    es: Seq<(Vec<u8>, NodeEntry<T>)>,
    b: Map<u64, Seq<u8>>,
    nonroot: bool,
    j: int,
    h: Seq<u8>,
)
    requires
        wf_entries(es, b, nonroot),
        0 <= j < es.len(),
        es[j].0@ == h,
        es[j].1 is Directory,
    ensures
        entries_listing(es, b) is Some ==> next_after(entries_listing(es, b)->Some_0, h)
            == first_of(entries_listing(es.subrange(j, es.len() as int), b)->Some_0),
{
    let t = Seq::<u8>::empty();
    assert(h + t =~= h);
    assert(valid_name(h, true, nonroot));
    lemma_locate_found(es, b, nonroot, j, h, true, t);
    lemma_range_split(es, j, j, b);
    let c = es[j].1->Directory_0;
    assert(child_wf(es[j].1, b));
    lemma_nonroot_keys(c, b);
    if entries_listing(es, b) is Some {
        let lc = listing(c, b, true)->Some_0;
        let p = prefix_all(h, lc);
        let z = entries_listing(es.subrange(j + 1, es.len() as int), b)->Some_0;
        lemma_around(entries_listing(es.subrange(0, j), b)->Some_0, p, z, h, arbitrary());
        assert forall|i: int| 0 <= i < (p + z).len() implies lex_lt(h, #[trigger] (p + z)[i].0) by {
            if i < p.len() {
                assert(p[i].0 == h + lc[i].0);
                lemma_lt_proper_prefix(h, lc[i].0);
            } else {
                assert((p + z)[i] == z[i - p.len()]);
            }
        }
        lemma_next_all_after(p + z, h);
        assert(es.subrange(j, j) =~= Seq::<(Vec<u8>, NodeEntry<T>)>::empty());
        assert(Seq::<(Seq<u8>, T)>::empty() + (p + z) =~= p + z);
    }
}

pub(crate) proof fn lemma_next_dir<T: Storable>(
    es: Seq<(Vec<u8>, NodeEntry<T>)>,
    b: Map<u64, Seq<u8>>,
    nonroot: bool,
    j: int,
    h: Seq<u8>,
    t: Seq<u8>,
)
    requires
        entries_ok(es, nonroot),
        0 <= j < es.len(),
        es[j].0@ == h,
        es[j].1 is Directory,
        valid_name(h, true, false),
    ensures
        entries_listing(es, b) is Some ==> {
            &&& listing(es[j].1->Directory_0, b, true) is Some
            &&& next_after(entries_listing(es, b)->Some_0, h + t) == match next_after(
                listing(es[j].1->Directory_0, b, true)->Some_0,
                t,
            ) {
                Some(p) => Some((h + p.0, p.1)),
                None => first_of(entries_listing(es.subrange(j + 1, es.len() as int), b)->Some_0),
            }
        },
{
    lemma_locate_found(es, b, nonroot, j, h, true, t);
    if entries_listing(es, b) is Some {
        let lc = listing(es[j].1->Directory_0, b, true)->Some_0;
        let z = entries_listing(es.subrange(j + 1, es.len() as int), b)->Some_0;
        lemma_around(entries_listing(es.subrange(0, j), b)->Some_0, prefix_all(h, lc), z, h + t, arbitrary());
        lemma_next_prefix(h, lc, t);
        lemma_next_append(prefix_all(h, lc), z, h + t);
        lemma_next_all_after(z, h + t);
    }
}

/// The entries of a well-formed loaded node.
pub(crate) open spec fn wf_entries<T: Storable>(
    es: Seq<(Vec<u8>, NodeEntry<T>)>,
    b: Map<u64, Seq<u8>>,
    nonroot: bool,
) -> bool {
    &&& entries_ok(es, nonroot)
    &&& forall|i: int| 0 <= i < es.len() ==> child_wf(#[trigger] es[i].1, b)
}

pub(crate) proof fn lemma_stored_mono<T: Storable>(
    b: Map<u64, Seq<u8>>,
    b2: Map<u64, Seq<u8>>,
    id: u64,
    nonroot: bool,
)
    requires
        extends(b, b2),
    ensures
        stored_listing::<T>(b, id, nonroot) is Some ==> stored_listing::<T>(b2, id, nonroot)
            == stored_listing::<T>(b, id, nonroot),
    decreases id + 1, 0int,
{
    if stored_listing::<T>(b, id, nonroot) is Some {
        let es = parse_block::<T>(b[id])->Some_0;
        lemma_raw_mono(b, b2, es, id);
    }
}

pub(crate) proof fn lemma_raw_mono<T: Storable>(
    b: Map<u64, Seq<u8>>,
    b2: Map<u64, Seq<u8>>,
    es: Seq<(Seq<u8>, RawEntry<T>)>,
    bound: u64,
)
    requires
        extends(b, b2),
    ensures
        raw_listing(b, es, bound) is Some ==> raw_listing(b2, es, bound) == raw_listing(b, es, bound),
    decreases bound, es.len(),
{
    if es.len() > 0 {
        lemma_raw_mono(b, b2, es.drop_first(), bound);
        match es[0].1 {
            RawEntry::Directory(c) => {
                if c < bound {
                    lemma_stored_mono::<T>(b, b2, c, true);
                }
            },
            RawEntry::File(_) => {},
        }
    }
}

/// Each entry of a listing that can be read can itself be read.
pub(crate) proof fn lemma_entries_some<T: Storable>(es: Seq<(Vec<u8>, NodeEntry<T>)>, b: Map<u64, Seq<u8>>)
    ensures
        entries_listing(es, b) is Some ==> forall|i: int|
            0 <= i < es.len() ==> (#[trigger] entry_listing(es[i].0@, es[i].1, b)) is Some,
{
    if entries_listing(es, b) is Some {
        assert forall|i: int| 0 <= i < es.len() implies (#[trigger] entry_listing(
            es[i].0@,
            es[i].1,
            b,
        )) is Some by {
            lemma_entries_listing_split(es, i, b);
        }
    }
}

/// Appending blocks keeps a readable node well formed, listing the same files.
pub(crate) proof fn lemma_node_mono<T: Storable>(
    n: Node<T>,
    b: Map<u64, Seq<u8>>,
    b2: Map<u64, Seq<u8>>,
    nonroot: bool,
)
    requires
        extends(b, b2),
        wf(n, b, nonroot),
        listing(n, b, nonroot) is Some,
    ensures
        wf(n, b2, nonroot),
        listing(n, b2, nonroot) == listing(n, b, nonroot),
    decreases n, 1int,
{
    match n.entries {
        None => {
            lemma_stored_mono::<T>(b, b2, n.id->Some_0.0, nonroot);
        },
        Some(es) => {
            lemma_entries_some(es@, b);
            assert forall|i: int| 0 <= i < es@.len() implies child_wf(#[trigger] es@[i].1, b2)
                && entry_listing(es@[i].0@, es@[i].1, b2) == entry_listing(es@[i].0@, es@[i].1, b) by {
                assert(child_wf(es@[i].1, b));
                assert(entry_listing(es@[i].0@, es@[i].1, b) is Some);
                if es@[i].1 is Directory {
                    lemma_node_mono(es@[i].1->Directory_0, b, b2, true);
                }
            }
            lemma_entries_same(es@, b, b2);
            if n.id is Some {
                assert(b.contains_key(n.id->Some_0.0));
            }
        },
    }
}

/// Entries that each list the same files under two sets of blocks list the same
/// files together.
pub(crate) proof fn lemma_entries_same<T: Storable>(
    es: Seq<(Vec<u8>, NodeEntry<T>)>,
    b: Map<u64, Seq<u8>>,
    b2: Map<u64, Seq<u8>>,
)
    requires
        forall|i: int|
            0 <= i < es.len() ==> entry_listing(es[i].0@, (#[trigger] es[i]).1, b2) == entry_listing(
                es[i].0@,
                es[i].1,
                b,
            ),
    ensures
        entries_listing(es, b2) == entries_listing(es, b),
{
    lemma_entries_same2(es, es, b, b2);
}

/// Two sequences of entries, pairwise of the same name and listing, list the same
/// files.
pub(crate) proof fn lemma_entries_same2<T: Storable>(
    es: Seq<(Vec<u8>, NodeEntry<T>)>,
    es2: Seq<(Vec<u8>, NodeEntry<T>)>,
    b: Map<u64, Seq<u8>>,
    b2: Map<u64, Seq<u8>>,
)
    requires
        es2.len() == es.len(),
        forall|i: int|
            0 <= i < es.len() ==> (#[trigger] es2[i]).0@ == es[i].0@ && entry_listing(
                es[i].0@,
                es2[i].1,
                b2,
            ) == entry_listing(es[i].0@, es[i].1, b),
    ensures
        entries_listing(es2, b2) == entries_listing(es, b),
    decreases es.len(),
{
    if es.len() > 0 {
        let rest = es.subrange(1, es.len() as int);
        let rest2 = es2.subrange(1, es2.len() as int);
        assert forall|i: int| 0 <= i < rest.len() implies (#[trigger] rest2[i]).0@ == rest[i].0@
            && entry_listing(rest[i].0@, rest2[i].1, b2) == entry_listing(rest[i].0@, rest[i].1, b) by {
            assert(rest[i] == es[i + 1]);
            assert(rest2[i] == es2[i + 1]);
        }
        lemma_entries_same2(rest, rest2, b, b2);
        assert(es2[0].0@ == es[0].0@);
    }
}

/// Every node below is loaded.
pub(crate) open spec fn loaded_all<T>(n: Node<T>) -> bool
    decreases n,
{
    match n.entries {
        None => false,
        Some(es) => forall|i: int|
            0 <= i < es@.len() ==> match #[trigger] es@[i].1 {
                NodeEntry::Directory(c) => loaded_all(c),
                NodeEntry::File(_) => true,
            },
    }
}

/// Every node below is loaded and has no id.
pub(crate) open spec fn dirty_all<T>(n: Node<T>) -> bool
    decreases n,
{
    n.id is None && match n.entries {
        None => false,
        Some(es) => forall|i: int|
            0 <= i < es@.len() ==> match #[trigger] es@[i].1 {
                NodeEntry::Directory(c) => dirty_all(c),
                NodeEntry::File(_) => true,
            },
    }
}

/// A node with no id anywhere below is well formed, with the same files, whatever
/// the blocks.
pub(crate) proof fn lemma_dirty_any<T: Storable>(
    n: Node<T>,
    b: Map<u64, Seq<u8>>,
    b2: Map<u64, Seq<u8>>,
    nonroot: bool,
)
    requires
        dirty_all(n),
        wf(n, b, nonroot),
    ensures
        wf(n, b2, nonroot),
        listing(n, b2, nonroot) == listing(n, b, nonroot),
    decreases n,
{
    let es = n.entries->Some_0@;
    assert forall|i: int| 0 <= i < es.len() implies child_wf(#[trigger] es[i].1, b2)
        && entry_listing(es[i].0@, es[i].1, b2) == entry_listing(es[i].0@, es[i].1, b) by {
        assert(child_wf(es[i].1, b));
        if es[i].1 is Directory {
            lemma_dirty_any(es[i].1->Directory_0, b, b2, true);
        }
    }
    lemma_entries_same(es, b, b2);
}

/// A node loaded all the way down can always be read.
pub(crate) proof fn lemma_loaded_some<T: Storable>(n: Node<T>, b: Map<u64, Seq<u8>>, nonroot: bool)
    requires
        loaded_all(n),
    ensures
        listing(n, b, nonroot) is Some,
    decreases n,
{
    let es = n.entries->Some_0@;
    assert forall|i: int| 0 <= i < es.len() implies (#[trigger] entry_listing(
        es[i].0@,
        es[i].1,
        b,
    )) is Some by {
        if es[i].1 is Directory {
            lemma_loaded_some(es[i].1->Directory_0, b, true);
        }
    }
    lemma_entries_all_some(es, b);
}

pub(crate) proof fn lemma_entries_all_some<T: Storable>(
    es: Seq<(Vec<u8>, NodeEntry<T>)>,
    b: Map<u64, Seq<u8>>,
)
    requires
        forall|i: int|
            0 <= i < es.len() ==> (#[trigger] entry_listing(es[i].0@, es[i].1, b)) is Some,
    ensures
        entries_listing(es, b) is Some,
    decreases es.len(),
{
    if es.len() > 0 {
        let rest = es.subrange(1, es.len() as int);
        assert forall|i: int| 0 <= i < rest.len() implies (#[trigger] entry_listing(
            rest[i].0@,
            rest[i].1,
            b,
        )) is Some by {
            assert(rest[i] == es[i + 1]);
        }
        lemma_entries_all_some(rest, b);
        assert(entry_listing(es[0].0@, es[0].1, b) is Some);
    }
}

/// Keys below stored entries whose names all sort after `h` sort after any key
/// below `h`.
pub(crate) proof fn lemma_raw_after<T: Storable>(
    b: Map<u64, Seq<u8>>,
    es: Seq<(Seq<u8>, RawEntry<T>)>,
    bound: u64,
    h: Seq<u8>,
    hdir: bool,
    t: Seq<u8>,
)
    requires
        forall|i: int|
            0 <= i < es.len() ==> valid_name((#[trigger] es[i]).0, es[i].1 is Directory, false)
                && lex_lt(h, es[i].0),
        valid_name(h, hdir, false),
        !hdir ==> t.len() == 0,
    ensures
        raw_listing(b, es, bound) is Some ==> all_after(raw_listing(b, es, bound)->Some_0, h + t),
    decreases es.len(),
{
    if es.len() > 0 {
        let rest = es.drop_first();
        assert forall|i: int| 0 <= i < rest.len() implies valid_name(
            (#[trigger] rest[i]).0,
            rest[i].1 is Directory,
            false,
        ) && lex_lt(h, rest[i].0) by {
            assert(rest[i] == es[i + 1]);
        }
        lemma_raw_after(b, rest, bound, h, hdir, t);
        if raw_listing(b, es, bound) is Some {
            let all = raw_listing(b, es, bound)->Some_0;
            let r = raw_listing(b, rest, bound)->Some_0;
            let m = es[0].0;
            let f_len = all.len() - r.len();
            assert forall|i: int| 0 <= i < all.len() implies lex_lt(h + t, #[trigger] all[i].0) by {
                if i >= f_len {
                    assert(all[i] == r[i - f_len]);
                } else {
                    match es[0].1 {
                        RawEntry::File(v) => {
                            lemma_component_order(h, hdir, t, m, false, Seq::empty());
                            assert(m + Seq::<u8>::empty() =~= m);
                        },
                        RawEntry::Directory(c) => {
                            let l = stored_listing::<T>(b, c, true)->Some_0;
                            assert(all[i] == prefix_all(m, l)[i]);
                            lemma_component_order(h, hdir, t, m, true, l[i].0);
                        },
                    }
                }
            }
        }
    }
}

pub(crate) proof fn lemma_stored_sorted<T: Storable>(b: Map<u64, Seq<u8>>, id: u64, nonroot: bool)
    ensures
        stored_listing::<T>(b, id, nonroot) is Some ==> sorted(stored_listing::<T>(b, id, nonroot)->Some_0),
    decreases id + 1, 0int,
{
    if stored_listing::<T>(b, id, nonroot) is Some {
        let es = parse_block::<T>(b[id])->Some_0;
        lemma_raw_sorted(b, es, id, nonroot);
    }
}

pub(crate) proof fn lemma_raw_sorted<T: Storable>(
    b: Map<u64, Seq<u8>>,
    es: Seq<(Seq<u8>, RawEntry<T>)>,
    bound: u64,
    nonroot: bool,
)
    requires
        forall|i: int, j: int| 0 <= i < j < es.len() ==> lex_lt(#[trigger] es[i].0, #[trigger] es[j].0),
        forall|i: int| 0 <= i < es.len() ==> valid_name((#[trigger] es[i]).0, es[i].1 is Directory, nonroot),
    ensures
        raw_listing(b, es, bound) is Some ==> sorted(raw_listing(b, es, bound)->Some_0),
    decreases bound, es.len(),
{
    if es.len() > 0 && raw_listing(b, es, bound) is Some {
        let rest = es.drop_first();
        assert forall|i: int, j: int| 0 <= i < j < rest.len() implies lex_lt(
            #[trigger] rest[i].0,
            #[trigger] rest[j].0,
        ) by {
            assert(rest[i] == es[i + 1] && rest[j] == es[j + 1]);
        }
        assert forall|i: int| 0 <= i < rest.len() implies valid_name(
            (#[trigger] rest[i]).0,
            rest[i].1 is Directory,
            nonroot,
        ) by {
            assert(rest[i] == es[i + 1]);
        }
        lemma_raw_sorted(b, rest, bound, nonroot);
        let m = es[0].0;
        let mdir = es[0].1 is Directory;
        assert(valid_name(m, mdir, nonroot));
        assert forall|i: int| 0 <= i < rest.len() implies valid_name(
            (#[trigger] rest[i]).0,
            rest[i].1 is Directory,
            false,
        ) && lex_lt(m, rest[i].0) by {
            assert(rest[i] == es[i + 1]);
            assert(valid_name(es[i + 1].0, es[i + 1].1 is Directory, nonroot));
        }
        let r = raw_listing(b, rest, bound)->Some_0;
        let f = match es[0].1 {
            RawEntry::File(v) => seq![(m, v)],
            RawEntry::Directory(c) => prefix_all(m, stored_listing::<T>(b, c, true)->Some_0),
        };
        match es[0].1 {
            RawEntry::File(v) => {
                lemma_raw_after(b, rest, bound, m, false, Seq::empty());
                assert(m + Seq::<u8>::empty() =~= m);
            },
            RawEntry::Directory(c) => {
                let l = stored_listing::<T>(b, c, true)->Some_0;
                lemma_stored_sorted::<T>(b, c, true);
                crate::model::lemma_sorted_prefix(m, l);
                assert forall|i: int| 0 <= i < l.len() implies all_after(r, #[trigger] f[i].0) by {
                    lemma_raw_after(b, rest, bound, m, true, l[i].0);
                }
            },
        }
        assert forall|i: int, j: int| 0 <= i < f.len() && 0 <= j < r.len() implies lex_lt(
            #[trigger] f[i].0,
            #[trigger] r[j].0,
        ) by {
            if es[0].1 is Directory {
                assert(all_after(r, f[i].0));
            } else {
                assert(f[i].0 == m + Seq::<u8>::empty());
            }
        }
        crate::model::lemma_sorted_append(f, r);
    }
}

/// The files below a well-formed node come in strictly ascending key order.
pub(crate) proof fn lemma_node_sorted<T: Storable>(n: Node<T>, b: Map<u64, Seq<u8>>, nonroot: bool)
    requires
        wf(n, b, nonroot),
    ensures
        listing(n, b, nonroot) is Some ==> sorted(listing(n, b, nonroot)->Some_0),
    decreases n, 1int,
{
    match n.entries {
        None => {
            lemma_stored_sorted::<T>(b, n.id->Some_0.0, nonroot);
        },
        Some(es) => {
            assert forall|i: int|
                0 <= i < es@.len() && (#[trigger] es@[i]).1 is Directory && listing(
                    es@[i].1->Directory_0,
                    b,
                    true,
                ) is Some implies sorted(listing(es@[i].1->Directory_0, b, true)->Some_0) by {
                assert(child_wf(es@[i].1, b));
                lemma_node_sorted(es@[i].1->Directory_0, b, true);
            }
            lemma_entries_sorted(es@, b, nonroot);
        },
    }
}

pub(crate) proof fn lemma_entries_sorted<T: Storable>(
    es: Seq<(Vec<u8>, NodeEntry<T>)>,
    b: Map<u64, Seq<u8>>,
    nonroot: bool,
)
    requires
        entries_ok(es, nonroot),
        forall|i: int|
            0 <= i < es.len() && (#[trigger] es[i]).1 is Directory ==> (listing(
                es[i].1->Directory_0,
                b,
                true,
            ) is Some ==> sorted(listing(es[i].1->Directory_0, b, true)->Some_0)),
    ensures
        entries_listing(es, b) is Some ==> sorted(entries_listing(es, b)->Some_0),
    decreases es.len(),
{
    if es.len() > 0 && entries_listing(es, b) is Some {
        let rest = es.subrange(1, es.len() as int);
        assert(entries_ok(rest, nonroot)) by {
            assert forall|i: int, j: int| 0 <= i < j < rest.len() implies lex_lt(
                #[trigger] rest[i].0@,
                #[trigger] rest[j].0@,
            ) by {
                assert(rest[i] == es[i + 1] && rest[j] == es[j + 1]);
            }
            assert forall|i: int| 0 <= i < rest.len() implies valid_name(
                (#[trigger] rest[i]).0@,
                rest[i].1 is Directory,
                nonroot,
            ) by {
                assert(rest[i] == es[i + 1]);
            }
        }
        assert forall|i: int|
            0 <= i < rest.len() && (#[trigger] rest[i]).1 is Directory && listing(
                rest[i].1->Directory_0,
                b,
                true,
            ) is Some implies sorted(listing(rest[i].1->Directory_0, b, true)->Some_0) by {
            assert(rest[i] == es[i + 1]);
        }
        lemma_entries_sorted(rest, b, nonroot);
        let m = es[0].0@;
        assert(valid_name(m, es[0].1 is Directory, nonroot));
        assert forall|i: int| 0 <= i < rest.len() implies valid_name(
            (#[trigger] rest[i]).0@,
            rest[i].1 is Directory,
            false,
        ) && lex_lt(m, rest[i].0@) by {
            assert(rest[i] == es[i + 1]);
            assert(valid_name(es[i + 1].0@, es[i + 1].1 is Directory, nonroot));
        }
        let r = entries_listing(rest, b)->Some_0;
        let f = entry_listing(m, es[0].1, b)->Some_0;
        match es[0].1 {
            NodeEntry::File(v) => {
                lemma_entries_after(rest, b, m, false, Seq::empty());
                assert(m + Seq::<u8>::empty() =~= m);
                assert(f[0].0 == m);
            },
            NodeEntry::Directory(c) => {
                let l = listing(c, b, true)->Some_0;
                crate::model::lemma_sorted_prefix(m, l);
                assert forall|i: int| 0 <= i < l.len() implies all_after(r, #[trigger] f[i].0) by {
                    lemma_entries_after(rest, b, m, true, l[i].0);
                }
            },
        }
        assert forall|i: int, j: int| 0 <= i < f.len() && 0 <= j < r.len() implies lex_lt(
            #[trigger] f[i].0,
            #[trigger] r[j].0,
        ) by {
            if es[0].1 is Directory {
                assert(all_after(r, f[i].0));
            }
        }
        crate::model::lemma_sorted_append(f, r);
    }
}

} // verus!
