//! Laws that hold of the tree's operations, stated over the listing of its files.

use crate::model::{
    first_of,
    holds_dir,
    insert_sorted,
    lemma_next_all_after,
    lemma_next_append,
    lemma_next_none_after,
    lookup,
    next_after,
    remove_key,
    sorted,
};
use crate::node::stored_listing;
use crate::order::{lemma_lt_asymmetric, lemma_lt_irreflexive, lex_lt};
use crate::storable::Storable;
use crate::tree::{added, Tree};
use vstd::prelude::*;

verus! {

/// The files of a well-formed tree come in strictly ascending key order.
pub proof fn lemma_files_sorted<T: Storable>(t: Tree<T>, b: Map<u64, Seq<u8>>)
    requires
        t.wf(b),
    ensures
        t.files(b) is Some ==> sorted(t.files(b)->Some_0),
{
    t.lemma_sorted(b);
}

/// Writing a tree and opening the tree at the root block it was written to gives
/// back the same files, so every key looks up the same state.  The writes state
/// what the root block lists; opening states that the tree lists it.
pub proof fn lemma_reopen<T: Storable>(
    before: Tree<T>,
    ob: Map<u64, Seq<u8>>,
    root: u64,
    reopened: Tree<T>,
    nb: Map<u64, Seq<u8>>,
)
    requires
        before.files(ob) is Some,
        stored_listing::<T>(nb, root, false) == before.files(ob),
        reopened.files(nb) == stored_listing::<T>(nb, root, false),
    ensures
        reopened.files(nb) == before.files(ob),
        forall|k: Seq<u8>|
            lookup(reopened.files(nb)->Some_0, k) == #[trigger] lookup(before.files(ob)->Some_0, k),
{
}

/// Starting from the first file and asking each time for the file after the last
/// one visits every file once, in strictly ascending key order, and then ends.
pub proof fn lemma_iteration<T>(l: Seq<(Seq<u8>, T)>)
    requires
        sorted(l),
    ensures
        first_of(l) == (if l.len() > 0 {
            Some(l[0])
        } else {
            None
        }),
        forall|i: int| 0 <= i < l.len() - 1 ==> #[trigger] next_after(l, l[i].0) == Some(l[i + 1]),
        l.len() > 0 ==> next_after(l, l[l.len() - 1].0) is None,
{
    assert forall|i: int| 0 <= i < l.len() implies #[trigger] next_after(l, l[i].0) == (if i + 1
        < l.len() {
        Some(l[i + 1])
    } else {
        None
    }) by {
        lemma_next_at(l, i);
    }
}

proof fn lemma_next_at<T>(l: Seq<(Seq<u8>, T)>, i: int)
    requires
        sorted(l),
        0 <= i < l.len(),
    ensures
        next_after(l, l[i].0) == (if i + 1 < l.len() {
            Some(l[i + 1])
        } else {
            None
        }),
{
    let k = l[i].0;
    let a = l.subrange(0, i + 1);
    let z = l.subrange(i + 1, l.len() as int);
    assert(l =~= a + z);
    assert forall|j: int| 0 <= j < a.len() implies !lex_lt(k, #[trigger] a[j].0) by {
        if j < i {
            lemma_lt_asymmetric(l[j].0, k);
        } else {
            lemma_lt_irreflexive(k);
        }
    }
    lemma_next_none_after(a, k);
    lemma_next_append(a, z, k);
    assert forall|j: int| 0 <= j < z.len() implies lex_lt(k, #[trigger] z[j].0) by {
        assert(z[j] == l[j + i + 1]);
    }
    lemma_next_all_after(z, k);
}

pub proof fn lemma_lookup_insert<T>(l: Seq<(Seq<u8>, T)>, k: Seq<u8>, v: T, k2: Seq<u8>)
    ensures
        lookup(insert_sorted(l, k, v), k2) == (if k2 == k {
            Some(v)
        } else {
            lookup(l, k2)
        }),
    decreases l.len(),
{
    if l.len() > 0 && l[0].0 != k && !lex_lt(k, l[0].0) {
        lemma_lookup_insert(l.drop_first(), k, v, k2);
        assert((seq![l[0]] + insert_sorted(l.drop_first(), k, v)).drop_first() =~= insert_sorted(
            l.drop_first(),
            k,
            v,
        ));
    } else if l.len() > 0 && l[0].0 == k {
        assert((seq![(k, v)] + l.drop_first()).drop_first() =~= l.drop_first());
    } else if l.len() > 0 {
        assert((seq![(k, v)] + l).drop_first() =~= l);
    } else {
        assert(seq![(k, v)].drop_first() =~= l);
    }
}

/// Adding the same file twice: after the first time the key is there with that
/// state, so the second time adds no file and changes nothing.
pub proof fn lemma_add_twice<T>(l: Seq<(Seq<u8>, T)>, k: Seq<u8>, v: T)
    ensures
        lookup(insert_sorted(l, k, v), k) == Some(v),
        added(insert_sorted(l, k, v), k) == 0,
        insert_sorted(insert_sorted(l, k, v), k, v) == insert_sorted(l, k, v),
    decreases l.len(),
{
    lemma_lookup_insert(l, k, v, k);
    if l.len() > 0 && l[0].0 != k && !lex_lt(k, l[0].0) {
        lemma_add_twice(l.drop_first(), k, v);
        let s = seq![l[0]] + insert_sorted(l.drop_first(), k, v);
        assert(s.drop_first() =~= insert_sorted(l.drop_first(), k, v));
        assert(s[0] == l[0]);
    } else if l.len() > 0 && l[0].0 == k {
        let s = seq![(k, v)] + l.drop_first();
        assert(s.drop_first() =~= l.drop_first());
        assert(seq![(k, v)] + s.drop_first() =~= s);
    } else if l.len() > 0 {
        let s = seq![(k, v)] + l;
        assert(s.drop_first() =~= l);
        assert(seq![(k, v)] + s.drop_first() =~= s);
    } else {
        let s = seq![(k, v)];
        assert(s.drop_first() =~= l);
        assert(seq![(k, v)] + s.drop_first() =~= s);
    }
}

/// Adding a file that was not there and removing it again gives back the same
/// files: the count is restored and the key is gone.
pub proof fn lemma_add_then_remove<T>(l: Seq<(Seq<u8>, T)>, k: Seq<u8>, v: T)
    requires
        lookup(l, k) is None,
    ensures
        remove_key(insert_sorted(l, k, v), k) == l,
        lookup(remove_key(insert_sorted(l, k, v), k), k) is None,
    decreases l.len(),
{
    if l.len() > 0 && l[0].0 != k && !lex_lt(k, l[0].0) {
        lemma_add_then_remove(l.drop_first(), k, v);
        let s = seq![l[0]] + insert_sorted(l.drop_first(), k, v);
        assert(s.drop_first() =~= insert_sorted(l.drop_first(), k, v));
        assert(s[0] == l[0]);
        assert(seq![l[0]] + l.drop_first() =~= l);
    } else if l.len() > 0 {
        let s = seq![(k, v)] + l;
        assert(s.drop_first() =~= l);
    } else {
        let s = seq![(k, v)];
        assert(s.drop_first() =~= l);
    }
}

proof fn lemma_remove_members<T>(l: Seq<(Seq<u8>, T)>, k: Seq<u8>)
    requires
        sorted(l),
    ensures
        forall|i: int|
            0 <= i < remove_key(l, k).len() ==> (#[trigger] remove_key(l, k)[i]).0 != k
                && exists|j: int| 0 <= j < l.len() && l[j] == remove_key(l, k)[i],
    decreases l.len(),
{
    if l.len() > 0 {
        let rest = l.drop_first();
        assert(sorted(rest)) by {
            assert forall|i: int, j: int| 0 <= i < j < rest.len() implies lex_lt(
                #[trigger] rest[i].0,
                #[trigger] rest[j].0,
            ) by {
                assert(rest[i] == l[i + 1] && rest[j] == l[j + 1]);
            }
        }
        lemma_remove_members(rest, k);
        let r = remove_key(l, k);
        if l[0].0 == k {
            assert forall|i: int| 0 <= i < r.len() implies (#[trigger] r[i]).0 != k && exists|j: int|
                0 <= j < l.len() && l[j] == r[i] by {
                assert(r[i] == l[i + 1]);
                lemma_lt_irreflexive(k);
                assert(lex_lt(l[0].0, l[i + 1].0));
            }
        } else {
            assert forall|i: int| 0 <= i < r.len() implies (#[trigger] r[i]).0 != k && exists|j: int|
                0 <= j < l.len() && l[j] == r[i] by {
                if i == 0 {
                    assert(l[0] == r[0]);
                } else {
                    let rr = remove_key(rest, k);
                    assert(r[i] == rr[i - 1]);
                    let j = choose|j: int| 0 <= j < rest.len() && rest[j] == rr[i - 1];
                    assert(l[j + 1] == rest[j]);
                }
            }
        }
    }
}

/// Removing the last file below a directory: the directory is then gone.  `d` is
/// the directory; every file below it was the removed one.
pub proof fn lemma_dir_cleanup<T>(l: Seq<(Seq<u8>, T)>, k: Seq<u8>, d: Seq<u8>)
    requires
        sorted(l),
        forall|i: int|
            0 <= i < l.len() && d.len() < (#[trigger] l[i]).0.len() && d.is_prefix_of(l[i].0) ==> l[i].0
                == k,
    ensures
        !holds_dir(remove_key(l, k), d),
{
    lemma_remove_members(l, k);
    let r = remove_key(l, k);
    if holds_dir(r, d) {
        let i = choose|i: int| 0 <= i < r.len() && d.len() < (#[trigger] r[i]).0.len() && d.is_prefix_of(r[i].0);
        let j = choose|j: int| 0 <= j < l.len() && l[j] == r[i];
        assert(l[j].0 == k);
    }
}

} // verus!
