//! The contents of a tree as a sorted listing of (key, file state) pairs.

use crate::key::SLASH;
use crate::order::{
    lemma_lt_asymmetric,
    lemma_lt_common_prefix,
    lemma_lt_irreflexive,
    lemma_lt_transitive,
    lex_lt,
};
use vstd::prelude::*;

verus! {

/// Keys strictly ascend.
pub open spec fn sorted<T>(s: Seq<(Seq<u8>, T)>) -> bool {
    forall|i: int, j: int| 0 <= i < j < s.len() ==> lex_lt(#[trigger] s[i].0, #[trigger] s[j].0)
}

/// Every key sorts before `k`.
pub open spec fn all_before<T>(s: Seq<(Seq<u8>, T)>, k: Seq<u8>) -> bool {
    forall|i: int| 0 <= i < s.len() ==> lex_lt(#[trigger] s[i].0, k)
}

/// Every key sorts after `k`.
pub open spec fn all_after<T>(s: Seq<(Seq<u8>, T)>, k: Seq<u8>) -> bool {
    forall|i: int| 0 <= i < s.len() ==> lex_lt(k, #[trigger] s[i].0)
}

/// Each key of `s`, with `name` in front.
pub open spec fn prefix_all<T>(name: Seq<u8>, s: Seq<(Seq<u8>, T)>) -> Seq<(Seq<u8>, T)> {
    s.map_values(|p: (Seq<u8>, T)| (name + p.0, p.1))
}

/// The state stored under `k`.
pub open spec fn lookup<T>(s: Seq<(Seq<u8>, T)>, k: Seq<u8>) -> Option<T>
    decreases s.len(),
{
    if s.len() == 0 {
        None
    } else if s[0].0 == k {
        Some(s[0].1)
    } else {
        lookup(s.drop_first(), k)
    }
}

/// The listing with `k` set to `v`, in order.
pub open spec fn insert_sorted<T>(s: Seq<(Seq<u8>, T)>, k: Seq<u8>, v: T) -> Seq<(Seq<u8>, T)>
    decreases s.len(),
{
    if s.len() == 0 {
        seq![(k, v)]
    } else if s[0].0 == k {
        seq![(k, v)] + s.drop_first()
    } else if lex_lt(k, s[0].0) {
        seq![(k, v)] + s
    } else {
        seq![s[0]] + insert_sorted(s.drop_first(), k, v)
    }
}

/// The listing without `k`.
pub open spec fn remove_key<T>(s: Seq<(Seq<u8>, T)>, k: Seq<u8>) -> Seq<(Seq<u8>, T)>
    decreases s.len(),
{
    if s.len() == 0 {
        s
    } else if s[0].0 == k {
        s.drop_first()
    } else {
        seq![s[0]] + remove_key(s.drop_first(), k)
    }
}

/// The first pair, if there is one.
pub open spec fn first_of<T>(s: Seq<(Seq<u8>, T)>) -> Option<(Seq<u8>, T)> {
    if s.len() > 0 {
        Some(s[0])
    } else {
        None
    }
}

/// A pair with the key as a sequence.
pub open spec fn pair_view<T>(x: Option<(Vec<u8>, T)>) -> Option<(Seq<u8>, T)> {
    match x {
        Some((k, v)) => Some((k@, v)),
        None => None,
    }
}

/// The first pair whose key sorts after `k`.
pub open spec fn next_after<T>(s: Seq<(Seq<u8>, T)>, k: Seq<u8>) -> Option<(Seq<u8>, T)>
    decreases s.len(),
{
    if s.len() == 0 {
        None
    } else if lex_lt(k, s[0].0) {
        Some(s[0])
    } else {
        next_after(s.drop_first(), k)
    }
}

/// `d` names a directory that holds a file of the listing: it ends with the
/// separator and is a proper prefix of some key.
pub open spec fn holds_dir<T>(s: Seq<(Seq<u8>, T)>, d: Seq<u8>) -> bool {
    &&& d.len() > 0
    &&& d[d.len() - 1] == SLASH
    &&& exists|i: int|
        0 <= i < s.len() && d.len() < (#[trigger] s[i]).0.len() && d.is_prefix_of(s[i].0)
}

pub proof fn lemma_lookup_append<T>(a: Seq<(Seq<u8>, T)>, b: Seq<(Seq<u8>, T)>, k: Seq<u8>)
    ensures
        lookup(a + b, k) == (if lookup(a, k) is Some {
            lookup(a, k)
        } else {
            lookup(b, k)
        }),
    decreases a.len(),
{
    if a.len() == 0 {
        assert(a + b =~= b);
    } else {
        assert((a + b).drop_first() =~= a.drop_first() + b);
        lemma_lookup_append(a.drop_first(), b, k);
    }
}

pub proof fn lemma_lookup_some<T>(s: Seq<(Seq<u8>, T)>, k: Seq<u8>)
    ensures
        lookup(s, k) is Some <==> exists|i: int| 0 <= i < s.len() && (#[trigger] s[i]).0 == k,
        lookup(s, k) is Some ==> exists|i: int|
            0 <= i < s.len() && (#[trigger] s[i]).0 == k && s[i].1 == lookup(s, k)->Some_0,
    decreases s.len(),
{
    if s.len() > 0 {
        lemma_lookup_some(s.drop_first(), k);
        if lookup(s.drop_first(), k) is Some {
            let i = choose|i: int|
                0 <= i < s.drop_first().len() && (#[trigger] s.drop_first()[i]).0 == k
                    && s.drop_first()[i].1 == lookup(s.drop_first(), k)->Some_0;
            assert(s[i + 1] == s.drop_first()[i]);
        }
        if exists|i: int| 0 <= i < s.len() && (#[trigger] s[i]).0 == k {
            let i = choose|i: int| 0 <= i < s.len() && (#[trigger] s[i]).0 == k;
            if i > 0 {
                assert(s.drop_first()[i - 1] == s[i]);
            }
        }
    }
}

pub proof fn lemma_lookup_prefix<T>(h: Seq<u8>, s: Seq<(Seq<u8>, T)>, t: Seq<u8>)
    ensures
        lookup(prefix_all(h, s), h + t) == lookup(s, t),
    decreases s.len(),
{
    if s.len() > 0 {
        assert(prefix_all(h, s).drop_first() =~= prefix_all(h, s.drop_first()));
        if s[0].0 != t {
            assert((h + s[0].0).subrange(h.len() as int, (h + s[0].0).len() as int) =~= s[0].0);
            assert((h + t).subrange(h.len() as int, (h + t).len() as int) =~= t);
        }
        lemma_lookup_prefix(h, s.drop_first(), t);
    }
}

/// Each key, as a sequence.
pub open spec fn pairs_view<T>(v: Seq<(Vec<u8>, T)>) -> Seq<(Seq<u8>, T)> {
    v.map_values(|p: (Vec<u8>, T)| (p.0@, p.1))
}

pub proof fn lemma_prefix_all_twice<T>(p: Seq<u8>, q: Seq<u8>, s: Seq<(Seq<u8>, T)>)
    ensures
        prefix_all(p + q, s) == prefix_all(p, prefix_all(q, s)),
{
    assert forall|i: int| 0 <= i < s.len() implies (p + q) + s[i].0 == p + (q + s[i].0) by {
        assert((p + q) + s[i].0 =~= p + (q + s[i].0));
    }
    assert(prefix_all(p + q, s) =~= prefix_all(p, prefix_all(q, s)));
}

pub proof fn lemma_prefix_all_append<T>(h: Seq<u8>, a: Seq<(Seq<u8>, T)>, b: Seq<(Seq<u8>, T)>)
    ensures
        prefix_all(h, a + b) == prefix_all(h, a) + prefix_all(h, b),
{
    assert(prefix_all(h, a + b) =~= prefix_all(h, a) + prefix_all(h, b));
}

pub proof fn lemma_sorted_append<T>(a: Seq<(Seq<u8>, T)>, b: Seq<(Seq<u8>, T)>)
    requires
        sorted(a),
        sorted(b),
        forall|i: int, j: int|
            0 <= i < a.len() && 0 <= j < b.len() ==> lex_lt(#[trigger] a[i].0, #[trigger] b[j].0),
    ensures
        sorted(a + b),
{
    let s = a + b;
    assert forall|i: int, j: int| 0 <= i < j < s.len() implies lex_lt(
        #[trigger] s[i].0,
        #[trigger] s[j].0,
    ) by {
        if j < a.len() {
            assert(s[i] == a[i] && s[j] == a[j]);
        } else if i >= a.len() {
            assert(s[i] == b[i - a.len()] && s[j] == b[j - a.len()]);
        } else {
            assert(s[i] == a[i] && s[j] == b[j - a.len()]);
        }
    }
}

pub proof fn lemma_sorted_prefix<T>(h: Seq<u8>, s: Seq<(Seq<u8>, T)>)
    requires
        sorted(s),
    ensures
        sorted(prefix_all(h, s)),
{
    let p = prefix_all(h, s);
    assert forall|i: int, j: int| 0 <= i < j < p.len() implies lex_lt(
        #[trigger] p[i].0,
        #[trigger] p[j].0,
    ) by {
        lemma_lt_common_prefix(h, s[i].0, s[j].0);
    }
}

pub proof fn lemma_insert_append_left<T>(
    a: Seq<(Seq<u8>, T)>,
    b: Seq<(Seq<u8>, T)>,
    k: Seq<u8>,
    v: T,
)
    requires
        all_before(a, k),
    ensures
        insert_sorted(a + b, k, v) == a + insert_sorted(b, k, v),
    decreases a.len(),
{
    if a.len() == 0 {
        assert(a + b =~= b);
        assert(a + insert_sorted(b, k, v) =~= insert_sorted(b, k, v));
    } else {
        assert((a + b)[0] == a[0]);
        lemma_lt_irreflexive(k);
        lemma_lt_asymmetric(a[0].0, k);
        assert((a + b).drop_first() =~= a.drop_first() + b);
        assert(all_before(a.drop_first(), k)) by {
            assert forall|i: int| 0 <= i < a.drop_first().len() implies lex_lt(
                #[trigger] a.drop_first()[i].0,
                k,
            ) by {
                assert(a.drop_first()[i] == a[i + 1]);
            }
        }
        lemma_insert_append_left(a.drop_first(), b, k, v);
        assert(seq![a[0]] + (a.drop_first() + insert_sorted(b, k, v)) =~= a + insert_sorted(
            b,
            k,
            v,
        ));
    }
}

pub proof fn lemma_insert_append_right<T>(
    a: Seq<(Seq<u8>, T)>,
    b: Seq<(Seq<u8>, T)>,
    k: Seq<u8>,
    v: T,
)
    requires
        all_after(b, k),
    ensures
        insert_sorted(a + b, k, v) == insert_sorted(a, k, v) + b,
    decreases a.len(),
{
    if a.len() == 0 {
        assert(a + b =~= b);
        if b.len() > 0 {
            lemma_lt_irreflexive(k);
            assert(b[0].0 != k);
        }
        assert(seq![(k, v)] + b =~= insert_sorted(a, k, v) + b);
    } else {
        assert((a + b)[0] == a[0]);
        assert((a + b).drop_first() =~= a.drop_first() + b);
        if a[0].0 == k {
            assert(seq![(k, v)] + (a.drop_first() + b) =~= (seq![(k, v)] + a.drop_first()) + b);
        } else if lex_lt(k, a[0].0) {
            assert(seq![(k, v)] + (a + b) =~= (seq![(k, v)] + a) + b);
        } else {
            lemma_insert_append_right(a.drop_first(), b, k, v);
            assert(seq![a[0]] + (insert_sorted(a.drop_first(), k, v) + b) =~= (seq![a[0]]
                + insert_sorted(a.drop_first(), k, v)) + b);
        }
    }
}

pub proof fn lemma_insert_prefix<T>(h: Seq<u8>, s: Seq<(Seq<u8>, T)>, t: Seq<u8>, v: T)
    ensures
        prefix_all(h, insert_sorted(s, t, v)) == insert_sorted(prefix_all(h, s), h + t, v),
    decreases s.len(),
{
    let p = prefix_all(h, s);
    if s.len() == 0 {
        assert(prefix_all(h, seq![(t, v)]) =~= seq![(h + t, v)]);
    } else {
        assert(p.drop_first() =~= prefix_all(h, s.drop_first()));
        assert(p[0] == (h + s[0].0, s[0].1));
        lemma_lt_common_prefix(h, t, s[0].0);
        if s[0].0 != t {
            assert((h + s[0].0).subrange(h.len() as int, (h + s[0].0).len() as int) =~= s[0].0);
            assert((h + t).subrange(h.len() as int, (h + t).len() as int) =~= t);
        }
        if s[0].0 == t {
            assert(prefix_all(h, seq![(t, v)] + s.drop_first()) =~= seq![(h + t, v)]
                + p.drop_first());
        } else if lex_lt(t, s[0].0) {
            assert(prefix_all(h, seq![(t, v)] + s) =~= seq![(h + t, v)] + p);
        } else {
            lemma_insert_prefix(h, s.drop_first(), t, v);
            assert(prefix_all(h, seq![s[0]] + insert_sorted(s.drop_first(), t, v)) =~= seq![p[0]]
                + prefix_all(h, insert_sorted(s.drop_first(), t, v)));
        }
    }
}

pub proof fn lemma_remove_absent<T>(s: Seq<(Seq<u8>, T)>, k: Seq<u8>)
    requires
        lookup(s, k) is None,
    ensures
        remove_key(s, k) == s,
    decreases s.len(),
{
    if s.len() > 0 {
        lemma_remove_absent(s.drop_first(), k);
        assert(seq![s[0]] + s.drop_first() =~= s);
    }
}

pub proof fn lemma_remove_append<T>(a: Seq<(Seq<u8>, T)>, b: Seq<(Seq<u8>, T)>, k: Seq<u8>)
    ensures
        lookup(a, k) is None ==> remove_key(a + b, k) == a + remove_key(b, k),
        lookup(b, k) is None ==> remove_key(a + b, k) == remove_key(a, k) + b,
    decreases a.len(),
{
    if a.len() == 0 {
        assert(a + b =~= b);
        assert(a + remove_key(b, k) =~= remove_key(b, k));
        if lookup(b, k) is None {
            lemma_remove_absent(b, k);
        }
    } else {
        assert((a + b)[0] == a[0]);
        assert((a + b).drop_first() =~= a.drop_first() + b);
        lemma_remove_append(a.drop_first(), b, k);
        if a[0].0 != k {
            assert(seq![a[0]] + (a.drop_first() + remove_key(b, k)) =~= a + remove_key(b, k));
            assert(seq![a[0]] + (remove_key(a.drop_first(), k) + b) =~= (seq![a[0]]
                + remove_key(a.drop_first(), k)) + b);
        }
    }
}

pub proof fn lemma_remove_prefix<T>(h: Seq<u8>, s: Seq<(Seq<u8>, T)>, t: Seq<u8>)
    ensures
        prefix_all(h, remove_key(s, t)) == remove_key(prefix_all(h, s), h + t),
    decreases s.len(),
{
    let p = prefix_all(h, s);
    if s.len() > 0 {
        assert(p.drop_first() =~= prefix_all(h, s.drop_first()));
        assert(p[0] == (h + s[0].0, s[0].1));
        if s[0].0 != t {
            assert((h + s[0].0).subrange(h.len() as int, (h + s[0].0).len() as int) =~= s[0].0);
            assert((h + t).subrange(h.len() as int, (h + t).len() as int) =~= t);
            lemma_remove_prefix(h, s.drop_first(), t);
            assert(prefix_all(h, seq![s[0]] + remove_key(s.drop_first(), t)) =~= seq![p[0]]
                + prefix_all(h, remove_key(s.drop_first(), t)));
        }
    }
}

pub proof fn lemma_next_append<T>(a: Seq<(Seq<u8>, T)>, b: Seq<(Seq<u8>, T)>, k: Seq<u8>)
    ensures
        next_after(a + b, k) == (if next_after(a, k) is Some {
            next_after(a, k)
        } else {
            next_after(b, k)
        }),
    decreases a.len(),
{
    if a.len() == 0 {
        assert(a + b =~= b);
    } else {
        assert((a + b)[0] == a[0]);
        assert((a + b).drop_first() =~= a.drop_first() + b);
        lemma_next_append(a.drop_first(), b, k);
    }
}

/// With every key after `k`, the next pair is the first.
pub proof fn lemma_next_all_after<T>(s: Seq<(Seq<u8>, T)>, k: Seq<u8>)
    requires
        all_after(s, k),
    ensures
        next_after(s, k) == (if s.len() > 0 {
            Some(s[0])
        } else {
            None
        }),
{
}

/// With no key after `k`, there is no next pair.
pub proof fn lemma_next_none_after<T>(s: Seq<(Seq<u8>, T)>, k: Seq<u8>)
    requires
        forall|i: int| 0 <= i < s.len() ==> !lex_lt(k, #[trigger] s[i].0),
    ensures
        next_after(s, k) is None,
    decreases s.len(),
{
    if s.len() > 0 {
        assert forall|i: int| 0 <= i < s.drop_first().len() implies !lex_lt(
            k,
            #[trigger] s.drop_first()[i].0,
        ) by {
            assert(s.drop_first()[i] == s[i + 1]);
        }
        lemma_next_none_after(s.drop_first(), k);
    }
}

pub proof fn lemma_next_prefix<T>(h: Seq<u8>, s: Seq<(Seq<u8>, T)>, t: Seq<u8>)
    ensures
        next_after(prefix_all(h, s), h + t) == (match next_after(s, t) {
            Some(p) => Some((h + p.0, p.1)),
            None => None,
        }),
    decreases s.len(),
{
    let p = prefix_all(h, s);
    if s.len() > 0 {
        assert(p.drop_first() =~= prefix_all(h, s.drop_first()));
        lemma_lt_common_prefix(h, t, s[0].0);
        lemma_next_prefix(h, s.drop_first(), t);
    }
}

pub proof fn lemma_lookup_outside<T>(s: Seq<(Seq<u8>, T)>, k: Seq<u8>)
    requires
        all_before(s, k) || all_after(s, k),
    ensures
        lookup(s, k) is None,
{
    lemma_lookup_some(s, k);
    lemma_lt_irreflexive(k);
}

/// Keys around a middle part that sort before and after `k` do not matter to it.
pub proof fn lemma_around<T>(
    a: Seq<(Seq<u8>, T)>,
    c: Seq<(Seq<u8>, T)>,
    z: Seq<(Seq<u8>, T)>,
    k: Seq<u8>,
    v: T,
)
    requires
        all_before(a, k),
        all_after(z, k),
    ensures
        lookup(a + (c + z), k) == lookup(c, k),
        insert_sorted(a + (c + z), k, v) == a + (insert_sorted(c, k, v) + z),
        remove_key(a + (c + z), k) == a + (remove_key(c, k) + z),
        next_after(a + (c + z), k) == next_after(c + z, k),
{
    lemma_lookup_outside(a, k);
    lemma_lookup_outside(z, k);
    lemma_lookup_append(a, c + z, k);
    lemma_lookup_append(c, z, k);
    lemma_insert_append_left(a, c + z, k, v);
    lemma_insert_append_right(c, z, k, v);
    lemma_remove_append(a, c + z, k);
    lemma_remove_append(c, z, k);
    lemma_next_append(a, c + z, k);
    assert forall|i: int| 0 <= i < a.len() implies !lex_lt(k, #[trigger] a[i].0) by {
        lemma_lt_asymmetric(a[i].0, k);
    }
    lemma_next_none_after(a, k);
}

/// A string never sorts before one of its prefixes.
pub proof fn lemma_prefix_not_after(d: Seq<u8>, x: Seq<u8>)
    requires
        d.is_prefix_of(x),
    ensures
        !lex_lt(x, d),
    decreases d.len(),
{
    if d.len() > 0 {
        assert(d.drop_first().is_prefix_of(x.drop_first())) by {
            assert forall|i: int| 0 <= i < d.drop_first().len() implies d.drop_first()[i]
                == x.drop_first()[i] by {
                assert(d[i + 1] == x[i + 1]);
            }
        }
        lemma_prefix_not_after(d.drop_first(), x.drop_first());
    }
}

pub proof fn lemma_holds_dir_prefix<T>(h: Seq<u8>, s: Seq<(Seq<u8>, T)>, t: Seq<u8>)
    requires
        t.len() > 0,
    ensures
        holds_dir(prefix_all(h, s), h + t) == holds_dir(s, t),
{
    let p = prefix_all(h, s);
    let d = h + t;
    assert(d[d.len() - 1] == t[t.len() - 1]);
    if holds_dir(s, t) {
        let i = choose|i: int|
            0 <= i < s.len() && t.len() < (#[trigger] s[i]).0.len() && t.is_prefix_of(s[i].0);
        assert(p[i].0 == h + s[i].0);
        assert(d.is_prefix_of(p[i].0)) by {
            assert forall|k: int| 0 <= k < d.len() implies d[k] == p[i].0[k] by {
                if k >= h.len() {
                    assert(t[k - h.len()] == s[i].0[k - h.len()]);
                }
            }
        }
    }
    if holds_dir(p, d) {
        let i = choose|i: int|
            0 <= i < p.len() && d.len() < (#[trigger] p[i]).0.len() && d.is_prefix_of(p[i].0);
        assert(p[i].0 == h + s[i].0);
        assert(t.is_prefix_of(s[i].0)) by {
            assert forall|k: int| 0 <= k < t.len() implies t[k] == s[i].0[k] by {
                assert(d[k + h.len()] == p[i].0[k + h.len()]);
            }
        }
    }
}

/// A file whose key ends with the separator lies on the way to `k`.
pub open spec fn file_on_path<T>(s: Seq<(Seq<u8>, T)>, k: Seq<u8>) -> bool {
    exists|i: int|
        0 <= i < s.len() && (#[trigger] s[i]).0.len() < k.len() && s[i].0.len() > 0 && s[i].0[s[i].0.len() - 1] == SLASH
            && s[i].0.is_prefix_of(k)
}

/// Adding a file at `k` would make a key name both a file and a directory.
pub open spec fn conflicts<T>(s: Seq<(Seq<u8>, T)>, k: Seq<u8>) -> bool {
    holds_dir(s, k) || file_on_path(s, k)
}

pub proof fn lemma_conflicts_prefix<T>(h: Seq<u8>, s: Seq<(Seq<u8>, T)>, t: Seq<u8>)
    requires
        t.len() > 0,
    ensures
        conflicts(s, t) ==> conflicts(prefix_all(h, s), h + t),
{
    lemma_holds_dir_prefix(h, s, t);
    let p = prefix_all(h, s);
    if file_on_path(s, t) {
        let i = choose|i: int|
            0 <= i < s.len() && (#[trigger] s[i]).0.len() < t.len() && s[i].0.len() > 0 && s[i].0[s[i].0.len() - 1] == SLASH
                && s[i].0.is_prefix_of(t);
        assert(p[i].0 == h + s[i].0);
        assert(p[i].0.is_prefix_of(h + t)) by {
            assert forall|k: int| 0 <= k < p[i].0.len() implies p[i].0[k] == (h + t)[k] by {
                if k >= h.len() {
                    assert(s[i].0[k - h.len()] == t[k - h.len()]);
                }
            }
        }
        assert(p[i].0[p[i].0.len() - 1] == s[i].0[s[i].0.len() - 1]);
    }
}

pub proof fn lemma_conflicts_middle<T>(
    a: Seq<(Seq<u8>, T)>,
    c: Seq<(Seq<u8>, T)>,
    z: Seq<(Seq<u8>, T)>,
    k: Seq<u8>,
)
    ensures
        conflicts(c, k) ==> conflicts(a + (c + z), k),
{
    let l = a + (c + z);
    if holds_dir(c, k) {
        let i = choose|i: int|
            0 <= i < c.len() && k.len() < (#[trigger] c[i]).0.len() && k.is_prefix_of(c[i].0);
        assert(l[i + a.len()] == c[i]);
    }
    if file_on_path(c, k) {
        let i = choose|i: int|
            0 <= i < c.len() && (#[trigger] c[i]).0.len() < k.len() && c[i].0.len() > 0 && c[i].0[c[i].0.len() - 1] == SLASH
                && c[i].0.is_prefix_of(k);
        assert(l[i + a.len()] == c[i]);
    }
}

/// Setting a key adds one pair exactly when the key was not there.
pub proof fn lemma_insert_len<T>(s: Seq<(Seq<u8>, T)>, k: Seq<u8>, v: T)
    requires
        sorted(s),
    ensures
        insert_sorted(s, k, v).len() == s.len() + (if lookup(s, k) is None {
            1int
        } else {
            0
        }),
    decreases s.len(),
{
    if s.len() > 0 && s[0].0 != k && !lex_lt(k, s[0].0) {
        assert(sorted(s.drop_first())) by {
            assert forall|i: int, j: int| 0 <= i < j < s.drop_first().len() implies lex_lt(
                #[trigger] s.drop_first()[i].0,
                #[trigger] s.drop_first()[j].0,
            ) by {
                assert(s.drop_first()[i] == s[i + 1] && s.drop_first()[j] == s[j + 1]);
            }
        }
        lemma_insert_len(s.drop_first(), k, v);
    }
    if s.len() > 0 && s[0].0 != k && lex_lt(k, s[0].0) {
        assert forall|i: int| 0 <= i < s.len() implies lex_lt(k, #[trigger] s[i].0) by {
            if i > 0 {
                lemma_lt_transitive(k, s[0].0, s[i].0);
            }
        }
        lemma_lookup_outside(s, k);
    }
}

/// Removing a key drops one pair exactly when the key was there.
pub proof fn lemma_remove_len<T>(s: Seq<(Seq<u8>, T)>, k: Seq<u8>)
    ensures
        remove_key(s, k).len() == s.len() - (if lookup(s, k) is Some {
            1int
        } else {
            0
        }),
    decreases s.len(),
{
    if s.len() > 0 && s[0].0 != k {
        lemma_remove_len(s.drop_first(), k);
    }
}

} // verus!
