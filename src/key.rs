//! Path keys and their first component.

use crate::order::{lemma_lt_extend, lemma_lt_irreflexive, lemma_lt_proper_prefix, lex_lt};
use vstd::prelude::*;
use vstd::slice::slice_subrange;

verus! {

/// The byte that ends a directory component.
pub const SLASH: u8 = 0x2f;

/// No separator appears before the last byte: the name of a file entry.
pub open spec fn is_file_name(s: Seq<u8>) -> bool {
    forall|i: int| 0 <= i < s.len() - 1 ==> #[trigger] s[i] != SLASH
}

/// A directory component: it ends with the separator and holds no other.
pub open spec fn is_dir_name(s: Seq<u8>) -> bool {
    &&& s.len() > 0
    &&& s[s.len() - 1] == SLASH
    &&& is_file_name(s)
}

/// A name that an entry of the given kind may have.  Below the root a file name is
/// not empty, so that no key names both a directory and a file.
pub open spec fn valid_name(name: Seq<u8>, dir: bool, nonroot: bool) -> bool {
    if dir {
        is_dir_name(name)
    } else {
        is_file_name(name) && (nonroot ==> name.len() > 0)
    }
}

/// Splits a key into its first path element and the remaining elements, if any.
///
/// A separator in the last position does not split: `dir/` is one element.
pub fn split_key(key: &[u8]) -> (r: (&[u8], Option<&[u8]>))
    ensures
        match r.1 {
            Some(tail) => is_dir_name(r.0@) && tail@.len() > 0 && key@ == r.0@ + tail@,
            None => r.0@ == key@ && is_file_name(key@),
        },
{
    let n = key.len();
    let mut i: usize = 0;
    while i < n && i + 1 < n
        invariant
            n == key@.len(),
            i <= n,
            forall|j: int| 0 <= j < i ==> key@[j] != SLASH,
        decreases n - i,
    {
        if key[i] == SLASH {
            let head = slice_subrange(key, 0, i + 1);
            let tail = slice_subrange(key, i + 1, n);
            assert(key@ =~= head@ + tail@);
            return (head, Some(tail));
        }
        i = i + 1;
    }
    (key, None)
}

/// Where two entry names are in order, so are all the keys below them.
pub proof fn lemma_component_order(
    m: Seq<u8>,
    mdir: bool,
    y: Seq<u8>,
    h: Seq<u8>,
    hdir: bool,
    t: Seq<u8>,
)
    requires
        lex_lt(m, h),
        valid_name(m, mdir, false),
        valid_name(h, hdir, false),
        !mdir ==> y.len() == 0,
        !hdir ==> t.len() == 0,
    ensures
        lex_lt(m + y, h + t),
{
    lemma_lt_irreflexive(m);
    if m.is_prefix_of(h) {
        if m.len() == h.len() {
            assert(m =~= h);
        }
        if mdir {
            assert(h[m.len() - 1] == m[m.len() - 1]);
        } else {
            let ht = h + t;
            let rest = ht.subrange(m.len() as int, ht.len() as int);
            assert(ht =~= m + rest);
            assert(rest.len() > 0);
            lemma_lt_proper_prefix(m, rest);
            assert(m + y =~= m);
        }
    } else {
        lemma_lt_extend(m, h, y, t);
    }
}

} // verus!
