//! The byte format of a stored directory.
//!
//! A block holds the number of entries as a big-endian `u32`, then each entry in
//! key order:
//!
//! * a file: the byte `f`, the encoded file state, the name's length as a
//!   big-endian `u32`, the name;
//! * a directory: the byte `d`, the block id of the directory as a big-endian
//!   `u64`, the name's length as a big-endian `u32`, the name.

use crate::bytes::{
    be32,
    be32_bytes,
    be64,
    be64_bytes,
    lemma_be32_round_trip,
    lemma_be64_round_trip,
    push_be_u32,
    push_be_u64,
    read_be_u32,
    read_be_u64,
};
use crate::node::{raw_of, Node, NodeEntry};
use crate::storable::Storable;
use crate::store::{BlockId, TreeError};
use vstd::prelude::*;
use vstd::slice::{slice_subrange, slice_to_vec};

verus! {

/// The tag of a file entry, `f`.
pub const TAG_FILE: u8 = 0x66;

/// The tag of a directory entry, `d`.
pub const TAG_DIR: u8 = 0x64;

/// The largest count or name length that the format can hold.
pub const MAX_LEN: u64 = 0xffff_ffff;

/// An entry as a block holds it: a file state, or the block id of a directory.
pub enum RawEntry<T> {
    File(T),
    Directory(u64),
}

pub open spec fn encode_entry<T: Storable>(name: Seq<u8>, e: RawEntry<T>) -> Seq<u8> {
    match e {
        RawEntry::File(v) => seq![TAG_FILE] + v.encoded() + be32_bytes(name.len() as u32) + name,
        RawEntry::Directory(id) => seq![TAG_DIR] + be64_bytes(id) + be32_bytes(name.len() as u32)
            + name,
    }
}

pub open spec fn encode_entries<T: Storable>(es: Seq<(Seq<u8>, RawEntry<T>)>) -> Seq<u8>
    decreases es.len(),
{
    if es.len() == 0 {
        Seq::empty()
    } else {
        encode_entry(es[0].0, es[0].1) + encode_entries(es.drop_first())
    }
}

/// The block that holds the given entries.
pub open spec fn encode_block<T: Storable>(es: Seq<(Seq<u8>, RawEntry<T>)>) -> Seq<u8> {
    be32_bytes(es.len() as u32) + encode_entries(es)
}

/// The count and every name length fit the format.
pub open spec fn encodable<T>(es: Seq<(Seq<u8>, RawEntry<T>)>) -> bool {
    &&& es.len() <= MAX_LEN
    &&& forall|i: int| 0 <= i < es.len() ==> (#[trigger] es[i]).0.len() <= MAX_LEN
}

/// Reads a name-length field at `p` and the name after it.
pub open spec fn parse_name<T>(s: Seq<u8>, p: int, e: RawEntry<T>) -> Option<
    (Seq<u8>, RawEntry<T>, int),
> {
    if 0 <= p && p + 4 <= s.len() {
        let n = be32(s.subrange(p, p + 4)) as int;
        if p + 4 + n <= s.len() {
            Some((s.subrange(p + 4, p + 4 + n), e, p + 4 + n))
        } else {
            None
        }
    } else {
        None
    }
}

/// The entry at the start of `s`: its name, the entry, and how many bytes it takes.
pub open spec fn parse_entry<T: Storable>(s: Seq<u8>) -> Option<(Seq<u8>, RawEntry<T>, int)> {
    if s.len() == 0 {
        None
    } else if s[0] == TAG_FILE {
        match T::decoded(s.subrange(1, s.len() as int)) {
            Some((v, n)) => parse_name(s, 1 + n as int, RawEntry::File(v)),
            None => None,
        }
    } else if s[0] == TAG_DIR {
        if s.len() >= 9 {
            parse_name(s, 9, RawEntry::Directory(be64(s.subrange(1, 9))))
        } else {
            None
        }
    } else {
        None
    }
}

/// Exactly `count` entries that take all of `s`.
pub open spec fn parse_entries<T: Storable>(s: Seq<u8>, count: nat) -> Option<
    Seq<(Seq<u8>, RawEntry<T>)>,
>
    decreases count,
{
    if count == 0 {
        if s.len() == 0 {
            Some(Seq::empty())
        } else {
            None
        }
    } else {
        match parse_entry::<T>(s) {
            Some((name, e, used)) => match parse_entries::<T>(
                s.subrange(used, s.len() as int),
                (count - 1) as nat,
            ) {
                Some(rest) => Some(seq![(name, e)] + rest),
                None => None,
            },
            None => None,
        }
    }
}

/// The entry at the start of `s` is a file whose state cannot be decoded.
pub open spec fn payload_fails<T: Storable>(s: Seq<u8>) -> bool {
    &&& s.len() > 0
    &&& s[0] == TAG_FILE
    &&& match T::decoded(s.subrange(1, s.len() as int)) {
        Some((_, n)) => 1 + n > s.len(),
        None => true,
    }
}

/// Why the entry at the start of `s` cannot be read: its file state cannot be
/// decoded, or else the bytes are corrupt (an unknown tag, a short id or
/// name-length field, a name that runs past the end).
pub open spec fn entry_error<T: Storable>(s: Seq<u8>) -> TreeError {
    if payload_fails::<T>(s) {
        TreeError::PayloadDecode
    } else {
        TreeError::CorruptTree
    }
}

/// Why `s` does not hold exactly `count` entries: the first entry that cannot be
/// read, or else corruption (bytes left over once `count` entries are read).
pub open spec fn entries_error<T: Storable>(s: Seq<u8>, count: nat) -> TreeError
    decreases count,
{
    if count == 0 {
        TreeError::CorruptTree
    } else {
        match parse_entry::<T>(s) {
            Some((_, _, used)) => entries_error::<T>(s.subrange(used, s.len() as int), (count - 1) as nat),
            None => entry_error::<T>(s),
        }
    }
}

/// Why a block that does not parse fails: shorter than its count field is
/// corruption; otherwise as `entries_error`.
pub open spec fn block_error<T: Storable>(s: Seq<u8>) -> TreeError {
    if s.len() >= 4 {
        entries_error::<T>(s.subrange(4, s.len() as int), be32(s.subrange(0, 4)) as nat)
    } else {
        TreeError::CorruptTree
    }
}

/// The entries that a block holds, if it is well formed.
pub open spec fn parse_block<T: Storable>(s: Seq<u8>) -> Option<Seq<(Seq<u8>, RawEntry<T>)>> {
    if s.len() >= 4 {
        parse_entries::<T>(s.subrange(4, s.len() as int), be32(s.subrange(0, 4)) as nat)
    } else {
        None
    }
}

pub open spec fn prepend_some<A>(p: Seq<A>, o: Option<Seq<A>>) -> Option<Seq<A>> {
    match o {
        Some(s) => Some(p + s),
        None => None,
    }
}

pub proof fn lemma_parse_entry_encoded<T: Storable>(
    name: Seq<u8>,
    e: RawEntry<T>,
    rest: Seq<u8>,
)
    requires
        name.len() <= MAX_LEN,
    ensures
        parse_entry::<T>(encode_entry(name, e) + rest) == Some(
            (name, e, encode_entry(name, e).len() as int),
        ),
{
    let s = encode_entry(name, e) + rest;
    lemma_be32_round_trip(name.len() as u32);
    match e {
        RawEntry::File(v) => {
            let p: int = 1 + v.encoded().len() as int;
            assert(s.subrange(1, s.len() as int) =~= v.encoded() + (be32_bytes(name.len() as u32)
                + name + rest));
            T::lemma_decode_encoded(v, be32_bytes(name.len() as u32) + name + rest);
            assert(s.subrange(p, p + 4) =~= be32_bytes(name.len() as u32));
            assert(s.subrange(p + 4, p + 4 + name.len()) =~= name);
        },
        RawEntry::Directory(id) => {
            lemma_be64_round_trip(id);
            assert(s.subrange(1, 9) =~= be64_bytes(id));
            assert(s.subrange(9, 13) =~= be32_bytes(name.len() as u32));
            assert(s.subrange(13, 13 + name.len() as int) =~= name);
        },
    }
}

pub proof fn lemma_parse_entries_encoded<T: Storable>(es: Seq<(Seq<u8>, RawEntry<T>)>)
    requires
        encodable(es),
    ensures
        parse_entries::<T>(encode_entries(es), es.len()) == Some(es),
    decreases es.len(),
{
    if es.len() > 0 {
        let tail = es.drop_first();
        let first = encode_entry(es[0].0, es[0].1);
        let rest = encode_entries(tail);
        let s = encode_entries(es);
        assert(s == first + rest);
        assert(es[0].0.len() <= MAX_LEN);
        lemma_parse_entry_encoded(es[0].0, es[0].1, rest);
        assert(s.subrange(first.len() as int, s.len() as int) =~= rest);
        assert(encodable(tail)) by {
            assert forall|i: int| 0 <= i < tail.len() implies (#[trigger] tail[i]).0.len()
                <= MAX_LEN by {
                assert(tail[i] == es[i + 1]);
            }
        }
        lemma_parse_entries_encoded(tail);
        assert(seq![(es[0].0, es[0].1)] + tail =~= es);
    } else {
        assert(es =~= Seq::empty());
    }
}

/// Reading back a block gives the entries that were written.
pub proof fn lemma_parse_block_encoded<T: Storable>(es: Seq<(Seq<u8>, RawEntry<T>)>)
    requires
        encodable(es),
    ensures
        parse_block::<T>(encode_block(es)) == Some(es),
{
    let s = encode_block(es);
    lemma_be32_round_trip(es.len() as u32);
    assert(s.subrange(0, 4) =~= be32_bytes(es.len() as u32));
    assert(s.subrange(4, s.len() as int) =~= encode_entries(es));
    lemma_parse_entries_encoded(es);
}

pub proof fn lemma_encode_entries_push<T: Storable>(
    es: Seq<(Seq<u8>, RawEntry<T>)>,
    e: (Seq<u8>, RawEntry<T>),
)
    ensures
        encode_entries(es.push(e)) == encode_entries(es) + encode_entry(e.0, e.1),
    decreases es.len(),
{
    if es.len() == 0 {
        assert(es.push(e)[0] == e);
        assert(encode_entries(es) == Seq::<u8>::empty());
        assert(encode_entries(Seq::<(Seq<u8>, RawEntry<T>)>::empty()) == Seq::<u8>::empty());
        assert(es.push(e).drop_first() =~= Seq::<(Seq<u8>, RawEntry<T>)>::empty());
        assert(encode_entry(e.0, e.1) + Seq::<u8>::empty() =~= encode_entry(e.0, e.1));
        assert(Seq::<u8>::empty() + encode_entry(e.0, e.1) =~= encode_entry(e.0, e.1));
    } else {
        assert(es.push(e).drop_first() =~= es.drop_first().push(e));
        assert(es.push(e)[0] == es[0]);
        lemma_encode_entries_push(es.drop_first(), e);
        assert(encode_entry(es[0].0, es[0].1) + (encode_entries(es.drop_first()) + encode_entry(
            e.0,
            e.1,
        )) =~= encode_entry(es[0].0, es[0].1) + encode_entries(es.drop_first()) + encode_entry(
            e.0,
            e.1,
        ));
    }
}

pub proof fn lemma_parsed_entries_encodable<T: Storable>(s: Seq<u8>, count: nat)
    ensures
        parse_entries::<T>(s, count) is Some ==> {
            let es = parse_entries::<T>(s, count)->Some_0;
            &&& es.len() == count
            &&& forall|i: int| 0 <= i < es.len() ==> (#[trigger] es[i]).0.len() <= MAX_LEN
        },
    decreases count,
{
    if count > 0 {
        if let Some((name, e, used)) = parse_entry::<T>(s) {
            let rest = s.subrange(used, s.len() as int);
            lemma_parsed_entries_encodable::<T>(rest, (count - 1) as nat);
            if parse_entries::<T>(s, count) is Some {
                let es = parse_entries::<T>(s, count)->Some_0;
                let r = parse_entries::<T>(rest, (count - 1) as nat)->Some_0;
                assert forall|i: int| 0 <= i < es.len() implies (#[trigger] es[i]).0.len() <= MAX_LEN by {
                    if i > 0 {
                        assert(es[i] == r[i - 1]);
                    }
                }
            }
        }
    }
}

/// A block that parses holds no more entries, and no longer names, than the format allows.
pub proof fn lemma_parsed_encodable<T: Storable>(s: Seq<u8>)
    ensures
        parse_block::<T>(s) is Some ==> encodable(parse_block::<T>(s)->Some_0),
{
    if s.len() >= 4 {
        lemma_parsed_entries_encodable::<T>(s.subrange(4, s.len() as int), be32(s.subrange(0, 4)) as nat);
    }
}

/// Reads the name-length field at `p` and the name after it.
fn read_name<T>(data: &[u8], p: usize, e: RawEntry<T>) -> (r: Result<
    (Vec<u8>, RawEntry<T>, usize),
    TreeError,
>)
    ensures
        match r {
            Ok((name, e2, end)) => parse_name(data@, p as int, e) == Some((name@, e2, end as int)),
            Err(err) => parse_name(data@, p as int, e) is None && err == TreeError::CorruptTree,
        },
{
    if p > data.len() || data.len() - p < 4 {
        return Err(TreeError::CorruptTree);
    }
    let n = read_be_u32(data, p);
    if data.len() - p - 4 < n as usize {
        return Err(TreeError::CorruptTree);
    }
    let end = p + 4 + n as usize;
    let name = slice_to_vec(slice_subrange(data, p + 4, end));
    Ok((name, e, end))
}

/// Reads the entry that starts at `pos`: its name, the entry and the position after it.
fn read_entry<T: Storable>(data: &[u8], pos: usize) -> (r: Result<
    (Vec<u8>, RawEntry<T>, usize),
    TreeError,
>)
    requires
        pos <= data@.len(),
    ensures
        match r {
            Ok((name, e, end)) => parse_entry::<T>(data@.subrange(pos as int, data@.len() as int))
                == Some((name@, e, end - pos)) && pos < end <= data@.len(),
            Err(err) => {
                &&& parse_entry::<T>(data@.subrange(pos as int, data@.len() as int)) is None
                &&& err == entry_error::<T>(data@.subrange(pos as int, data@.len() as int))
            },
        },
{
    let ghost s = data@.subrange(pos as int, data@.len() as int);
    if pos == data.len() {
        return Err(TreeError::CorruptTree);
    }
    let tag = data[pos];
    if tag == TAG_FILE {
        let (v, after) = match T::read(data, pos + 1) {
            Ok(x) => x,
            Err(e) => {
                assert(s.subrange(1, s.len() as int) =~= data@.subrange(
                    pos + 1,
                    data@.len() as int,
                ));
                return Err(e);
            },
        };
        assert(s.subrange(1, s.len() as int) =~= data@.subrange(pos + 1, data@.len() as int));
        let r = read_name(data, after, RawEntry::File(v));
        proof {
            lemma_parse_name_shift(data@, pos as int, after - pos, RawEntry::File(v));
        }
        match r {
            Ok((name, e, end)) => Ok((name, e, end)),
            Err(e) => Err(e),
        }
    } else if tag == TAG_DIR {
        if data.len() - pos < 9 {
            return Err(TreeError::CorruptTree);
        }
        let id = read_be_u64(data, pos + 1);
        assert(s.subrange(1, 9) =~= data@.subrange(pos + 1, pos + 9));
        let r = read_name(data, pos + 9, RawEntry::Directory(id));
        proof {
            lemma_parse_name_shift(data@, pos as int, 9, RawEntry::<T>::Directory(id));
        }
        r
    } else {
        Err(TreeError::CorruptTree)
    }
}

proof fn lemma_parse_name_shift<T>(data: Seq<u8>, pos: int, p: int, e: RawEntry<T>)
    requires
        0 <= pos <= data.len(),
        0 <= p,
    ensures
        match parse_name(data, pos + p, e) {
            Some((name, e2, end)) => parse_name(data.subrange(pos, data.len() as int), p, e)
                == Some((name, e2, end - pos)),
            None => parse_name(data.subrange(pos, data.len() as int), p, e) is None,
        },
{
    let s = data.subrange(pos, data.len() as int);
    if p + 4 <= s.len() {
        assert(s.subrange(p, p + 4) =~= data.subrange(pos + p, pos + p + 4));
        let n = be32(s.subrange(p, p + 4)) as int;
        if p + 4 + n <= s.len() {
            assert(s.subrange(p + 4, p + 4 + n) =~= data.subrange(pos + p + 4, pos + p + 4 + n));
        }
    }
}

/// Parses a whole block into its entries, in the order they are stored.
pub(crate) fn read_block<T: Storable>(data: &[u8]) -> (r: Result<Vec<(Vec<u8>, NodeEntry<T>)>, TreeError>)
    ensures
        match r {
            Ok(es) => parse_block::<T>(data@) == Some(raw_of(es@)) && forall|i: int|
                0 <= i < es@.len() && (#[trigger] es@[i]).1 is Directory ==> es@[i].1->Directory_0.entries
                    is None && es@[i].1->Directory_0.id is Some,
            Err(e) => parse_block::<T>(data@) is None && e == block_error::<T>(data@),
        },
{
    if data.len() < 4 {
        return Err(TreeError::CorruptTree);
    }
    let count = read_be_u32(data, 0);
    let ghost total = data@.subrange(4, data@.len() as int);
    let mut out: Vec<(Vec<u8>, NodeEntry<T>)> = Vec::new();
    let mut pos: usize = 4;
    let mut i: u32 = 0;
    assert(total =~= data@.subrange(pos as int, data@.len() as int));
    while i < count
        invariant
            4 <= pos <= data@.len(),
            i <= count,
            forall|k: int|
                0 <= k < out@.len() && (#[trigger] out@[k]).1 is Directory ==> out@[k].1->Directory_0.entries
                    is None && out@[k].1->Directory_0.id is Some,
            total == data@.subrange(4, data@.len() as int),
            count == be32(data@.subrange(0, 4)),
            entries_error::<T>(total, count as nat) == entries_error::<T>(
                data@.subrange(pos as int, data@.len() as int),
                (count - i) as nat,
            ),
            parse_entries::<T>(total, count as nat) == prepend_some(
                raw_of(out@),
                parse_entries::<T>(
                    data@.subrange(pos as int, data@.len() as int),
                    (count - i) as nat,
                ),
            ),
        decreases count - i,
    {
        let ghost s = data@.subrange(pos as int, data@.len() as int);
        let (name, e, end) = match read_entry::<T>(data, pos) {
            Ok(x) => x,
            Err(err) => {
                return Err(err);
            },
        };
        assert(s.subrange(end - pos, s.len() as int) =~= data@.subrange(
            end as int,
            data@.len() as int,
        ));
        let entry = match e {
            RawEntry::File(v) => NodeEntry::File(v),
            RawEntry::Directory(c) => NodeEntry::Directory(Node::open(BlockId(c))),
        };
        assert(raw_of(out@.push((name, entry))) =~= raw_of(out@) + seq![(name@, e)]);
        proof {
            let rest = parse_entries::<T>(
                data@.subrange(end as int, data@.len() as int),
                (count - i - 1) as nat,
            );
            match rest {
                Some(r) => {
                    assert(raw_of(out@) + (seq![(name@, e)] + r) =~= raw_of(out@) + seq![
                        (name@, e),
                    ] + r);
                },
                None => {},
            }
        }
        out.push((name, entry));
        pos = end;
        i = i + 1;
    }
    if pos != data.len() {
        return Err(TreeError::CorruptTree);
    }
    assert(raw_of(out@) + Seq::empty() =~= raw_of(out@));
    Ok(out)
}

/// Appends a file entry to `out`.
pub fn push_file_entry<T: Storable>(out: &mut Vec<u8>, name: &[u8], v: &T)
    requires
        name@.len() <= MAX_LEN,
    ensures
        final(out)@ == old(out)@ + encode_entry(name@, RawEntry::File(*v)),
{
    out.push(TAG_FILE);
    v.write(out);
    push_be_u32(out, name.len() as u32);
    let ghost before = out@;
    out.extend_from_slice(name);
    assert(out@ =~= before + name@);
    assert(out@ =~= old(out)@ + encode_entry(name@, RawEntry::File(*v)));
}

/// Appends a directory entry to `out`.
pub fn push_dir_entry<T: Storable>(out: &mut Vec<u8>, name: &[u8], id: u64)
    requires
        name@.len() <= MAX_LEN,
    ensures
        final(out)@ == old(out)@ + encode_entry(name@, RawEntry::<T>::Directory(id)),
{
    out.push(TAG_DIR);
    push_be_u64(out, id);
    push_be_u32(out, name.len() as u32);
    let ghost before = out@;
    out.extend_from_slice(name);
    assert(out@ =~= before + name@);
    assert(out@ =~= old(out)@ + encode_entry(name@, RawEntry::<T>::Directory(id)));
}

} // verus!
