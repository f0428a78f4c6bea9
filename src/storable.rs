//! File states that the tree can store, and the per-file state of a working copy.

use crate::bytes::{be32, be32_bytes, lemma_be32_round_trip, push_be_u32, read_be_u32};
use crate::store::TreeError;
use vstd::prelude::*;

verus! {

/// A value that can be stored as the state of a file in the tree.
///
/// Its encoding is self-delimiting: decoding the encoding of a value, whatever
/// follows it, gives back that value and its length.
pub trait Storable: Sized {
    /// The bytes that `write` produces.
    spec fn encoded(&self) -> Seq<u8>;

    /// What `read` makes of the bytes at the start of a sequence, and how many it takes.
    spec fn decoded(bytes: Seq<u8>) -> Option<(Self, nat)>;

    proof fn lemma_decode_encoded(v: Self, rest: Seq<u8>)
        ensures
            Self::decoded(v.encoded() + rest) == Some((v, v.encoded().len())),
    ;

    /// Serializes the value onto the end of `out`.
    fn write(&self, out: &mut Vec<u8>)
        ensures
            final(out)@ == old(out)@ + self.encoded(),
    ;

    /// Deserializes a value from `data` at `pos`; returns it and the position after it.
    /// Where the bytes hold no value it fails with `PayloadDecode`.
    fn read(data: &[u8], pos: usize) -> (r: Result<(Self, usize), TreeError>)
        requires
            pos <= data@.len(),
        ensures
            match r {
                Ok((v, end)) => {
                    &&& pos <= end <= data@.len()
                    &&& Self::decoded(data@.subrange(pos as int, data@.len() as int)) == Some(
                        (v, (end - pos) as nat),
                    )
                },
                Err(e) => e == TreeError::PayloadDecode && match Self::decoded(
                    data@.subrange(pos as int, data@.len() as int),
                ) {
                    Some((_, n)) => pos + n > data@.len(),
                    None => true,
                },
            },
    ;

    /// A copy of the value.
    fn duplicate(&self) -> (r: Self)
        ensures
            r == *self,
    ;
}

/// The state of one file: a status byte, its mode, its size and its modification time.
#[derive(Clone, Copy, Debug, PartialEq, Eq, Structural)]
pub struct FileState {
    pub state: u8,
    pub mode: u32,
    pub size: i32,
    pub mtime: i32,
}

impl FileState {
    pub fn new(state: u8, mode: u32, size: i32, mtime: i32) -> (r: FileState)
        ensures
            r == (FileState { state, mode, size, mtime }),
    {
        FileState { state, mode, size, mtime }
    }
}

/// The number of bytes in an encoded file state.
pub const FILE_STATE_LEN: usize = 13;

impl Storable for FileState {
    open spec fn encoded(&self) -> Seq<u8> {
        seq![self.state] + be32_bytes(self.mode) + be32_bytes(self.size as u32) + be32_bytes(
            self.mtime as u32,
        )
    }

    open spec fn decoded(bytes: Seq<u8>) -> Option<(FileState, nat)> {
        if bytes.len() >= FILE_STATE_LEN {
            Some(
                (
                    FileState {
                        state: bytes[0],
                        mode: be32(bytes.subrange(1, 5)),
                        size: be32(bytes.subrange(5, 9)) as i32,
                        mtime: be32(bytes.subrange(9, 13)) as i32,
                    },
                    FILE_STATE_LEN as nat,
                ),
            )
        } else {
            None
        }
    }

    proof fn lemma_decode_encoded(v: FileState, rest: Seq<u8>) {
        let b = v.encoded() + rest;
        lemma_be32_round_trip(v.mode);
        lemma_be32_round_trip(v.size as u32);
        lemma_be32_round_trip(v.mtime as u32);
        assert(b.subrange(1, 5) =~= be32_bytes(v.mode));
        assert(b.subrange(5, 9) =~= be32_bytes(v.size as u32));
        assert(b.subrange(9, 13) =~= be32_bytes(v.mtime as u32));
        let (s, m) = (v.size, v.mtime);
        assert((s as u32) as i32 == s) by (bit_vector);
        assert((m as u32) as i32 == m) by (bit_vector);
    }

    fn write(&self, out: &mut Vec<u8>) {
        out.push(self.state);
        push_be_u32(out, self.mode);
        push_be_u32(out, self.size as u32);
        push_be_u32(out, self.mtime as u32);
        assert(out@ =~= old(out)@ + self.encoded());
    }

    fn read(data: &[u8], pos: usize) -> (r: Result<(FileState, usize), TreeError>) {
        if data.len() - pos < FILE_STATE_LEN {
            return Err(TreeError::PayloadDecode);
        }
        let state = data[pos];
        let mode = read_be_u32(data, pos + 1);
        let size = read_be_u32(data, pos + 5) as i32;
        let mtime = read_be_u32(data, pos + 9) as i32;
        proof {
            let b = data@.subrange(pos as int, data@.len() as int);
            assert(b.subrange(1, 5) =~= data@.subrange(pos + 1, pos + 5));
            assert(b.subrange(5, 9) =~= data@.subrange(pos + 5, pos + 9));
            assert(b.subrange(9, 13) =~= data@.subrange(pos + 9, pos + 13));
        }
        Ok((FileState { state, mode, size, mtime }, pos + FILE_STATE_LEN))
    }

    fn duplicate(&self) -> (r: FileState) {
        *self
    }
}

} // verus!
