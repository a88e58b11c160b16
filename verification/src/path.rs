//! Paths stored as raw bytes: POSIX paths are not guaranteed to be valid
//! Unicode. Empty bytes denote the root of the tree.

use vstd::prelude::*;

verus! {

/// A byte-exact path. Ordered byte-lexicographically wherever paths are kept
/// in a table.
#[derive(Debug)]
pub struct BytesPath {
    pub bytes: Vec<u8>,
}

impl View for BytesPath {
    type V = Seq<u8>;

    open spec fn view(&self) -> Seq<u8> {
        self.bytes@
    }
}

impl BytesPath {
    pub fn from_vec(bytes: Vec<u8>) -> (r: BytesPath)
        ensures
            r@ == bytes@,
    {
        BytesPath { bytes }
    }

    pub fn len(&self) -> (r: usize)
        ensures
            r == self@.len(),
    {
        self.bytes.len()
    }

    pub fn is_empty(&self) -> (r: bool)
        ensures
            r == (self@.len() == 0),
    {
        self.bytes.len() == 0
    }

    /// The raw bytes of the path.
    pub fn as_bytes(&self) -> (r: &[u8])
        ensures
            r@ == self@,
    {
        self.bytes.as_slice()
    }

    pub fn clone(&self) -> (r: BytesPath)
        ensures
            r@ == self@,
    {
        BytesPath { bytes: clone_bytes(&self.bytes) }
    }
}

/// Duplicate a byte vector; `u8` is `Copy`, so the clone holds equal bytes.
pub fn clone_bytes(v: &Vec<u8>) -> (r: Vec<u8>)
    ensures
        r@ == v@,
{
    let mut out: Vec<u8> = Vec::new();
    let mut i: usize = 0;
    while i < v.len()
        invariant
            i <= v@.len(),
            out@ == v@.subrange(0, i as int),
        decreases v@.len() - i,
    {
        out.push(v[i]);
        proof {
            assert(out@ =~= v@.subrange(0, i + 1));
        }
        i = i + 1;
    }
    proof {
        assert(out@ =~= v@);
    }
    out
}

} // verus!
