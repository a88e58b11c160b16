//! A single piece of data that makes up a file. Extents are immutable but can
//! be composed with other extents to implement mutable files on top of
//! immutable chunks.

use vstd::prelude::*;

use crate::buf::buf_clone;
use crate::buf::buf_contents;
use crate::buf::buf_eq;
use crate::buf::buf_from_vec;
use crate::buf::buf_len;
use crate::buf::buf_slice;

verus! {

/// A single contiguous run of file content from one source.
pub enum Extent {
    /// The source of truth for this data is the file that contains it: it
    /// originated from a write to that file, not a clone from another.
    Owned(bytes::Bytes),
    /// This extent came from part of another file.
    Cloned(Cloned),
    /// This extent was created by `truncate` past end-of-file; it carries no
    /// bytes and reads as zeros.
    Hole(u64),
}

/// A cloned extent references the byte range of the source file it was taken
/// from, for diagnostics of clone-based formats; `data` is the materialised
/// content, shared zero-copy with the source where possible.
pub struct Cloned {
    pub src_range: (u64, u64),
    pub data: bytes::Bytes,
}

impl View for Extent {
    type V = Seq<u8>;

    /// The bytes this extent contributes to a file, as seen by a reader:
    /// a hole reads as zeros.
    open spec fn view(&self) -> Seq<u8> {
        match self {
            Extent::Owned(b) => buf_contents(*b),
            Extent::Cloned(c) => buf_contents(c.data),
            Extent::Hole(n) => Seq::new(*n as nat, |i: int| 0u8),
        }
    }
}

impl Extent {
    /// The bytes physically stored by this extent: none for a hole.
    pub open spec fn stored(&self) -> Seq<u8> {
        match self {
            Extent::Hole(_) => Seq::<u8>::empty(),
            _ => self@,
        }
    }

    /// Structural equality: same shape, same stored bytes, and for cloned
    /// extents the same source provenance.
    pub open spec fn eq_spec(&self, other: &Extent) -> bool {
        match (self, other) {
            (Extent::Owned(a), Extent::Owned(b)) => buf_contents(*a) == buf_contents(*b),
            (Extent::Cloned(a), Extent::Cloned(b)) => buf_contents(a.data) == buf_contents(b.data)
                && a.src_range == b.src_range,
            (Extent::Hole(a), Extent::Hole(b)) => a == b,
            _ => false,
        }
    }

    /// An extent holding the given bytes as its own data.
    pub fn from_vec(v: Vec<u8>) -> (r: Extent)
        ensures
            r@ == v@,
            r is Owned,
    {
        Extent::Owned(buf_from_vec(v))
    }

    pub fn len(&self) -> (r: u64)
        ensures
            r == self@.len(),
    {
        match self {
            Extent::Hole(n) => *n,
            Extent::Owned(b) => buf_len(b) as u64,
            Extent::Cloned(c) => buf_len(&c.data) as u64,
        }
    }

    pub fn is_empty(&self) -> (r: bool)
        ensures
            r == (self.stored().len() == 0),
    {
        match self {
            Extent::Hole(_) => true,
            Extent::Owned(b) => buf_len(b) == 0,
            Extent::Cloned(c) => buf_len(&c.data) == 0,
        }
    }

    /// The stored bytes as a shared buffer: empty for a hole.
    pub fn bytes(&self) -> (r: bytes::Bytes)
        ensures
            buf_contents(r) == self.stored(),
    {
        match self {
            Extent::Owned(b) => buf_clone(b),
            Extent::Cloned(c) => buf_clone(&c.data),
            Extent::Hole(_) => crate::buf::buf_new(),
        }
    }

    /// A handle to the same content: owned and cloned extents share their
    /// backing buffer with the original.
    pub fn dup(&self) -> (r: Extent)
        ensures
            r.eq_spec(self),
            r@ == self@,
    {
        match self {
            Extent::Owned(b) => Extent::Owned(buf_clone(b)),
            Extent::Cloned(c) => Extent::Cloned(
                Cloned { src_range: c.src_range, data: buf_clone(&c.data) },
            ),
            Extent::Hole(n) => Extent::Hole(*n),
        }
    }

    /// Whether this extent structurally equals another.
    pub fn matches(&self, other: &Extent) -> (r: bool)
        ensures
            r == self.eq_spec(other),
    {
        match (self, other) {
            (Extent::Owned(a), Extent::Owned(b)) => buf_eq(a, b),
            (Extent::Cloned(a), Extent::Cloned(b)) => {
                let (a0, a1) = a.src_range;
                let (b0, b1) = b.src_range;
                a0 == b0 && a1 == b1 && buf_eq(&a.data, &b.data)
            }
            (Extent::Hole(a), Extent::Hole(b)) => a == b,
            _ => false,
        }
    }

    /// Split this extent at byte offset `at`, leaving the first `at` bytes in
    /// `self` and returning the rest. For a cloned extent, each half
    /// references only its own portion of the source range.
    pub fn split_at(&mut self, at: u64) -> (right: Extent)
        requires
            at <= old(self)@.len(),
        ensures
            final(self)@ == old(self)@.subrange(0, at as int),
            right@ == old(self)@.subrange(at as int, old(self)@.len() as int),
            (*final(self)) is Hole <==> (*old(self)) is Hole,
            right is Hole <==> (*old(self)) is Hole,
            (*final(self)) is Cloned <==> (*old(self)) is Cloned,
            right is Cloned <==> (*old(self)) is Cloned,
            (*final(self)) is Owned <==> (*old(self)) is Owned,
            right is Owned <==> (*old(self)) is Owned,
            ((*old(self)) is Cloned && ((*old(self))->Cloned_0).src_range.0 + at <= u64::MAX)
                ==> ((*final(self))->Cloned_0).src_range == (
                ((*old(self))->Cloned_0).src_range.0,
                (((*old(self))->Cloned_0).src_range.0 + at) as u64,
            ) && (right->Cloned_0).src_range == (
                (((*old(self))->Cloned_0).src_range.0 + at) as u64,
                ((*old(self))->Cloned_0).src_range.1,
            ),
    {
        match self {
            Extent::Owned(b) => {
                let n = buf_len(b);
                let left = buf_slice(b, 0, at as usize);
                let right = buf_slice(b, at as usize, n);
                *b = left;
                Extent::Owned(right)
            }
            Extent::Cloned(c) => {
                let n = buf_len(&c.data);
                let (s, e) = c.src_range;
                let left = buf_slice(&c.data, 0, at as usize);
                let right = buf_slice(&c.data, at as usize, n);
                let right_start: u64 = if at <= u64::MAX - s {
                    s + at
                } else {
                    u64::MAX
                };
                c.src_range = (s, right_start);
                c.data = left;
                Extent::Cloned(Cloned { src_range: (right_start, e), data: right })
            }
            Extent::Hole(h) => {
                let total = *h;
                *h = at;
                let right = Extent::Hole(total - at);
                assert(Seq::new(at as nat, |i: int| 0u8) =~= Seq::new(
                    total as nat,
                    |i: int| 0u8,
                ).subrange(0, at as int));
                assert(Seq::new((total - at) as nat, |i: int| 0u8) =~= Seq::new(
                    total as nat,
                    |i: int| 0u8,
                ).subrange(at as int, total as int));
                right
            }
        }
    }
}

} // verus!
