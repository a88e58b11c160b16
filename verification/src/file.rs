//! The file content model: an ordered map of extents keyed by starting byte
//! offset, with a reader, an overlap-splitting writer, clone-range, and
//! truncation. Contents are stored in copy-on-write extents so that a file
//! can be a zero-copy view of a filesystem-in-a-file while still being
//! mutable.

use vstd::prelude::*;
use vstd::std_specs::cmp::PartialEqSpec;

pub mod extent;
pub mod reader;
pub mod writer;

use crate::entry::Metadata;
use extent::Extent;

verus! {

/// The starting offset of an extent table entry.
pub open spec fn estart(p: (u64, Extent)) -> int {
    p.0 as int
}

/// One past the last byte offset an extent table entry covers.
pub open spec fn eend(p: (u64, Extent)) -> int {
    p.0 + p.1@.len()
}

/// A well-formed extent table: extents are non-empty, stay within offset
/// range, and are sorted by start with no overlap.
pub open spec fn exts_wf(s: Seq<(u64, Extent)>) -> bool {
    &&& forall|i: int| 0 <= i < s.len() ==> (#[trigger] s[i]).1@.len() > 0
    &&& forall|i: int| 0 <= i < s.len() ==> eend(#[trigger] s[i]) <= u64::MAX
    &&& forall|i: int| 0 <= i < s.len() - 1 ==> eend(#[trigger] s[i]) <= estart(s[i + 1])
}

/// In a well-formed table, every earlier extent ends before a later one
/// starts, so starts and ends strictly increase.
pub proof fn lemma_exts_ordered(s: Seq<(u64, Extent)>, i: int, j: int)
    requires
        exts_wf(s),
        0 <= i < j < s.len(),
    ensures
        eend(s[i]) <= estart(s[j]),
    decreases j - i,
{
    if i + 1 < j {
        lemma_exts_ordered(s, i + 1, j);
    }
}

/// Whether some extent of the table covers byte offset `pos`.
pub open spec fn exts_covered(s: Seq<(u64, Extent)>, pos: int) -> bool {
    exists|i: int| 0 <= i < s.len() && estart(#[trigger] s[i]) <= pos < eend(s[i])
}

/// The byte the table holds at offset `pos`: the byte of the first extent
/// covering `pos`, or zero where no extent does.
pub open spec fn exts_byte(s: Seq<(u64, Extent)>, pos: int) -> u8
    decreases s.len(),
{
    if s.len() == 0 {
        0u8
    } else if estart(s[0]) <= pos < eend(s[0]) {
        s[0].1@[pos - estart(s[0])]
    } else {
        exts_byte(s.drop_first(), pos)
    }
}

/// The length of the file the table describes: one past the end of its last
/// extent.
pub open spec fn exts_len(s: Seq<(u64, Extent)>) -> int {
    if s.len() == 0 {
        0
    } else {
        eend(s.last())
    }
}

/// An uncovered offset reads as zero.
pub proof fn lemma_byte_uncovered(s: Seq<(u64, Extent)>, pos: int)
    requires
        !exts_covered(s, pos),
    ensures
        exts_byte(s, pos) == 0u8,
    decreases s.len(),
{
    if s.len() > 0 {
        assert(!exts_covered(s.drop_first(), pos)) by {
            if exts_covered(s.drop_first(), pos) {
                let i = choose|i: int|
                    0 <= i < s.drop_first().len() && estart(#[trigger] s.drop_first()[i]) <= pos
                        < eend(s.drop_first()[i]);
                assert(s.drop_first()[i] == s[i + 1]);
            }
        }
        lemma_byte_uncovered(s.drop_first(), pos);
    }
}

/// Lookup distributes over concatenation: coverage decides which half wins.
pub proof fn lemma_byte_concat(a: Seq<(u64, Extent)>, b: Seq<(u64, Extent)>, pos: int)
    ensures
        exts_covered(a + b, pos) == (exts_covered(a, pos) || exts_covered(b, pos)),
        exts_byte(a + b, pos) == if exts_covered(a, pos) {
            exts_byte(a, pos)
        } else {
            exts_byte(b, pos)
        },
    decreases a.len(),
{
    assert(exts_covered(a + b, pos) == (exts_covered(a, pos) || exts_covered(b, pos))) by {
        if exts_covered(a + b, pos) {
            let i = choose|i: int|
                0 <= i < (a + b).len() && estart(#[trigger] (a + b)[i]) <= pos < eend((a + b)[i]);
            if i < a.len() {
                assert((a + b)[i] == a[i]);
            } else {
                assert((a + b)[i] == b[i - a.len()]);
            }
        }
        if exts_covered(a, pos) {
            let i = choose|i: int|
                0 <= i < a.len() && estart(#[trigger] a[i]) <= pos < eend(a[i]);
            assert((a + b)[i] == a[i]);
        }
        if exts_covered(b, pos) {
            let i = choose|i: int|
                0 <= i < b.len() && estart(#[trigger] b[i]) <= pos < eend(b[i]);
            assert((a + b)[i + a.len()] == b[i]);
        }
    }
    if a.len() == 0 {
        assert(a + b =~= b);
        if exts_covered(a, pos) {
            let i = choose|i: int|
                0 <= i < a.len() && estart(#[trigger] a[i]) <= pos < eend(a[i]);
        }
    } else {
        assert((a + b)[0] == a[0]);
        if estart(a[0]) <= pos < eend(a[0]) {
        } else {
            assert((a + b).drop_first() =~= a.drop_first() + b);
            lemma_byte_concat(a.drop_first(), b, pos);
            assert(exts_covered(a, pos) == exts_covered(a.drop_first(), pos)) by {
                if exts_covered(a, pos) {
                    let i = choose|i: int|
                        0 <= i < a.len() && estart(#[trigger] a[i]) <= pos < eend(a[i]);
                    assert(i != 0);
                    assert(a.drop_first()[i - 1] == a[i]);
                }
                if exts_covered(a.drop_first(), pos) {
                    let i = choose|i: int|
                        0 <= i < a.drop_first().len() && estart(
                            #[trigger] a.drop_first()[i],
                        ) <= pos < eend(a.drop_first()[i]);
                    assert(a.drop_first()[i] == a[i + 1]);
                }
            }
        }
    }
}

/// Lookup in a one-extent table.
pub proof fn lemma_byte_singleton(p: (u64, Extent), pos: int)
    ensures
        exts_covered(seq![p], pos) == (estart(p) <= pos < eend(p)),
        estart(p) <= pos < eend(p) ==> exts_byte(seq![p], pos) == p.1@[pos - estart(p)],
        !(estart(p) <= pos < eend(p)) ==> exts_byte(seq![p], pos) == 0u8,
{
    let s = seq![p];
    assert(s[0] == p);
    assert(s.drop_first() =~= Seq::<(u64, Extent)>::empty());
    if estart(p) <= pos < eend(p) {
    } else {
        assert(exts_byte(s.drop_first(), pos) == 0u8);
        if exts_covered(s, pos) {
            let i = choose|i: int| 0 <= i < s.len() && estart(#[trigger] s[i]) <= pos < eend(s[i]);
        }
    }
}

/// In a well-formed table the extent covering `pos`, when one exists, is
/// unique, and lookup returns its byte.
pub proof fn lemma_byte_at_index(s: Seq<(u64, Extent)>, i: int, pos: int)
    requires
        exts_wf(s),
        0 <= i < s.len(),
        estart(s[i]) <= pos < eend(s[i]),
    ensures
        exts_covered(s, pos),
        exts_byte(s, pos) == s[i].1@[pos - estart(s[i])],
    decreases s.len(),
{
    if i == 0 {
    } else {
        lemma_exts_ordered(s, 0, i);
        assert(forall|j: int| 0 <= j < s.drop_first().len() ==> s.drop_first()[j] == s[j + 1]);
        assert(exts_wf(s.drop_first()));
        lemma_byte_at_index(s.drop_first(), i - 1, pos);
    }
}

/// The result of splicing the byte string `w` into `s` at offset `pos`:
/// bytes of `w` replace what was there, the string grows as needed, and any
/// gap reads as zero. Splicing nothing changes nothing.
pub open spec fn write_seq(s: Seq<u8>, pos: int, w: Seq<u8>) -> Seq<u8> {
    if w.len() == 0 {
        s
    } else {
        Seq::new(
            vstd::math::max(s.len() as int, pos + w.len()) as nat,
            |i: int|
                if pos <= i < pos + w.len() {
                    w[i - pos]
                } else if i < s.len() {
                    s[i]
                } else {
                    0u8
                },
        )
    }
}

/// A regular file: an extent table and metadata.
pub struct File {
    pub extents: Vec<(u64, Extent)>,
    pub metadata: Metadata,
}

impl File {
    /// The extent table is well formed and so is the metadata.
    pub open spec fn wf(&self) -> bool {
        exts_wf(self.extents@) && self.metadata.wf()
    }

    /// The readable contents of the file, with holes and gaps as zeros.
    pub open spec fn contents(&self) -> Seq<u8> {
        Seq::new(exts_len(self.extents@) as nat, |i: int| exts_byte(self.extents@, i))
    }

    /// The length of the file in bytes.
    pub open spec fn len_spec(&self) -> int {
        exts_len(self.extents@)
    }

    /// Structural equality of extent tables: same offsets, same extent
    /// shapes, same bytes.
    pub open spec fn extents_match(&self, other: &File) -> bool {
        self.extents@.len() == other.extents@.len() && forall|i: int|
            0 <= i < self.extents@.len() ==> (#[trigger] self.extents@[i]).0 == other.extents@[i].0
                && self.extents@[i].1.eq_spec(&other.extents@[i].1)
    }

    /// An empty file with default metadata.
    pub fn new_empty() -> (r: File)
        ensures
            r.wf(),
            r.len_spec() == 0,
            r.extents@.len() == 0,
            Metadata::default_shape(&r.metadata),
    {
        File { extents: Vec::new(), metadata: Metadata::default() }
    }

    pub fn builder() -> (r: FileBuilder)
        ensures
            r.f.wf(),
            r.f.len_spec() == 0,
            r.f.extents@.len() == 0,
            Metadata::default_shape(&r.f.metadata),
    {
        FileBuilder { f: File::new_empty() }
    }

    pub fn is_empty(&self) -> (r: bool)
        ensures
            r == (self.extents@.len() == 0),
    {
        self.extents.len() == 0
    }

    pub fn len(&self) -> (r: u64)
        requires
            self.wf(),
        ensures
            r == self.len_spec(),
    {
        let n = self.extents.len();
        if n == 0 {
            0
        } else {
            let (start, ext) = &self.extents[n - 1];
            *start + ext.len()
        }
    }

    /// Copy all of the extents of this file into a single contiguous vector
    /// of bytes.
    pub fn to_bytes(&self) -> (r: Vec<u8>)
        requires
            self.wf(),
            self.len_spec() <= usize::MAX,
        ensures
            r@ == self.contents(),
    {
        let mut out: Vec<u8> = Vec::new();
        let n = self.extents.len();
        let mut k: usize = 0;
        while k < n
            invariant
                self.wf(),
                n == self.extents@.len(),
                self.len_spec() <= usize::MAX,
                k <= n,
                out@.len() == if k == 0 {
                    0int
                } else {
                    eend(self.extents@[k - 1])
                },
                forall|i: int| 0 <= i < out@.len() ==> out@[i] == exts_byte(self.extents@, i),
            decreases n - k,
        {
            proof {
                if k + 1 < n {
                    lemma_exts_ordered(self.extents@, k as int, n - 1);
                }
                if k > 0 {
                    lemma_exts_ordered(self.extents@, k - 1, k as int);
                }
                assert(eend(self.extents@[k as int]) <= self.len_spec());
            }
            let ghost prev_len = out@.len();
            let (start, ext) = &self.extents[k];
            let start_usize = (*start) as usize;
            // pad the gap before this extent with zeros, which is what those
            // offsets read as
            let gap = start_usize - out.len();
            extend_zeros(&mut out, gap);
            proof {
                assert forall|i: int| prev_len <= i < start_usize implies exts_byte(
                    self.extents@,
                    i,
                ) == 0u8 by {
                    assert(!exts_covered(self.extents@, i)) by {
                        if exts_covered(self.extents@, i) {
                            let j = choose|j: int|
                                0 <= j < self.extents@.len() && estart(
                                    #[trigger] self.extents@[j],
                                ) <= i < eend(self.extents@[j]);
                            if j < k - 1 {
                                lemma_exts_ordered(self.extents@, j, k - 1);
                            } else if j > k {
                                lemma_exts_ordered(self.extents@, k as int, j);
                            }
                        }
                    }
                    lemma_byte_uncovered(self.extents@, i);
                }
                assert(forall|i: int|
                    0 <= i < out@.len() ==> out@[i] == exts_byte(self.extents@, i));
            }
            let ghost mid_len = out@.len();
            // then append the extent's own bytes
            match ext {
                Extent::Hole(h) => {
                    extend_zeros(&mut out, (*h) as usize);
                }
                Extent::Owned(b) => {
                    extend_slice(&mut out, crate::buf::buf_as_slice(b));
                }
                Extent::Cloned(c) => {
                    extend_slice(&mut out, crate::buf::buf_as_slice(&c.data));
                }
            }
            proof {
                assert forall|i: int| mid_len <= i < out@.len() implies out@[i] == exts_byte(
                    self.extents@,
                    i,
                ) by {
                    lemma_byte_at_index(self.extents@, k as int, i);
                }
            }
            k = k + 1;
        }
        proof {
            assert(out@ =~= self.contents());
        }
        out
    }

    /// Force the file length to `len`. Extents are shrunk or deleted if the
    /// new size is smaller; the file is padded with a zero hole if it is
    /// larger or if the retained extents fall short of it.
    #[verifier::rlimit(100)]
    #[verifier::spinoff_prover]
    pub fn truncate(&mut self, len: u64)
        requires
            old(self).wf(),
        ensures
            final(self).wf(),
            final(self).metadata == old(self).metadata,
            final(self).len_spec() == len,
            final(self).contents() == Seq::new(
                len as nat,
                |i: int|
                    if 0 <= i < old(self).len_spec() {
                        old(self).contents()[i]
                    } else {
                        0u8
                    },
            ),
    {
        let ghost old_seq = self.extents@;
        let ghost old_contents = old(self).contents();
        if len == 0 {
            self.extents.clear();
            proof {
                assert(self.contents() =~= Seq::new(
                    0nat,
                    |i: int|
                        if 0 <= i < old(self).len_spec() {
                            old_contents[i]
                        } else {
                            0u8
                        },
                ));
            }
            return ;
        }
        let cur = self.len();
        if len < cur {
            cut_extents(&mut self.extents, len);
        }
        let ghost cut_seq = self.extents@;
        let cur2 = self.len();
        if cur2 < len {
            self.extents.push((cur2, Extent::Hole(len - cur2)));
            proof {
                lemma_append_hole(cut_seq, len - cur2);
            }
        }
        proof {
            let target = Seq::new(
                len as nat,
                |i: int|
                    if 0 <= i < old(self).len_spec() {
                        old_contents[i]
                    } else {
                        0u8
                    },
            );
            assert forall|i: int| 0 <= i < len implies exts_byte(self.extents@, i)
                == target[i] by {
                if i >= exts_len(old_seq) {
                    crate::file::writer::lemma_byte_beyond(old_seq, i);
                }
                if exts_len(cut_seq) <= i {
                    crate::file::writer::lemma_byte_beyond(cut_seq, i);
                }
            }
            assert(self.contents() =~= target);
        }
    }

    /// Produce cloned extents whose concatenation is exactly the bytes of
    /// this file in `[start, end)`. Holes and gaps in the range come out as
    /// zero-filled cloned extents, so the result always covers the range.
    #[verifier::rlimit(100)]
    #[verifier::spinoff_prover]
    pub fn clone_range(&self, start: u64, end: u64) -> (r: Vec<Extent>)
        requires
            self.wf(),
            start <= end <= self.len_spec(),
            end - start <= usize::MAX,
        ensures
            forall|i: int| 0 <= i < r@.len() ==> (#[trigger] r@[i]) is Cloned,
            extents_cat(r@) == self.contents().subrange(start as int, end as int),
    {
        let mut out: Vec<Extent> = Vec::new();
        let mut cur = start;
        let n = self.extents.len();
        let mut k: usize = 0;
        loop
            invariant_except_break
                self.wf(),
                n == self.extents@.len(),
                k <= n,
                start <= cur <= end <= self.len_spec(),
                end - start <= usize::MAX,
                forall|i: int| 0 <= i < out@.len() ==> (#[trigger] out@[i]) is Cloned,
                extents_cat(out@) == self.contents().subrange(start as int, cur as int),
                forall|j: int| 0 <= j < k ==> eend(#[trigger] self.extents@[j]) <= cur,
            ensures
                forall|i: int| 0 <= i < out@.len() ==> (#[trigger] out@[i]) is Cloned,
                extents_cat(out@) == self.contents().subrange(start as int, end as int),
            decreases n - k, end - cur,
        {
            if cur == end {
                break ;
            }
            if k == n {
                // unreachable: the extents end at the file length, which the
                // range cannot exceed
                proof {
                    if n > 0 {
                        assert(eend(self.extents@[n - 1]) <= cur);
                    }
                    assert(false);
                }
                break ;
            }
            proof {
                if k > 0 {
                    lemma_exts_ordered(self.extents@, k - 1, k as int);
                }
            }
            let (st, ext) = &self.extents[k];
            let ext_end = *st + ext.len();
            if ext_end <= cur {
                k = k + 1;
                continue ;
            }
            if cur < *st {
                // zero-fill the gap between the cursor and this extent
                let fill_end = if *st < end {
                    *st
                } else {
                    end
                };
                let ghost pre = out@;
                let zeros = zero_vec((fill_end - cur) as usize);
                let piece = Extent::Cloned(
                    extent::Cloned {
                        src_range: (cur, fill_end),
                        data: crate::buf::buf_from_vec(zeros),
                    },
                );
                out.push(piece);
                proof {
                    lemma_extents_cat_push(pre, piece);
                    assert(piece@.len() == fill_end - cur);
                    assert forall|i: int| cur <= i < fill_end implies exts_byte(
                        self.extents@,
                        i,
                    ) == 0u8 by {
                        assert(!exts_covered(self.extents@, i)) by {
                            if exts_covered(self.extents@, i) {
                                let j = choose|j: int|
                                    0 <= j < self.extents@.len() && estart(
                                        #[trigger] self.extents@[j],
                                    ) <= i < eend(self.extents@[j]);
                                if j > k {
                                    lemma_exts_ordered(self.extents@, k as int, j);
                                }
                            }
                        }
                        lemma_byte_uncovered(self.extents@, i);
                    }
                    assert(extents_cat(out@) =~= self.contents().subrange(
                        start as int,
                        fill_end as int,
                    ));
                }
                cur = fill_end;
            } else {
                // clip this extent to the range and clone the overlap
                let piece_end = if ext_end < end {
                    ext_end
                } else {
                    end
                };
                let ghost pre = out@;
                let data = match ext {
                    Extent::Hole(_) => crate::buf::buf_from_vec(
                        zero_vec((piece_end - cur) as usize),
                    ),
                    Extent::Owned(b) => {
                        let blen = crate::buf::buf_len(b);
                        crate::buf::buf_slice(b, (cur - *st) as usize, (piece_end - *st) as usize)
                    }
                    Extent::Cloned(c) => {
                        let blen = crate::buf::buf_len(&c.data);
                        crate::buf::buf_slice(
                            &c.data,
                            (cur - *st) as usize,
                            (piece_end - *st) as usize,
                        )
                    }
                };
                let piece = Extent::Cloned(extent::Cloned { src_range: (cur, piece_end), data });
                out.push(piece);
                proof {
                    lemma_extents_cat_push(pre, piece);
                    assert(piece@.len() == piece_end - cur);
                    assert forall|i: int| cur <= i < piece_end implies exts_byte(
                        self.extents@,
                        i,
                    ) == piece@[i - cur] by {
                        lemma_byte_at_index(self.extents@, k as int, i);
                    }
                    assert(extents_cat(out@) =~= self.contents().subrange(
                        start as int,
                        piece_end as int,
                    ));
                }
                cur = piece_end;
            }
        }
        out
    }
}

/// Matching extent tables read identically.
pub proof fn lemma_match_bytes(a: Seq<(u64, Extent)>, b: Seq<(u64, Extent)>, pos: int)
    requires
        a.len() == b.len(),
        forall|i: int|
            0 <= i < a.len() ==> (#[trigger] a[i]).0 == b[i].0 && a[i].1.eq_spec(&b[i].1),
    ensures
        exts_byte(a, pos) == exts_byte(b, pos),
        exts_len(a) == exts_len(b),
    decreases a.len(),
{
    assert forall|i: int| 0 <= i < a.len() implies (#[trigger] a[i]).1@ == b[i].1@ by {
        match a[i].1 {
            Extent::Hole(n) => {
                assert(a[i].1@ =~= b[i].1@);
            }
            _ => {}
        }
    }
    if a.len() > 0 {
        assert(forall|i: int| 0 <= i < a.drop_first().len() ==> a.drop_first()[i] == a[i + 1]);
        assert(forall|i: int| 0 <= i < b.drop_first().len() ==> b.drop_first()[i] == b[i + 1]);
        lemma_match_bytes(a.drop_first(), b.drop_first(), pos);
        assert(a.last() == a[a.len() - 1]);
        assert(b.last() == b[a.len() - 1]);
    }
}

impl File {
    /// Whether two files hold byte-for-byte equal contents and equal
    /// metadata, extent layout included.
    pub open spec fn eq_spec(&self, other: &File) -> bool {
        self.metadata.eq_spec(&other.metadata) && self.extents_match(other)
    }

    /// A deep copy: same metadata, same extent layout, same bytes; buffers
    /// are shared, not copied.
    pub fn dup(&self) -> (r: File)
        ensures
            r.eq_spec(self),
            r.extents_match(self),
            r.metadata.eq_spec(&self.metadata),
            r.contents() == self.contents(),
            r.len_spec() == self.len_spec(),
            self.wf() ==> r.wf(),
            Metadata::default_shape(&self.metadata) ==> Metadata::default_shape(&r.metadata),
    {
        let n = self.extents.len();
        let mut extents: Vec<(u64, Extent)> = Vec::new();
        let mut i: usize = 0;
        while i < n
            invariant
                n == self.extents@.len(),
                i <= n,
                extents@.len() == i,
                forall|j: int|
                    0 <= j < i ==> (#[trigger] extents@[j]).0 == self.extents@[j].0
                        && extents@[j].1.eq_spec(&self.extents@[j].1) && extents@[j].1@
                        == self.extents@[j].1@,
            decreases n - i,
        {
            let (st, ext) = &self.extents[i];
            extents.push((*st, ext.dup()));
            i = i + 1;
        }
        let r = File { extents, metadata: self.metadata.dup() };
        proof {
            assert(crate::entry::xattrs_canon(&r.metadata.xattrs).len()
                == r.metadata.xattrs.seq().len());
            assert(crate::entry::xattrs_canon(&self.metadata.xattrs).len()
                == self.metadata.xattrs.seq().len());
            lemma_match_bytes(r.extents@, self.extents@, 0);
            assert forall|pos: int| true implies #[trigger] exts_byte(r.extents@, pos)
                == exts_byte(self.extents@, pos) by {
                lemma_match_bytes(r.extents@, self.extents@, pos);
            }
            assert(r.contents() =~= self.contents());
        }
        r
    }

    /// Whether the extent tables of the two files structurally match.
    pub fn extents_eq(&self, other: &File) -> (r: bool)
        ensures
            r == self.extents_match(other),
    {
        let n = self.extents.len();
        if n != other.extents.len() {
            return false;
        }
        let mut i: usize = 0;
        while i < n
            invariant
                n == self.extents@.len() == other.extents@.len(),
                i <= n,
                forall|j: int|
                    0 <= j < i ==> (#[trigger] self.extents@[j]).0 == other.extents@[j].0
                        && self.extents@[j].1.eq_spec(&other.extents@[j].1),
            decreases n - i,
        {
            let (sa, ea) = &self.extents[i];
            let (sb, eb) = &other.extents[i];
            if *sa != *sb || !ea.matches(eb) {
                return false;
            }
            i = i + 1;
        }
        true
    }
}

impl crate::cmp::ApproxEq for File {
    open spec fn cmp_req(&self, other: &Self) -> bool {
        self.wf() && other.wf() && self.len_spec() <= usize::MAX && other.len_spec()
            <= usize::MAX
    }

    open spec fn cmp_spec(&self, other: &Self) -> crate::cmp::Fields {
        crate::cmp::Fields {
            path: true,
            entry_type: true,
            rdev: true,
            mode: self.metadata.mode == other.metadata.mode,
            owner: self.metadata.uid == other.metadata.uid && self.metadata.gid
                == other.metadata.gid,
            xattr: crate::entry::xattrs_canon(&self.metadata.xattrs) == crate::entry::xattrs_canon(
                &other.metadata.xattrs,
            ),
            time: self.metadata.created == other.metadata.created && self.metadata.accessed
                == other.metadata.accessed && self.metadata.modified == other.metadata.modified,
            extents: self.extents_match(other),
            data: self.contents() == other.contents(),
        }
    }

    fn cmp(&self, other: &Self) -> (r: crate::cmp::Fields) {
        let md = crate::cmp::ApproxEq::cmp(&self.metadata, &other.metadata);
        let a = self.to_bytes();
        let b = other.to_bytes();
        let data_eq = a == b;
        proof {
            assert(data_eq == (self.contents() == other.contents())) by {
                if data_eq {
                    assert(a@ =~= b@);
                }
                if a@ == b@ {
                    assert(a.eq_spec(&b)) by {
                        assert(forall|i: int| #![auto] 0 <= i < a@.len() ==> a@[i] == b@[i]);
                    }
                }
            }
        }
        crate::cmp::Fields {
            path: true,
            entry_type: true,
            rdev: true,
            mode: md.mode,
            owner: md.owner,
            xattr: md.xattr,
            time: md.time,
            extents: self.extents_eq(other),
            data: data_eq,
        }
    }
}

/// Matching extent tables are symmetric, and a table matches itself.
pub proof fn lemma_extents_match_sym(a: &File, b: &File)
    ensures
        a.extents_match(b) == b.extents_match(a),
        a.extents_match(a),
{
    if a.extents_match(b) {
        assert forall|i: int|
            0 <= i < b.extents@.len() implies (#[trigger] b.extents@[i]).0 == a.extents@[i].0
            && b.extents@[i].1.eq_spec(&a.extents@[i].1) by {
            assert(a.extents@[i].0 == b.extents@[i].0 && a.extents@[i].1.eq_spec(
                &b.extents@[i].1,
            ));
        }
    }
    if b.extents_match(a) {
        assert forall|i: int|
            0 <= i < a.extents@.len() implies (#[trigger] a.extents@[i]).0 == b.extents@[i].0
            && a.extents@[i].1.eq_spec(&b.extents@[i].1) by {
            assert(b.extents@[i].0 == a.extents@[i].0 && b.extents@[i].1.eq_spec(
                &a.extents@[i].1,
            ));
        }
    }
    assert forall|i: int|
        0 <= i < a.extents@.len() implies (#[trigger] a.extents@[i]).0 == a.extents@[i].0
        && a.extents@[i].1.eq_spec(&a.extents@[i].1) by {}
}

/// Matching extent tables hold equal contents.
pub proof fn lemma_extents_match_contents(a: &File, b: &File)
    requires
        a.extents_match(b),
    ensures
        a.contents() == b.contents(),
        a.len_spec() == b.len_spec(),
{
    lemma_match_bytes(a.extents@, b.extents@, 0);
    assert forall|pos: int| true implies #[trigger] exts_byte(a.extents@, pos) == exts_byte(
        b.extents@,
        pos,
    ) by {
        lemma_match_bytes(a.extents@, b.extents@, pos);
    }
    assert(a.contents() =~= b.contents());
}

/// Writing two byte strings one after the other is one write of their
/// concatenation.
pub proof fn lemma_write_seq_chain(s: Seq<u8>, p: int, w1: Seq<u8>, w2: Seq<u8>)
    requires
        p >= 0,
    ensures
        write_seq(write_seq(s, p, w1), p + w1.len(), w2) == write_seq(s, p, w1 + w2),
{
    if w1.len() == 0 {
        assert(w1 + w2 =~= w2);
    } else if w2.len() == 0 {
        assert(w1 + w2 =~= w1);
    } else {
        let lhs = write_seq(write_seq(s, p, w1), p + w1.len(), w2);
        let rhs = write_seq(s, p, w1 + w2);
        assert(lhs.len() == rhs.len());
        assert forall|i: int| 0 <= i < lhs.len() implies lhs[i] == rhs[i] by {
            if p <= i < p + w1.len() {
                assert((w1 + w2)[i - p] == w1[i - p]);
            } else if p + w1.len() <= i < p + w1.len() + w2.len() {
                assert((w1 + w2)[i - p] == w2[i - p - w1.len()]);
            }
        }
        assert(lhs =~= rhs);
    }
}

/// The concatenation of the readable bytes of a list of extents.
pub open spec fn extents_cat(s: Seq<Extent>) -> Seq<u8>
    decreases s.len(),
{
    if s.len() == 0 {
        Seq::<u8>::empty()
    } else {
        extents_cat(s.drop_last()) + s.last()@
    }
}

/// Appending one extent appends its bytes.
pub proof fn lemma_extents_cat_push(s: Seq<Extent>, e: Extent)
    ensures
        extents_cat(s.push(e)) == extents_cat(s) + e@,
{
    assert(s.push(e).drop_last() =~= s);
    assert(s.push(e).last() == e);
}

/// The concatenation of a prefix of an extent list never exceeds the
/// concatenation of the whole list.
pub proof fn lemma_cat_prefix_bound(s: Seq<Extent>, i: int)
    requires
        0 <= i < s.len(),
    ensures
        extents_cat(s.subrange(0, i + 1)).len() == extents_cat(s.subrange(0, i)).len()
            + s[i]@.len(),
        extents_cat(s.subrange(0, i + 1)).len() <= extents_cat(s).len(),
    decreases s.len() - i,
{
    assert(s.subrange(0, i + 1).drop_last() =~= s.subrange(0, i));
    assert(s.subrange(0, i + 1).last() == s[i]);
    if i + 1 == s.len() {
        assert(s.subrange(0, i + 1) =~= s);
    } else {
        lemma_cat_prefix_bound(s, i + 1);
    }
}

/// A vector of `n` zero bytes.
pub(crate) fn zero_vec(n: usize) -> (r: Vec<u8>)
    ensures
        r@ == Seq::new(n as nat, |i: int| 0u8),
{
    let mut out: Vec<u8> = Vec::new();
    let mut j: usize = 0;
    while j < n
        invariant
            j <= n,
            out@ == Seq::new(j as nat, |i: int| 0u8),
        decreases n - j,
    {
        out.push(0u8);
        proof {
            assert(out@ =~= Seq::new((j + 1) as nat, |i: int| 0u8));
        }
        j = j + 1;
    }
    out
}

/// Append `n` zero bytes.
fn extend_zeros(out: &mut Vec<u8>, n: usize)
    requires
        old(out)@.len() + n <= usize::MAX,
    ensures
        final(out)@ == old(out)@ + Seq::new(n as nat, |i: int| 0u8),
{
    let mut j: usize = 0;
    while j < n
        invariant
            j <= n,
            out@.len() == old(out)@.len() + j,
            out@ == old(out)@ + Seq::new(j as nat, |i: int| 0u8),
        decreases n - j,
    {
        out.push(0u8);
        proof {
            assert(out@ =~= old(out)@ + Seq::new((j + 1) as nat, |i: int| 0u8));
        }
        j = j + 1;
    }
}

/// Append a byte slice.
fn extend_slice(out: &mut Vec<u8>, data: &[u8])
    requires
        old(out)@.len() + data@.len() <= usize::MAX,
    ensures
        final(out)@ == old(out)@ + data@,
{
    let mut j: usize = 0;
    while j < data.len()
        invariant
            j <= data@.len(),
            out@.len() == old(out)@.len() + j,
            out@ == old(out)@ + data@.subrange(0, j as int),
        decreases data@.len() - j,
    {
        out.push(data[j]);
        proof {
            assert(out@ =~= old(out)@ + data@.subrange(0, j + 1));
        }
        j = j + 1;
    }
    proof {
        assert(out@ =~= old(out)@ + data@);
    }
}


/// The inputs and outputs of cutting an extent table at offset `cut`:
/// extents starting at or past `cut` are dropped, and a last extent
/// straddling it is shortened to end there.
pub open spec fn trunc_shape(
    old_seq: Seq<(u64, Extent)>,
    new_seq: Seq<(u64, Extent)>,
    k: int,
    cut: int,
) -> bool {
    &&& exts_wf(old_seq)
    &&& 0 <= k <= old_seq.len()
    &&& 0 < cut <= u64::MAX
    &&& forall|j: int| 0 <= j < k ==> estart(#[trigger] old_seq[j]) < cut
    &&& (k < old_seq.len() ==> estart(old_seq[k]) >= cut)
    &&& new_seq.len() == k
    &&& forall|j: int| 0 <= j < k - 1 ==> #[trigger] new_seq[j] == old_seq[j]
    &&& (k > 0 ==> new_seq[k - 1].0 == old_seq[k - 1].0 && new_seq[k - 1].1@ == old_seq[k
        - 1].1@.subrange(
        0,
        vstd::math::min(eend(old_seq[k - 1]), cut) - estart(old_seq[k - 1]),
    ))
}

/// Cutting a table keeps every byte before the cut and drops the rest.
#[verifier::rlimit(100)]
pub proof fn lemma_trunc_cut(
    old_seq: Seq<(u64, Extent)>,
    new_seq: Seq<(u64, Extent)>,
    k: int,
    cut: int,
)
    requires
        trunc_shape(old_seq, new_seq, k, cut),
    ensures
        exts_wf(new_seq),
        exts_len(new_seq) == if k == 0 {
            0int
        } else {
            vstd::math::min(eend(old_seq[k - 1]), cut)
        },
        exts_len(new_seq) <= cut,
        forall|pos: int|
            #[trigger] exts_byte(new_seq, pos) == if pos < cut {
                exts_byte(old_seq, pos)
            } else {
                0u8
            },
{
    assert forall|j: int| 0 <= j < new_seq.len() implies (#[trigger] new_seq[j]).1@.len() > 0
        && eend(new_seq[j]) <= u64::MAX by {
        if j < k - 1 {
            assert(new_seq[j] == old_seq[j]);
        }
    }
    assert forall|j: int| 0 <= j < new_seq.len() - 1 implies eend(#[trigger] new_seq[j]) <= estart(
        new_seq[j + 1],
    ) by {
        if j < k - 2 {
            assert(new_seq[j] == old_seq[j]);
            assert(new_seq[j + 1] == old_seq[j + 1]);
        } else {
            assert(new_seq[j] == old_seq[j]);
            assert(new_seq[j + 1].0 == old_seq[j + 1].0);
        }
    }
    assert forall|pos: int| #[trigger] exts_byte(new_seq, pos) == (if pos < cut {
        exts_byte(old_seq, pos)
    } else {
        0u8
    }) by {
        if exts_covered(new_seq, pos) {
            let j = choose|j: int|
                0 <= j < new_seq.len() && estart(#[trigger] new_seq[j]) <= pos < eend(new_seq[j]);
            lemma_byte_at_index(new_seq, j, pos);
            assert(pos < cut);
            if j < k - 1 {
                assert(new_seq[j] == old_seq[j]);
                lemma_byte_at_index(old_seq, j, pos);
            } else {
                assert(new_seq[j].0 == old_seq[k - 1].0);
                assert(estart(old_seq[k - 1]) <= pos < eend(old_seq[k - 1]));
                lemma_byte_at_index(old_seq, k - 1, pos);
                assert(new_seq[j].1@[pos - estart(old_seq[k - 1])] == old_seq[k - 1].1@[pos
                    - estart(old_seq[k - 1])]);
            }
        } else {
            lemma_byte_uncovered(new_seq, pos);
            if pos < cut {
                assert(!exts_covered(old_seq, pos)) by {
                    if exts_covered(old_seq, pos) {
                        let j = choose|j: int|
                            0 <= j < old_seq.len() && estart(#[trigger] old_seq[j]) <= pos < eend(
                                old_seq[j],
                            );
                        assert(j < k) by {
                            if j >= k {
                                assert(estart(old_seq[j]) >= cut) by {
                                    if j > k {
                                        lemma_exts_ordered(old_seq, k, j);
                                    }
                                }
                            }
                        }
                        if j < k - 1 {
                            assert(new_seq[j] == old_seq[j]);
                            assert(exts_covered(new_seq, pos));
                        } else {
                            assert(estart(new_seq[k - 1]) <= pos < eend(new_seq[k - 1]));
                            assert(exts_covered(new_seq, pos));
                        }
                    }
                }
                lemma_byte_uncovered(old_seq, pos);
            }
        }
    }
}

/// Appending a hole at the end of a table pads it with zeros.
pub proof fn lemma_append_hole(s: Seq<(u64, Extent)>, h: int)
    requires
        exts_wf(s),
        0 < h,
        exts_len(s) + h <= u64::MAX,
    ensures
        exts_wf(s.push(((exts_len(s) as u64), Extent::Hole(h as u64)))),
        exts_len(s.push(((exts_len(s) as u64), Extent::Hole(h as u64)))) == exts_len(s) + h,
        forall|pos: int|
            #[trigger] exts_byte(s.push(((exts_len(s) as u64), Extent::Hole(h as u64))), pos)
                == if exts_len(s) <= pos < exts_len(s) + h {
                0u8
            } else {
                exts_byte(s, pos)
            },
{
    let hole = ((exts_len(s) as u64), Extent::Hole(h as u64));
    let t = s.push(hole);
    assert(t =~= s + seq![hole]);
    assert(hole.1@.len() == h);
    assert forall|j: int| 0 <= j < t.len() implies (#[trigger] t[j]).1@.len() > 0 && eend(t[j])
        <= u64::MAX by {
        if j < s.len() {
            assert(t[j] == s[j]);
        } else {
            assert(t[j] == hole);
        }
    }
    assert forall|j: int| 0 <= j < t.len() - 1 implies eend(#[trigger] t[j]) <= estart(
        t[j + 1],
    ) by {
        if j < s.len() - 1 {
            assert(t[j] == s[j]);
            assert(t[j + 1] == s[j + 1]);
        } else {
            assert(t[j] == s[j]);
            assert(t[j + 1] == hole);
            assert(eend(s[j]) == exts_len(s));
        }
    }
    assert(t.last() == hole);
    assert forall|pos: int| #[trigger] exts_byte(t, pos) == (if exts_len(s) <= pos < exts_len(s)
        + h {
        0u8
    } else {
        exts_byte(s, pos)
    }) by {
        lemma_byte_concat(s, seq![hole], pos);
        lemma_byte_singleton(hole, pos);
        if exts_len(s) <= pos < exts_len(s) + h {
            crate::file::writer::lemma_byte_beyond(s, pos);
        } else if pos >= exts_len(s) + h {
            crate::file::writer::lemma_byte_beyond(s, pos);
        } else {
            if !exts_covered(s, pos) {
                lemma_byte_uncovered(s, pos);
            }
        }
    }
}

/// Drop the extents at or past `cut` and shorten one straddling it, so the
/// table describes only bytes before `cut`.
#[verifier::rlimit(100)]
#[verifier::spinoff_prover]
fn cut_extents(extents: &mut Vec<(u64, Extent)>, cut: u64)
    requires
        exts_wf(old(extents)@),
        0 < cut,
        cut < exts_len(old(extents)@),
    ensures
        exts_wf(final(extents)@),
        exts_len(final(extents)@) <= cut,
        forall|pos: int|
            #[trigger] exts_byte(final(extents)@, pos) == if pos < cut {
                exts_byte(old(extents)@, pos)
            } else {
                0u8
            },
{
    let ghost old_seq = extents@;
    let n = extents.len();
    let mut k: usize = 0;
    let mut stop = false;
    while k < n && !stop
        invariant
            exts_wf(old_seq),
            old_seq == extents@,
            n == old_seq.len(),
            k <= n,
            forall|j: int| 0 <= j < k ==> estart(#[trigger] old_seq[j]) < cut,
            stop ==> k < n && estart(old_seq[k as int]) >= cut,
        decreases n - k + if stop {
            0int
        } else {
            1int
        },
    {
        let (st, _) = &extents[k];
        if *st < cut {
            k = k + 1;
        } else {
            stop = true;
        }
    }
    extents.truncate(k);
    if k > 0 {
        let (ls, mut lext) = extents.pop().unwrap();
        let lend = ls + lext.len();
        if lend > cut {
            let _cut_off = lext.split_at(cut - ls);
        } else {
            proof {
                assert(lext@ =~= old_seq[k - 1].1@.subrange(
                    0,
                    vstd::math::min(eend(old_seq[k - 1]), cut as int) - estart(old_seq[k - 1]),
                ));
            }
        }
        extents.push((ls, lext));
    }
    proof {
        assert(trunc_shape(old_seq, extents@, k as int, cut as int));
        lemma_trunc_cut(old_seq, extents@, k as int, cut as int);
    }
}

/// Builds a [`File`], starting from an empty one with default metadata.
pub struct FileBuilder {
    pub f: File,
}

impl FileBuilder {
    /// Set the contents of the file to a single owned extent holding the
    /// given bytes.
    pub fn contents(self, bytes: Vec<u8>) -> (r: Self)
        requires
            self.f.metadata.wf(),
        ensures
            r.f.wf(),
            r.f.contents() == bytes@,
            r.f.metadata == self.f.metadata,
            bytes@.len() > 0 ==> r.f.extents@.len() == 1 && r.f.extents@[0].0 == 0
                && r.f.extents@[0].1@ == bytes@,
            bytes@.len() == 0 ==> r.f.extents@.len() == 0,
    {
        let ghost bs = bytes@;
        let mut extents: Vec<(u64, Extent)> = Vec::new();
        if bytes.len() > 0 {
            let e = Extent::from_vec(bytes);
            extents.push((0u64, e));
        }
        let r = FileBuilder { f: File { extents, metadata: self.f.metadata } };
        proof {
            if bs.len() > 0 {
                assert forall|i: int| 0 <= i < bs.len() implies exts_byte(r.f.extents@, i)
                    == bs[i] by {
                    lemma_byte_at_index(r.f.extents@, 0, i);
                }
            }
            assert(r.f.contents() =~= bs);
        }
        r
    }

    pub fn metadata(self, m: Metadata) -> (r: Self)
        ensures
            r.f.extents == self.f.extents,
            r.f.metadata == m,
    {
        FileBuilder { f: File { extents: self.f.extents, metadata: m } }
    }

    pub fn build(self) -> (r: File)
        ensures
            r == self.f,
    {
        self.f
    }
}

} // verus!
