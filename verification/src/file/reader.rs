//! A forward cursor for reading a file's contents. Holes and gaps read as
//! zeros.

use vstd::prelude::*;

use crate::file::eend;
use crate::file::estart;
use crate::file::exts_byte;
use crate::file::exts_covered;
use crate::file::extent::Extent;
use crate::file::lemma_byte_at_index;
use crate::file::lemma_byte_uncovered;
use crate::file::lemma_exts_ordered;
use crate::file::File;

verus! {

/// A read cursor over a file, starting at offset zero.
pub struct Reader {
    pub pos: u64,
}

impl File {
    /// Open a reader at the start of the file.
    pub fn reader(&self) -> (r: Reader)
        ensures
            r.pos == 0,
    {
        Reader { pos: 0 }
    }
}

impl Reader {
    /// Read up to `max` bytes from the current position, advancing past what
    /// was read. An empty result means the end of the file was reached or
    /// nothing was asked for.
    #[verifier::rlimit(60)]
    pub fn read(&mut self, f: &File, max: usize) -> (r: Vec<u8>)
        requires
            f.wf(),
        ensures
            r@.len() <= max,
            final(self).pos == old(self).pos + r@.len(),
            old(self).pos + r@.len() <= f.len_spec() || r@.len() == 0,
            r@ == f.contents().subrange(
                old(self).pos as int,
                old(self).pos + r@.len(),
            ) || (r@.len() == 0 && old(self).pos >= f.len_spec()),
            (r@.len() == 0) <==> (old(self).pos >= f.len_spec() || max == 0),
    {
        let pos = self.pos;
        let flen = f.len();
        if pos >= flen || max == 0 {
            let r: Vec<u8> = Vec::new();
            proof {
                assert(r@.len() == 0);
            }
            return r;
        }
        // find the first extent that ends past the position
        let n = f.extents.len();
        let mut k: usize = 0;
        let mut stop = false;
        while k < n && !stop
            invariant
                f.wf(),
                n == f.extents@.len(),
                k <= n,
                forall|j: int| 0 <= j < k ==> eend(#[trigger] f.extents@[j]) <= pos,
                stop ==> k < n && eend(f.extents@[k as int]) > pos,
            decreases n - k + if stop {
                0int
            } else {
                1int
            },
        {
            let (st, ext) = &f.extents[k];
            if *st + ext.len() <= pos {
                k = k + 1;
            } else {
                stop = true;
            }
        }
        proof {
            // the position is inside the file, so some extent ends past it
            if k == n {
                assert(eend(f.extents@[n - 1]) <= pos);
            }
        }
        let (st, ext) = &f.extents[k];
        let ext_end = *st + ext.len();
        let r: Vec<u8>;
        let ghost gpos = pos as int;
        if *st <= pos {
            // the extent covers the position: hand out its bytes
            let avail = ext_end - pos;
            let take: u64 = if (max as u64) < avail {
                max as u64
            } else {
                avail
            };
            r = match ext {
                Extent::Hole(_) => crate::file::zero_vec(take as usize),
                Extent::Owned(b) => {
                    let blen = crate::buf::buf_len(b);
                    let sl = crate::buf::buf_as_slice(b);
                    let part = vstd::slice::slice_subrange(
                        sl,
                        (pos - *st) as usize,
                        (pos - *st + take) as usize,
                    );
                    vstd::slice::slice_to_vec(part)
                }
                Extent::Cloned(c) => {
                    let blen = crate::buf::buf_len(&c.data);
                    let sl = crate::buf::buf_as_slice(&c.data);
                    let part = vstd::slice::slice_subrange(
                        sl,
                        (pos - *st) as usize,
                        (pos - *st + take) as usize,
                    );
                    vstd::slice::slice_to_vec(part)
                }
            };
            proof {
                assert(r@.len() == take);
                assert forall|i: int| 0 <= i < take implies r@[i] == exts_byte(
                    f.extents@,
                    gpos + i,
                ) by {
                    lemma_byte_at_index(f.extents@, k as int, gpos + i);
                }
            }
        } else {
            // a gap before the next extent: zeros up to its start
            let avail = *st - pos;
            let take: u64 = if (max as u64) < avail {
                max as u64
            } else {
                avail
            };
            r = crate::file::zero_vec(take as usize);
            proof {
                assert(r@.len() == take);
                assert forall|i: int| 0 <= i < take implies r@[i] == exts_byte(
                    f.extents@,
                    gpos + i,
                ) by {
                    assert(!exts_covered(f.extents@, gpos + i)) by {
                        if exts_covered(f.extents@, gpos + i) {
                            let j = choose|j: int|
                                0 <= j < f.extents@.len() && estart(
                                    #[trigger] f.extents@[j],
                                ) <= gpos + i < eend(f.extents@[j]);
                            if j > k {
                                lemma_exts_ordered(f.extents@, k as int, j);
                            }
                        }
                    }
                    lemma_byte_uncovered(f.extents@, gpos + i);
                }
                // the gap lies inside the file: the found extent ends past it
                assert(pos + take <= f.len_spec()) by {
                    if k < n - 1 {
                        lemma_exts_ordered(f.extents@, k as int, n - 1);
                    }
                }
            }
        }
        proof {
            assert(pos + r@.len() <= f.len_spec()) by {
                if k < n - 1 {
                    lemma_exts_ordered(f.extents@, k as int, n - 1);
                }
            }
            assert(r@ =~= f.contents().subrange(gpos, gpos + r@.len()));
        }
        self.pos = pos + r.len() as u64;
        r
    }

    /// Read everything from the current position to the end of the file,
    /// leaving the cursor there.
    pub fn read_to_end(&mut self, f: &File) -> (r: Vec<u8>)
        requires
            f.wf(),
            f.len_spec() <= usize::MAX,
        ensures
            final(self).pos == f.len_spec(),
            old(self).pos <= f.len_spec() ==> r@ == f.contents().subrange(
                old(self).pos as int,
                f.len_spec(),
            ),
            old(self).pos > f.len_spec() ==> r@.len() == 0,
    {
        let all = f.to_bytes();
        let flen = f.len();
        if self.pos >= flen {
            self.pos = flen;
            let r: Vec<u8> = Vec::new();
            proof {
                if old(self).pos <= f.len_spec() {
                    assert(r@ =~= f.contents().subrange(
                        old(self).pos as int,
                        f.len_spec(),
                    ));
                }
            }
            return r;
        }
        let p0 = self.pos;
        let mut out: Vec<u8> = Vec::new();
        let mut i = p0;
        while i < flen
            invariant
                f.wf(),
                f.len_spec() <= usize::MAX,
                all@ == f.contents(),
                flen == f.len_spec(),
                p0 <= i <= flen,
                out@ == f.contents().subrange(p0 as int, i as int),
            decreases flen - i,
        {
            out.push(all[i as usize]);
            proof {
                assert(out@ =~= f.contents().subrange(p0 as int, i + 1));
            }
            i = i + 1;
        }
        self.pos = flen;
        out
    }
}

} // verus!
