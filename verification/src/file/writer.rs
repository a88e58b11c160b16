//! A positioned writer over a file's extent table. A write fully replaces
//! the bytes in its range, shrinking or splitting neighbouring extents but
//! never leaving an overlap.

use vstd::prelude::*;

use crate::file::eend;
use crate::file::estart;
use crate::file::exts_byte;
use crate::file::exts_covered;
use crate::file::exts_len;
use crate::file::exts_wf;
use crate::file::extent::Extent;
use crate::file::lemma_byte_at_index;
use crate::file::lemma_byte_concat;
use crate::file::lemma_byte_singleton;
use crate::file::lemma_byte_uncovered;
use crate::file::lemma_exts_ordered;
use crate::file::write_seq;
use crate::file::File;
use crate::FsError;

verus! {

/// Offsets at or past the file length are uncovered and read as zero.
pub proof fn lemma_byte_beyond(s: Seq<(u64, Extent)>, pos: int)
    requires
        exts_wf(s),
        pos >= exts_len(s),
    ensures
        !exts_covered(s, pos),
        exts_byte(s, pos) == 0u8,
{
    assert(!exts_covered(s, pos)) by {
        if exts_covered(s, pos) {
            let i = choose|i: int| 0 <= i < s.len() && estart(#[trigger] s[i]) <= pos < eend(s[i]);
            if i < s.len() - 1 {
                lemma_exts_ordered(s, i, s.len() - 1);
            }
        }
    }
    lemma_byte_uncovered(s, pos);
}

/// The inputs and outputs of the extent-table surgery done by a write:
/// `old_seq` is a well-formed table, `[ws, we)` the write window, `i1` the
/// first extent ending past the window start, `i2` the first extent starting
/// at or past the window end, `fopt` the surviving prefix of the first
/// touched extent, `ropt` the surviving suffix of the last touched extent,
/// and `new_seq` the table after the write of extent `e`.
pub open spec fn write_shape(
    old_seq: Seq<(u64, Extent)>,
    new_seq: Seq<(u64, Extent)>,
    i1: int,
    i2: int,
    ws: int,
    we: int,
    e: Extent,
    fopt: Seq<(u64, Extent)>,
    ropt: Seq<(u64, Extent)>,
) -> bool {
    &&& exts_wf(old_seq)
    &&& 0 <= i1 <= i2 <= old_seq.len()
    &&& 0 <= ws < we <= u64::MAX
    &&& e@.len() == we - ws
    &&& forall|j: int| 0 <= j < i1 ==> eend(#[trigger] old_seq[j]) <= ws
    &&& (i1 < old_seq.len() ==> eend(old_seq[i1]) > ws)
    &&& forall|j: int| i1 <= j < i2 ==> estart(#[trigger] old_seq[j]) < we
    &&& (i2 < old_seq.len() ==> estart(old_seq[i2]) >= we)
    &&& ((i1 < i2 && estart(old_seq[i1]) < ws) ==> (fopt.len() == 1 && fopt[0].0 == old_seq[i1].0
        && fopt[0].1@ == old_seq[i1].1@.subrange(0, ws - estart(old_seq[i1]))))
    &&& (!(i1 < i2 && estart(old_seq[i1]) < ws) ==> fopt.len() == 0)
    &&& ((i1 < i2 && eend(old_seq[i2 - 1]) > we) ==> (ropt.len() == 1 && ropt[0].0 == we
        && ropt[0].1@ == old_seq[i2 - 1].1@.subrange(
        we - estart(old_seq[i2 - 1]),
        old_seq[i2 - 1].1@.len() as int,
    )))
    &&& (!(i1 < i2 && eend(old_seq[i2 - 1]) > we) ==> ropt.len() == 0)
    &&& new_seq == old_seq.subrange(0, i1) + fopt + seq![((ws as u64), e)] + ropt
        + old_seq.subrange(i2, old_seq.len() as int)
}

/// Where each element of the written table comes from.
proof fn lemma_write_shape_index(
    old_seq: Seq<(u64, Extent)>,
    new_seq: Seq<(u64, Extent)>,
    i1: int,
    i2: int,
    ws: int,
    we: int,
    e: Extent,
    fopt: Seq<(u64, Extent)>,
    ropt: Seq<(u64, Extent)>,
)
    requires
        write_shape(old_seq, new_seq, i1, i2, ws, we, e, fopt, ropt),
    ensures
        new_seq.len() == i1 + fopt.len() + 1 + ropt.len() + (old_seq.len() - i2),
        forall|j: int| 0 <= j < i1 ==> #[trigger] new_seq[j] == old_seq[j],
        forall|j: int| 0 <= j < fopt.len() ==> #[trigger] new_seq[i1 + j] == fopt[j],
        new_seq[i1 + fopt.len()] == ((ws as u64), e),
        forall|j: int|
            0 <= j < ropt.len() ==> #[trigger] new_seq[i1 + fopt.len() + 1 + j] == ropt[j],
        forall|j: int|
            i2 <= j < old_seq.len() ==> #[trigger] new_seq[i1 + fopt.len() + 1 + ropt.len() + (j
                - i2)] == old_seq[j],
{
    assert(seq![((ws as u64), e)][0] == ((ws as u64), e));
}

/// The written table is well formed.
#[verifier::rlimit(100)]
proof fn lemma_write_shape_wf(
    old_seq: Seq<(u64, Extent)>,
    new_seq: Seq<(u64, Extent)>,
    i1: int,
    i2: int,
    ws: int,
    we: int,
    e: Extent,
    fopt: Seq<(u64, Extent)>,
    ropt: Seq<(u64, Extent)>,
)
    requires
        write_shape(old_seq, new_seq, i1, i2, ws, we, e, fopt, ropt),
    ensures
        exts_wf(new_seq),
{
    lemma_write_shape_index(old_seq, new_seq, i1, i2, ws, we, e, fopt, ropt);
    let fl = fopt.len() as int;
    let rl = ropt.len() as int;
    let mid: (u64, Extent) = ((ws as u64), e);
    assert forall|j: int| 0 <= j < new_seq.len() implies (#[trigger] new_seq[j]).1@.len() > 0
        && eend(new_seq[j]) <= u64::MAX by {
        if j < i1 {
            assert(new_seq[j] == old_seq[j]);
        } else if j < i1 + fl {
            assert(new_seq[j] == fopt[0]);
        } else if j == i1 + fl {
            assert(new_seq[j] == mid);
        } else if j < i1 + fl + 1 + rl {
            assert(new_seq[j] == ropt[0]);
            assert(eend(old_seq[i2 - 1]) <= u64::MAX);
        } else {
            assert(new_seq[j] == old_seq[j - (i1 + fl + 1 + rl) + i2]);
        }
    }
    assert forall|j: int| 0 <= j < new_seq.len() - 1 implies eend(#[trigger] new_seq[j]) <= estart(
        new_seq[j + 1],
    ) by {
        if j < i1 - 1 {
            // both inside the untouched prefix
            assert(new_seq[j] == old_seq[j]);
            assert(new_seq[j + 1] == old_seq[j + 1]);
        } else if j == i1 - 1 {
            // last of the prefix, up to the left remainder or the write
            assert(new_seq[j] == old_seq[j]);
            if fl == 1 {
                assert(new_seq[j + 1] == fopt[0]);
            } else {
                assert(new_seq[j + 1] == mid);
                assert(eend(old_seq[j]) <= ws);
            }
        } else if i1 <= j && j < i1 + fl {
            // left remainder, ending exactly at the window start
            assert(new_seq[j] == fopt[0]);
            assert(new_seq[j + 1] == mid);
            assert(eend(fopt[0]) == ws);
        } else if j == i1 + fl {
            // the written extent, up to the right remainder or the tail
            assert(new_seq[j] == mid);
            assert(eend(mid) == we);
            if rl == 1 {
                assert(new_seq[j + 1] == ropt[0]);
            } else {
                assert(new_seq[j + 1] == old_seq[i2]);
                assert(estart(old_seq[i2]) >= we);
            }
        } else if j < i1 + fl + 1 + rl {
            // right remainder, ending where the last touched extent did
            assert(new_seq[j] == ropt[0]);
            assert(new_seq[j + 1] == old_seq[i2]);
            assert(eend(ropt[0]) == eend(old_seq[i2 - 1]));
            assert(eend(old_seq[i2 - 1]) <= estart(old_seq[i2]));
        } else {
            // both inside the untouched tail
            let m = j - (i1 + fl + 1 + rl) + i2;
            assert(new_seq[j] == old_seq[m]);
            assert(new_seq[j + 1] == old_seq[m + 1]);
        }
    }
}

/// The written file is as long as the write end or the old file, whichever
/// is greater.
proof fn lemma_write_shape_len(
    old_seq: Seq<(u64, Extent)>,
    new_seq: Seq<(u64, Extent)>,
    i1: int,
    i2: int,
    ws: int,
    we: int,
    e: Extent,
    fopt: Seq<(u64, Extent)>,
    ropt: Seq<(u64, Extent)>,
)
    requires
        write_shape(old_seq, new_seq, i1, i2, ws, we, e, fopt, ropt),
    ensures
        exts_len(new_seq) == vstd::math::max(exts_len(old_seq), we),
{
    lemma_write_shape_index(old_seq, new_seq, i1, i2, ws, we, e, fopt, ropt);
    let fl = fopt.len() as int;
    let rl = ropt.len() as int;
    let mid: (u64, Extent) = ((ws as u64), e);
    if i2 < old_seq.len() {
        assert(new_seq.last() == old_seq.last());
        assert(exts_len(old_seq) >= we) by {
            assert(estart(old_seq[i2]) >= we);
            if i2 < old_seq.len() - 1 {
                lemma_exts_ordered(old_seq, i2, old_seq.len() - 1);
            }
        }
    } else {
        // the untouched tail is empty
        if rl == 1 {
            assert(new_seq.last() == ropt[0]);
            assert(eend(ropt[0]) == eend(old_seq[i2 - 1]));
            assert(exts_len(old_seq) == eend(old_seq[i2 - 1]));
        } else if i1 < i2 {
            assert(new_seq.last() == mid);
            assert(exts_len(old_seq) == eend(old_seq[i2 - 1]));
            assert(eend(old_seq[i2 - 1]) <= we);
        } else {
            // no extent was touched at all
            assert(new_seq.last() == mid);
            if old_seq.len() > 0 {
                assert(eend(old_seq[old_seq.len() - 1]) <= ws);
            }
        }
    }
}

/// A byte before the write window is unchanged.
#[verifier::rlimit(100)]
proof fn lemma_write_shape_byte_before(
    old_seq: Seq<(u64, Extent)>,
    new_seq: Seq<(u64, Extent)>,
    i1: int,
    i2: int,
    ws: int,
    we: int,
    e: Extent,
    fopt: Seq<(u64, Extent)>,
    ropt: Seq<(u64, Extent)>,
    pos: int,
)
    requires
        write_shape(old_seq, new_seq, i1, i2, ws, we, e, fopt, ropt),
        pos < ws,
    ensures
        exts_byte(new_seq, pos) == exts_byte(old_seq, pos),
{
    lemma_write_shape_index(old_seq, new_seq, i1, i2, ws, we, e, fopt, ropt);
    lemma_write_shape_wf(old_seq, new_seq, i1, i2, ws, we, e, fopt, ropt);
    let fl = fopt.len() as int;
    let rl = ropt.len() as int;
    if exts_covered(old_seq, pos) {
        let j = choose|j: int|
            0 <= j < old_seq.len() && estart(#[trigger] old_seq[j]) <= pos < eend(old_seq[j]);
        lemma_byte_at_index(old_seq, j, pos);
        if j < i1 {
            // an untouched extent covers the byte on both sides
            assert(new_seq[j] == old_seq[j]);
            lemma_byte_at_index(new_seq, j, pos);
        } else if j == i1 {
            // the left remainder of the split extent covers it
            assert(i1 < i2) by {
                if i1 == i2 && i2 < old_seq.len() {
                    assert(estart(old_seq[i2]) >= we);
                }
            }
            assert(fl == 1);
            assert(new_seq[i1] == fopt[0]);
            assert(estart(fopt[0]) <= pos < eend(fopt[0]));
            lemma_byte_at_index(new_seq, i1, pos);
            assert(fopt[0].1@[pos - estart(old_seq[i1])] == old_seq[i1].1@[pos - estart(
                old_seq[i1],
            )]);
        } else {
            // impossible: extents past the first touched one start after ws
            lemma_exts_ordered(old_seq, i1, j);
            assert(false);
        }
    } else {
        lemma_byte_uncovered(old_seq, pos);
        assert(!exts_covered(new_seq, pos)) by {
            if exts_covered(new_seq, pos) {
                let j = choose|j: int|
                    0 <= j < new_seq.len() && estart(#[trigger] new_seq[j]) <= pos < eend(
                        new_seq[j],
                    );
                if j < i1 {
                    assert(new_seq[j] == old_seq[j]);
                    assert(exts_covered(old_seq, pos));
                } else if j < i1 + fl {
                    assert(new_seq[j] == fopt[0]);
                    assert(estart(old_seq[i1]) <= pos);
                    assert(eend(old_seq[i1]) > ws);
                    assert(exts_covered(old_seq, pos));
                } else if j == i1 + fl {
                    assert(estart(new_seq[j]) == ws);
                } else if j < i1 + fl + 1 + rl {
                    assert(new_seq[j] == ropt[0]);
                    assert(estart(ropt[0]) == we);
                } else {
                    let m = j - (i1 + fl + 1 + rl) + i2;
                    assert(new_seq[j] == old_seq[m]);
                    assert(estart(old_seq[m]) >= we) by {
                        if m > i2 {
                            lemma_exts_ordered(old_seq, i2, m);
                        }
                    }
                }
            }
        }
        lemma_byte_uncovered(new_seq, pos);
    }
}

/// A byte inside the write window comes from the written extent.
proof fn lemma_write_shape_byte_inside(
    old_seq: Seq<(u64, Extent)>,
    new_seq: Seq<(u64, Extent)>,
    i1: int,
    i2: int,
    ws: int,
    we: int,
    e: Extent,
    fopt: Seq<(u64, Extent)>,
    ropt: Seq<(u64, Extent)>,
    pos: int,
)
    requires
        write_shape(old_seq, new_seq, i1, i2, ws, we, e, fopt, ropt),
        ws <= pos < we,
    ensures
        exts_byte(new_seq, pos) == e@[pos - ws],
{
    lemma_write_shape_index(old_seq, new_seq, i1, i2, ws, we, e, fopt, ropt);
    lemma_write_shape_wf(old_seq, new_seq, i1, i2, ws, we, e, fopt, ropt);
    let fl = fopt.len() as int;
    assert(new_seq[i1 + fl] == ((ws as u64), e));
    assert(estart(new_seq[i1 + fl]) <= pos < eend(new_seq[i1 + fl]));
    lemma_byte_at_index(new_seq, i1 + fl, pos);
}

/// A byte past the write window is unchanged.
#[verifier::rlimit(100)]
#[verifier::spinoff_prover]
proof fn lemma_write_shape_byte_after(
    old_seq: Seq<(u64, Extent)>,
    new_seq: Seq<(u64, Extent)>,
    i1: int,
    i2: int,
    ws: int,
    we: int,
    e: Extent,
    fopt: Seq<(u64, Extent)>,
    ropt: Seq<(u64, Extent)>,
    pos: int,
)
    requires
        write_shape(old_seq, new_seq, i1, i2, ws, we, e, fopt, ropt),
    pos >= we,
    ensures
        exts_byte(new_seq, pos) == exts_byte(old_seq, pos),
{
    lemma_write_shape_index(old_seq, new_seq, i1, i2, ws, we, e, fopt, ropt);
    lemma_write_shape_wf(old_seq, new_seq, i1, i2, ws, we, e, fopt, ropt);
    let fl = fopt.len() as int;
    let rl = ropt.len() as int;
    if rl == 1 && pos < eend(old_seq[i2 - 1]) {
        // the right remainder of the split extent covers the byte
        assert(new_seq[i1 + fl + 1] == ropt[0]);
        assert(estart(ropt[0]) == we);
        assert(eend(ropt[0]) == eend(old_seq[i2 - 1]));
        lemma_byte_at_index(new_seq, i1 + fl + 1, pos);
        assert(ropt[0].1@[pos - we] == old_seq[i2 - 1].1@[pos - estart(old_seq[i2 - 1])]);
        assert(estart(old_seq[i2 - 1]) <= pos < eend(old_seq[i2 - 1])) by {
            assert(estart(old_seq[i2 - 1]) < we);
        }
        lemma_byte_at_index(old_seq, i2 - 1, pos);
    } else if exts_covered(old_seq, pos) {
        let j = choose|j: int|
            0 <= j < old_seq.len() && estart(#[trigger] old_seq[j]) <= pos < eend(old_seq[j]);
        lemma_byte_at_index(old_seq, j, pos);
        assert(j >= i2) by {
            if j < i1 {
                assert(eend(old_seq[j]) <= ws);
            } else if j < i2 {
                assert(eend(old_seq[j]) <= pos) by {
                    if j < i2 - 1 {
                        lemma_exts_ordered(old_seq, j, i2 - 1);
                    }
                    if rl == 1 {
                        assert(pos >= eend(old_seq[i2 - 1]));
                    } else {
                        assert(eend(old_seq[i2 - 1]) <= we);
                    }
                }
            }
        }
        assert(new_seq[i1 + fl + 1 + rl + (j - i2)] == old_seq[j]);
        lemma_byte_at_index(new_seq, i1 + fl + 1 + rl + (j - i2), pos);
    } else {
        lemma_byte_uncovered(old_seq, pos);
        assert(!exts_covered(new_seq, pos)) by {
            if exts_covered(new_seq, pos) {
                let j = choose|j: int|
                    0 <= j < new_seq.len() && estart(#[trigger] new_seq[j]) <= pos < eend(
                        new_seq[j],
                    );
                if j < i1 {
                    assert(new_seq[j] == old_seq[j]);
                    assert(eend(old_seq[j]) <= ws);
                } else if j < i1 + fl {
                    assert(new_seq[j] == fopt[0]);
                    assert(eend(fopt[0]) == ws);
                } else if j == i1 + fl {
                    assert(eend(new_seq[j]) == we);
                } else if j < i1 + fl + 1 + rl {
                    assert(new_seq[j] == ropt[0]);
                    assert(eend(ropt[0]) == eend(old_seq[i2 - 1]));
                } else {
                    let m = j - (i1 + fl + 1 + rl) + i2;
                    assert(new_seq[j] == old_seq[m]);
                    assert(exts_covered(old_seq, pos));
                }
            }
        }
        lemma_byte_uncovered(new_seq, pos);
    }
}

/// The written table reads as the old one with the window replaced by the
/// new extent's bytes.
proof fn lemma_write_shape_bytes(
    old_seq: Seq<(u64, Extent)>,
    new_seq: Seq<(u64, Extent)>,
    i1: int,
    i2: int,
    ws: int,
    we: int,
    e: Extent,
    fopt: Seq<(u64, Extent)>,
    ropt: Seq<(u64, Extent)>,
)
    requires
        write_shape(old_seq, new_seq, i1, i2, ws, we, e, fopt, ropt),
    ensures
        forall|pos: int|
            #[trigger] exts_byte(new_seq, pos) == if ws <= pos < we {
                e@[pos - ws]
            } else {
                exts_byte(old_seq, pos)
            },
{
    assert forall|pos: int| #[trigger] exts_byte(new_seq, pos) == (if ws <= pos < we {
        e@[pos - ws]
    } else {
        exts_byte(old_seq, pos)
    }) by {
        if pos < ws {
            lemma_write_shape_byte_before(old_seq, new_seq, i1, i2, ws, we, e, fopt, ropt, pos);
        } else if pos < we {
            lemma_write_shape_byte_inside(old_seq, new_seq, i1, i2, ws, we, e, fopt, ropt, pos);
        } else {
            lemma_write_shape_byte_after(old_seq, new_seq, i1, i2, ws, we, e, fopt, ropt, pos);
        }
    }
}

/// The combined statement of the write surgery: well-formed result, new
/// length, and byte-for-byte contents.
pub proof fn lemma_write_shape(
    old_seq: Seq<(u64, Extent)>,
    new_seq: Seq<(u64, Extent)>,
    i1: int,
    i2: int,
    ws: int,
    we: int,
    e: Extent,
    fopt: Seq<(u64, Extent)>,
    ropt: Seq<(u64, Extent)>,
)
    requires
        write_shape(old_seq, new_seq, i1, i2, ws, we, e, fopt, ropt),
    ensures
        exts_wf(new_seq),
        exts_len(new_seq) == vstd::math::max(exts_len(old_seq), we),
        forall|pos: int|
            #[trigger] exts_byte(new_seq, pos) == if ws <= pos < we {
                e@[pos - ws]
            } else {
                exts_byte(old_seq, pos)
            },
{
    lemma_write_shape_wf(old_seq, new_seq, i1, i2, ws, we, e, fopt, ropt);
    lemma_write_shape_len(old_seq, new_seq, i1, i2, ws, we, e, fopt, ropt);
    lemma_write_shape_bytes(old_seq, new_seq, i1, i2, ws, we, e, fopt, ropt);
}

/// Everything a write needs to know afterwards: the new table is well
/// formed and describes the old contents with the window spliced in.
pub proof fn lemma_write_finish(
    old_seq: Seq<(u64, Extent)>,
    new_seq: Seq<(u64, Extent)>,
    i1: int,
    i2: int,
    ws: int,
    we: int,
    e: Extent,
    fopt: Seq<(u64, Extent)>,
    ropt: Seq<(u64, Extent)>,
)
    requires
        write_shape(old_seq, new_seq, i1, i2, ws, we, e, fopt, ropt),
    ensures
        exts_wf(new_seq),
        exts_len(new_seq) == vstd::math::max(exts_len(old_seq), we),
        Seq::new(exts_len(new_seq) as nat, |i: int| exts_byte(new_seq, i)) == write_seq(
            Seq::new(exts_len(old_seq) as nat, |i: int| exts_byte(old_seq, i)),
            ws,
            e@,
        ),
{
    lemma_write_shape_wf(old_seq, new_seq, i1, i2, ws, we, e, fopt, ropt);
    lemma_write_shape_len(old_seq, new_seq, i1, i2, ws, we, e, fopt, ropt);
    lemma_write_shape_bytes(old_seq, new_seq, i1, i2, ws, we, e, fopt, ropt);
    let old_contents = Seq::new(exts_len(old_seq) as nat, |i: int| exts_byte(old_seq, i));
    let new_contents = Seq::new(exts_len(new_seq) as nat, |i: int| exts_byte(new_seq, i));
    let expect = write_seq(old_contents, ws, e@);
    assert forall|i: int| 0 <= i < new_contents.len() implies new_contents[i] == expect[i] by {
        if !(ws <= i < we) && i >= exts_len(old_seq) {
            lemma_byte_beyond(old_seq, i);
        }
    }
    assert(new_contents =~= expect);
}

/// Replace the extent-table range touched by the window `[ws, we)` with
/// the extent `e`, splitting the first and last touched extents as needed.
/// `i1` is the first extent ending past `ws` and `i2` the first starting at
/// or past `we`.
#[verifier::rlimit(100)]
#[verifier::spinoff_prover]
fn splice_extents(extents: &mut Vec<(u64, Extent)>, i1: usize, i2: usize, ws: u64, we: u64, e: Extent)
    requires
        exts_wf(old(extents)@),
        i1 <= i2 <= old(extents)@.len(),
        ws < we <= u64::MAX,
        e@.len() == we - ws,
        forall|j: int| 0 <= j < i1 ==> eend(#[trigger] old(extents)@[j]) <= ws,
        i1 < old(extents)@.len() ==> eend(old(extents)@[i1 as int]) > ws,
        forall|j: int| i1 <= j < i2 ==> estart(#[trigger] old(extents)@[j]) < we,
        i2 < old(extents)@.len() ==> estart(old(extents)@[i2 as int]) >= we,
    ensures
        exts_wf(final(extents)@),
        exts_len(final(extents)@) == vstd::math::max(exts_len(old(extents)@), we as int),
        Seq::new(exts_len(final(extents)@) as nat, |i: int| exts_byte(final(extents)@, i))
            == write_seq(
            Seq::new(exts_len(old(extents)@) as nat, |i: int| exts_byte(old(extents)@, i)),
            ws as int,
            e@,
        ),
{
    let ghost old_seq = extents@;
    let mut tail = extents.split_off(i2);
    let mut kept_first = false;
    let mut kept_right = false;
    if i1 < i2 {
        // the last touched extent: split its remainder past the window
        // into the tail
        let (ls, mut lext) = extents.pop().unwrap();
        proof {
            assert(extents@ =~= old_seq.subrange(0, i2 - 1));
        }
        let lend = ls + lext.len();
        if lend > we {
            let right = lext.split_at(we - ls);
            tail.insert(0, (we, right));
            kept_right = true;
        }
        if i2 - 1 == i1 {
            // the same extent is also the first touched one: keep its
            // prefix before the window
            if ls < ws {
                let _covered = lext.split_at(ws - ls);
                proof {
                    assert(lext@ =~= old_seq[i1 as int].1@.subrange(0, ws - ls));
                }
                extents.push((ls, lext));
                kept_first = true;
            }
        } else {
            // drop the fully covered extents in between
            while extents.len() > i1 + 1
                invariant
                    i1 + 1 <= extents@.len() <= old_seq.len(),
                    extents@ == old_seq.subrange(0, extents@.len() as int),
                decreases extents@.len(),
            {
                let _dropped = extents.pop();
                proof {
                    assert(extents@ =~= old_seq.subrange(0, extents@.len() as int));
                }
            }
            // the first touched extent: keep its prefix before the window
            let (fs, mut fext) = extents.pop().unwrap();
            if fs < ws {
                let _covered = fext.split_at(ws - fs);
                extents.push((fs, fext));
                kept_first = true;
            }
        }
    }
    extents.push((ws, e));
    extents.append(&mut tail);

    proof {
        let new_seq = extents@;
        let fl: int = if kept_first {
            1
        } else {
            0
        };
        let rl: int = if kept_right {
            1
        } else {
            0
        };
        let fopt = new_seq.subrange(i1 as int, i1 + fl);
        let ropt = new_seq.subrange(i1 + fl + 1, i1 + fl + 1 + rl);
        assert(new_seq =~= old_seq.subrange(0, i1 as int) + fopt + seq![((ws as u64), e)]
            + ropt + old_seq.subrange(i2 as int, old_seq.len() as int));
        assert(write_shape(
            old_seq,
            new_seq,
            i1 as int,
            i2 as int,
            ws as int,
            we as int,
            e,
            fopt,
            ropt,
        ));
        lemma_write_finish(
            old_seq,
            new_seq,
            i1 as int,
            i2 as int,
            ws as int,
            we as int,
            e,
            fopt,
            ropt,
        );
    }
}

impl File {
    /// Write an extent at byte offset `pos`. The bytes of the extent fully
    /// replace whatever was in `[pos, pos + len)`: neighbouring extents are
    /// shrunk or split and never overlap the new one.
    #[verifier::rlimit(100)]
    #[verifier::spinoff_prover]
    pub fn write_at(&mut self, pos: u64, e: Extent)
        requires
            old(self).wf(),
            pos + e@.len() <= u64::MAX,
        ensures
            final(self).wf(),
            final(self).metadata == old(self).metadata,
            final(self).contents() == write_seq(old(self).contents(), pos as int, e@),
            final(self).len_spec() == if e@.len() == 0 {
                old(self).len_spec()
            } else {
                vstd::math::max(old(self).len_spec(), pos + e@.len())
            },
    {
        let ghost old_seq = self.extents@;
        let elen = e.len();
        if elen == 0 {
            return ;
        }
        let ws = pos;
        let we = pos + elen;
        let n = self.extents.len();

        // first extent that ends past the write start
        let mut i1: usize = 0;
        let mut stop1 = false;
        while i1 < n && !stop1
            invariant
                exts_wf(old_seq),
                old_seq == self.extents@,
                n == old_seq.len(),
                i1 <= n,
                forall|j: int| 0 <= j < i1 ==> eend(#[trigger] old_seq[j]) <= ws,
                stop1 ==> i1 < n && eend(old_seq[i1 as int]) > ws,
            decreases n - i1 + if stop1 {
                0int
            } else {
                1int
            },
        {
            let (s, ext) = &self.extents[i1];
            if *s + ext.len() <= ws {
                i1 = i1 + 1;
            } else {
                stop1 = true;
            }
        }

        // first extent at or past the write end
        let mut i2: usize = i1;
        let mut stop2 = false;
        while i2 < n && !stop2
            invariant
                exts_wf(old_seq),
                old_seq == self.extents@,
                n == old_seq.len(),
                i1 <= i2 <= n,
                forall|j: int| i1 <= j < i2 ==> estart(#[trigger] old_seq[j]) < we,
                stop2 ==> i2 < n && estart(old_seq[i2 as int]) >= we,
            decreases n - i2 + if stop2 {
                0int
            } else {
                1int
            },
        {
            let (s, _) = &self.extents[i2];
            if *s < we {
                i2 = i2 + 1;
            } else {
                stop2 = true;
            }
        }

        splice_extents(&mut self.extents, i1, i2, ws, we, e);
    }
}


/// Where a seek starts from.
#[derive(Clone, Copy, PartialEq, Eq, Structural, Debug)]
pub enum SeekFrom {
    /// From the start of the file, to an absolute offset.
    Start(u64),
    /// Relative to the end of the file.
    End(i64),
    /// Relative to the current position.
    Current(i64),
}

/// A positioned writer. Opened at the end of the file; seek moves it.
pub struct Writer {
    pub pos: u64,
}

impl File {
    /// Open a writer at the end of the file. Seek moves it elsewhere.
    pub fn writer(&self) -> (r: Writer)
        requires
            self.wf(),
        ensures
            r.pos == self.len_spec(),
    {
        Writer { pos: self.len() }
    }
}

impl Writer {
    /// Write an extent at the current position and advance past it. The
    /// extent's bytes fully replace what was in their range.
    pub fn write(&mut self, f: &mut File, e: Extent)
        requires
            old(f).wf(),
            old(self).pos + e@.len() <= u64::MAX,
        ensures
            final(f).wf(),
            final(f).metadata == old(f).metadata,
            final(f).contents() == write_seq(old(f).contents(), old(self).pos as int, e@),
            final(self).pos == old(self).pos + e@.len(),
            final(f).len_spec() == if e@.len() == 0 {
                old(f).len_spec()
            } else {
                vstd::math::max(old(f).len_spec(), old(self).pos + e@.len())
            },
    {
        let n = e.len();
        f.write_at(self.pos, e);
        self.pos = self.pos + n;
    }

    /// Write bytes at the current position, as a single owned extent.
    pub fn write_bytes(&mut self, f: &mut File, data: Vec<u8>)
        requires
            old(f).wf(),
            old(self).pos + data@.len() <= u64::MAX,
        ensures
            final(f).wf(),
            final(f).metadata == old(f).metadata,
            final(f).contents() == write_seq(old(f).contents(), old(self).pos as int, data@),
            final(self).pos == old(self).pos + data@.len(),
            final(f).len_spec() == if data@.len() == 0 {
                old(f).len_spec()
            } else {
                vstd::math::max(old(f).len_spec(), old(self).pos + data@.len())
            },
    {
        let e = Extent::from_vec(data);
        self.write(f, e);
    }

    /// Move the position. Seeks from the end or the current position that
    /// would land before offset zero or past the largest representable
    /// offset fail and leave the position unchanged.
    pub fn seek(&mut self, f: &File, from: SeekFrom) -> (r: Result<u64, FsError>)
        requires
            f.wf(),
        ensures
            match from {
                SeekFrom::Start(n) => r == Ok::<u64, FsError>(n) && final(self).pos == n,
                SeekFrom::End(d) => seek_outcome(f.len_spec(), d as int, *old(self), *final(self), r),
                SeekFrom::Current(d) => seek_outcome(
                    old(self).pos as int,
                    d as int,
                    *old(self),
                    *final(self),
                    r,
                ),
            },
    {
        match from {
            SeekFrom::Start(n) => {
                self.pos = n;
                Ok(n)
            }
            SeekFrom::End(d) => {
                let base = f.len();
                self.seek_relative(base, d)
            }
            SeekFrom::Current(d) => {
                let base = self.pos;
                self.seek_relative(base, d)
            }
        }
    }

    fn seek_relative(&mut self, base: u64, d: i64) -> (r: Result<u64, FsError>)
        ensures
            seek_outcome(base as int, d as int, *old(self), *final(self), r),
    {
        if d >= 0 {
            let du = d as u64;
            if base <= u64::MAX - du {
                self.pos = base + du;
                Ok(self.pos)
            } else {
                Err(FsError::InvalidInput)
            }
        } else {
            let mag = ((-(d + 1)) as u64) + 1;
            if base >= mag {
                self.pos = base - mag;
                Ok(self.pos)
            } else {
                Err(FsError::InvalidInput)
            }
        }
    }
}

/// The outcome of a relative seek: the new position when it stays in range,
/// an error and an unchanged position otherwise.
pub open spec fn seek_outcome(
    base: int,
    d: int,
    before: Writer,
    after: Writer,
    r: Result<u64, FsError>,
) -> bool {
    if 0 <= base + d <= u64::MAX {
        r == Ok::<u64, FsError>((base + d) as u64) && after.pos == base + d
    } else {
        r == Err::<u64, FsError>(FsError::InvalidInput) && after.pos == before.pos
    }
}

} // verus!
