//! The diff engine: per-path classification of two filesystems into added,
//! removed and changed entries, under an active field mask. Rendering the
//! classified entries as text is left to the caller.

use vstd::prelude::*;

use crate::cmp::ApproxEq;
use crate::cmp::Fields;
use crate::entry::Entry;
use crate::pair_cmp;
use crate::path::BytesPath;
use crate::Filesystem;

verus! {

/// One titled section of an entry rendered for display.
pub struct DiffSection {
    pub title: &'static str,
    pub contents: Vec<u8>,
}

/// A value that can be rendered as titled sections for display in a diff.
/// Only used for display; comparison goes through [`ApproxEq`].
pub trait Diffable {
    fn to_diffable_sections(&self) -> Vec<DiffSection>;
}

/// How one path differs between two filesystems.
pub enum Diff {
    /// The right side lacks this entry of the left side.
    Removed(Entry),
    /// The right side added this entry that the left side lacks.
    Added(Entry),
    /// Both sides hold the path but the entries differ on the active
    /// fields.
    Changed { left: Entry, right: Entry },
}

/// The claim one classified path makes about the two filesystems.
pub open spec fn diff_entry_ok(
    left: &Filesystem,
    right: &Filesystem,
    fields: Fields,
    p: Seq<u8>,
    d: &Diff,
) -> bool {
    match d {
        Diff::Removed(e) => left.paths.contains_spec(p) && !right.paths.contains_spec(p)
            && e.eq_spec(&left.entry_map()[p]),
        Diff::Added(e) => right.paths.contains_spec(p) && !left.paths.contains_spec(p)
            && e.eq_spec(&right.entry_map()[p]),
        Diff::Changed { left: l, right: r } => left.paths.contains_spec(p)
            && right.paths.contains_spec(p) && !pair_cmp(left, right, p).contains_spec(fields)
            && l.eq_spec(&left.entry_map()[p]) && r.eq_spec(&right.entry_map()[p]),
    }
}

/// The per-path differences between two filesystems.
pub struct FilesystemDiff {
    pub entry_diffs: Vec<(BytesPath, Diff)>,
}

/// A classified list mentions path `p`.
pub open spec fn out_lists(s: Seq<(BytesPath, Diff)>, p: Seq<u8>) -> bool {
    exists|i: int| 0 <= i < s.len() && (#[trigger] s[i]).0@ == p
}

/// The diff lists path `p`.
pub open spec fn listed(r: FilesystemDiff, p: Seq<u8>) -> bool {
    out_lists(r.entry_diffs@, p)
}

impl FilesystemDiff {
    /// Classify every path of the two filesystems: entries only on the
    /// left come out removed, entries only on the right come out added, and
    /// shared paths whose entries disagree on some active field come out
    /// changed.
    #[verifier::rlimit(100)]
    #[verifier::spinoff_prover]
    pub fn diff(left: &Filesystem, right: &Filesystem, fields: Fields) -> (r: FilesystemDiff)
        requires
            left.wf(),
            right.wf(),
            left.sizes_ok(),
            right.sizes_ok(),
        ensures
            forall|i: int|
                0 <= i < r.entry_diffs@.len() ==> diff_entry_ok(
                    left,
                    right,
                    fields,
                    (#[trigger] r.entry_diffs@[i]).0@,
                    &r.entry_diffs@[i].1,
                ),
            forall|i: int, j: int|
                0 <= i < j < r.entry_diffs@.len() ==> (#[trigger] r.entry_diffs@[i]).0@ != (
                #[trigger] r.entry_diffs@[j]).0@,
            forall|p: Seq<u8>|
                #[trigger] left.paths.contains_spec(p) && !right.paths.contains_spec(p)
                    ==> listed(r, p),
            forall|p: Seq<u8>|
                #[trigger] right.paths.contains_spec(p) && !left.paths.contains_spec(p)
                    ==> listed(r, p),
            forall|p: Seq<u8>|
                left.paths.contains_spec(p) && #[trigger] right.paths.contains_spec(p)
                    && !pair_cmp(left, right, p).contains_spec(fields) ==> listed(r, p),
    {
        let mut out: Vec<(BytesPath, Diff)> = Vec::new();
        let n = left.num_paths();
        let mut i: usize = 0;
        while i < n
            invariant
                left.wf(),
                right.wf(),
                left.sizes_ok(),
                right.sizes_ok(),
                n == left.paths.seq().len(),
                i <= n,
                forall|j: int|
                    0 <= j < out@.len() ==> diff_entry_ok(
                        left,
                        right,
                        fields,
                        (#[trigger] out@[j]).0@,
                        &out@[j].1,
                    ),
                forall|a: int|
                    0 <= a < out@.len() ==> exists|j: int|
                        0 <= j < i && (#[trigger] out@[a]).0@ == left.paths.seq()[j].0@,
                forall|a: int|
                    0 <= a < out@.len() ==> left.paths.contains_spec((#[trigger] out@[a]).0@),
                forall|a: int, b: int|
                    0 <= a < b < out@.len() ==> (#[trigger] out@[a]).0@ != (
                    #[trigger] out@[b]).0@,
                forall|j: int|
                    0 <= j < i && (!right.paths.contains_spec(
                        (#[trigger] left.paths.seq()[j]).0@,
                    ) || !pair_cmp(left, right, left.paths.seq()[j].0@).contains_spec(fields))
                        ==> out_lists(out@, left.paths.seq()[j].0@),
            decreases n - i,
        {
            let ghost pre = out@;
            let (p, ea) = left.entry_at(i);
            proof {
                left.paths.lemma_get_at(i as int);
                left.paths.lemma_distinct();
                left.lemma_path_values();
            }
            match right.paths.get(p.as_slice()) {
                Some(key) => {
                    proof {
                        right.paths.lemma_get_index(p@);
                        right.lemma_path_values();
                        assert(right.entry_map()[p@] == right.inodes@[key.0 as int]);
                        assert(left.entry_map()[p@].wf() && left.entry_map()[p@].sizes_ok());
                        assert(right.entry_map()[p@].wf() && right.entry_map()[p@].sizes_ok());
                    }
                    let eb = &right.inodes[key.0];
                    let c = ApproxEq::cmp(ea, eb);
                    if !c.contains(fields) {
                        let pathc = BytesPath::from_vec(crate::path::clone_bytes(p));
                        out.push((pathc, Diff::Changed { left: ea.dup(), right: eb.dup() }));
                        proof {
                            assert(out@[out@.len() - 1].0@ == left.paths.seq()[i as int].0@);
                        }
                    }
                }
                None => {
                    let pathc = BytesPath::from_vec(crate::path::clone_bytes(p));
                    out.push((pathc, Diff::Removed(ea.dup())));
                    proof {
                        assert(out@[out@.len() - 1].0@ == left.paths.seq()[i as int].0@);
                    }
                }
            }
            proof {
                assert forall|j: int|
                    0 <= j < i + 1 && (!right.paths.contains_spec(
                        (#[trigger] left.paths.seq()[j]).0@,
                    ) || !pair_cmp(left, right, left.paths.seq()[j].0@).contains_spec(
                        fields,
                    )) implies out_lists(out@, left.paths.seq()[j].0@) by {
                    if j < i {
                        if out_lists(pre, left.paths.seq()[j].0@) {
                            let a = choose|a: int|
                                0 <= a < pre.len() && (#[trigger] pre[a]).0@
                                    == left.paths.seq()[j].0@;
                            assert(out@[a] == pre[a]);
                        }
                    }
                }
            }
            i = i + 1;
        }
        let ghost base = out@.len() as int;
        let ghost left_done = out@;
        let m = right.num_paths();
        let mut k: usize = 0;
        while k < m
            invariant
                left.wf(),
                right.wf(),
                left.sizes_ok(),
                right.sizes_ok(),
                m == right.paths.seq().len(),
                k <= m,
                0 <= base <= out@.len(),
                base == left_done.len(),
                out@.subrange(0, base) == left_done,
                forall|j: int|
                    0 <= j < out@.len() ==> diff_entry_ok(
                        left,
                        right,
                        fields,
                        (#[trigger] out@[j]).0@,
                        &out@[j].1,
                    ),
                forall|a: int|
                    0 <= a < base ==> left.paths.contains_spec((#[trigger] out@[a]).0@),
                forall|a: int|
                    base <= a < out@.len() ==> !left.paths.contains_spec(
                        (#[trigger] out@[a]).0@,
                    ),
                forall|a: int, b: int|
                    0 <= a < b < out@.len() ==> (#[trigger] out@[a]).0@ != (
                    #[trigger] out@[b]).0@,
                forall|a: int|
                    base <= a < out@.len() ==> exists|j: int|
                        0 <= j < k && (#[trigger] out@[a]).0@ == right.paths.seq()[j].0@,
                forall|p2: Seq<u8>|
                    #[trigger] out_lists(left_done, p2) ==> out_lists(out@, p2),
                forall|j: int|
                    0 <= j < k && !left.paths.contains_spec(
                        (#[trigger] right.paths.seq()[j]).0@,
                    ) ==> out_lists(out@, right.paths.seq()[j].0@),
            decreases m - k,
        {
            let ghost pre = out@;
            let (p, eb) = right.entry_at(k);
            proof {
                right.paths.lemma_get_at(k as int);
                right.paths.lemma_distinct();
            }
            match left.paths.get(p.as_slice()) {
                Some(_) => {
                }
                None => {
                    let pathc = BytesPath::from_vec(crate::path::clone_bytes(p));
                    out.push((pathc, Diff::Added(eb.dup())));
                    proof {
                        assert(out@.subrange(0, base) =~= left_done);
                        assert(out@[out@.len() - 1].0@ == right.paths.seq()[k as int].0@);
                    }
                }
            }
            proof {
                assert forall|p2: Seq<u8>|
                    #[trigger] out_lists(left_done, p2) implies out_lists(out@, p2) by {
                    if out_lists(pre, p2) {
                        let a = choose|a: int|
                            0 <= a < pre.len() && (#[trigger] pre[a]).0@ == p2;
                        assert(out@[a] == pre[a]);
                    }
                }
                assert forall|j: int|
                    0 <= j < k + 1 && !left.paths.contains_spec(
                        (#[trigger] right.paths.seq()[j]).0@,
                    ) implies out_lists(out@, right.paths.seq()[j].0@) by {
                    if j < k {
                        if out_lists(pre, right.paths.seq()[j].0@) {
                            let a = choose|a: int|
                                0 <= a < pre.len() && (#[trigger] pre[a]).0@
                                    == right.paths.seq()[j].0@;
                            assert(out@[a] == pre[a]);
                        }
                    }
                }
            }
            k = k + 1;
        }
        proof {
            assert forall|p2: Seq<u8>|
                #[trigger] left.paths.contains_spec(p2) && !right.paths.contains_spec(
                    p2,
                ) implies out_lists(out@, p2) by {
                left.paths.lemma_get_index(p2);
            }
            assert forall|p2: Seq<u8>|
                left.paths.contains_spec(p2) && #[trigger] right.paths.contains_spec(p2)
                    && !pair_cmp(left, right, p2).contains_spec(fields) implies out_lists(
                out@,
                p2,
            ) by {
                left.paths.lemma_get_index(p2);
            }
            assert forall|p2: Seq<u8>|
                #[trigger] right.paths.contains_spec(p2) && !left.paths.contains_spec(
                    p2,
                ) implies out_lists(out@, p2) by {
                right.paths.lemma_get_index(p2);
            }
        }
        FilesystemDiff { entry_diffs: out }
    }

    /// How many paths differ.
    pub fn len(&self) -> (r: usize)
        ensures
            r == self.entry_diffs@.len(),
    {
        self.entry_diffs.len()
    }
}

} // verus!
