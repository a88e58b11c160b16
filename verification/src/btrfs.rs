//! Replay of sendstream command logs. A stream opens with a subvolume or
//! snapshot declaration and mutates its filesystem with an ordered sequence
//! of commands; snapshots start from a copy of an already-received
//! subvolume's tree.

use vstd::prelude::*;

use crate::entry::Entry;
use crate::entry::Gid;
use crate::entry::Time;
use crate::entry::Uid;
use crate::file::writer::SeekFrom;
use crate::file::File;
use crate::path::BytesPath;
use crate::Filesystem;
use crate::FsError;

verus! {

/// A subvolume identifier.
#[derive(Clone, Copy, PartialEq, Eq, Structural, Debug, Hash, PartialOrd, Ord)]
pub struct Uuid(pub u128);

/// One sendstream command, with plain values for paths, data and times.
#[derive(Debug)]
pub enum Command {
    /// Begin a fresh subvolume.
    Subvol { uuid: Uuid },
    /// Begin a subvolume as a snapshot of an already-received one.
    Snapshot { uuid: Uuid, clone_uuid: Uuid },
    Chmod { path: BytesPath, mode: u32 },
    Chown { path: BytesPath, uid: Uid, gid: Gid },
    Mkdir { path: BytesPath },
    Mkfile { path: BytesPath },
    Mkfifo { path: BytesPath, file_type: u32, rdev: u64 },
    Mknod { path: BytesPath, file_type: u32, rdev: u64 },
    Mksock { path: BytesPath, file_type: u32, rdev: u64 },
    Symlink { link_name: BytesPath, target: BytesPath },
    Link { target: BytesPath, link_name: BytesPath },
    Rename { from: BytesPath, to: BytesPath },
    Unlink { path: BytesPath },
    Rmdir { path: BytesPath },
    SetXattr { path: BytesPath, name: Vec<u8>, data: Vec<u8> },
    RemoveXattr { path: BytesPath, name: Vec<u8> },
    Truncate { path: BytesPath, size: u64 },
    Write { path: BytesPath, offset: u64, data: Vec<u8> },
    Clone {
        src_path: BytesPath,
        src_offset: u64,
        len: u64,
        dst_path: BytesPath,
        dst_offset: u64,
    },
    Utimes { path: BytesPath, ctime: Time, atime: Time, mtime: Time },
    End,
    UpdateExtent { path: BytesPath, offset: u64, len: u64 },
}

/// What can go wrong while receiving a stream.
#[derive(Debug)]
pub enum Error {
    /// The stream broke a structural rule of the format.
    InvariantViolated(&'static str),
    /// A snapshot named a parent subvolume that was never received.
    MissingParent(Uuid),
    /// A command failed against the store; the offending command is carried
    /// for diagnostics.
    Apply { command: Command, error: FsError },
}

impl Command {
    /// A copy of the command holding equal paths, names and data.
    pub fn dup(&self) -> (r: Command)
        ensures
            cmd_like(*self, r),
    {
        match self {
            Command::Subvol { uuid } => Command::Subvol { uuid: *uuid },
            Command::Snapshot { uuid, clone_uuid } => Command::Snapshot {
                uuid: *uuid,
                clone_uuid: *clone_uuid,
            },
            Command::Chmod { path, mode } => Command::Chmod { path: path.clone(), mode: *mode },
            Command::Chown { path, uid, gid } => Command::Chown {
                path: path.clone(),
                uid: *uid,
                gid: *gid,
            },
            Command::Mkdir { path } => Command::Mkdir { path: path.clone() },
            Command::Mkfile { path } => Command::Mkfile { path: path.clone() },
            Command::Mkfifo { path, file_type, rdev } => Command::Mkfifo {
                path: path.clone(),
                file_type: *file_type,
                rdev: *rdev,
            },
            Command::Mknod { path, file_type, rdev } => Command::Mknod {
                path: path.clone(),
                file_type: *file_type,
                rdev: *rdev,
            },
            Command::Mksock { path, file_type, rdev } => Command::Mksock {
                path: path.clone(),
                file_type: *file_type,
                rdev: *rdev,
            },
            Command::Symlink { link_name, target } => Command::Symlink {
                link_name: link_name.clone(),
                target: target.clone(),
            },
            Command::Link { target, link_name } => Command::Link {
                target: target.clone(),
                link_name: link_name.clone(),
            },
            Command::Rename { from, to } => Command::Rename {
                from: from.clone(),
                to: to.clone(),
            },
            Command::Unlink { path } => Command::Unlink { path: path.clone() },
            Command::Rmdir { path } => Command::Rmdir { path: path.clone() },
            Command::SetXattr { path, name, data } => Command::SetXattr {
                path: path.clone(),
                name: crate::path::clone_bytes(name),
                data: crate::path::clone_bytes(data),
            },
            Command::RemoveXattr { path, name } => Command::RemoveXattr {
                path: path.clone(),
                name: crate::path::clone_bytes(name),
            },
            Command::Truncate { path, size } => Command::Truncate {
                path: path.clone(),
                size: *size,
            },
            Command::Write { path, offset, data } => Command::Write {
                path: path.clone(),
                offset: *offset,
                data: crate::path::clone_bytes(data),
            },
            Command::Clone { src_path, src_offset, len, dst_path, dst_offset } => Command::Clone {
                src_path: src_path.clone(),
                src_offset: *src_offset,
                len: *len,
                dst_path: dst_path.clone(),
                dst_offset: *dst_offset,
            },
            Command::Utimes { path, ctime, atime, mtime } => Command::Utimes {
                path: path.clone(),
                ctime: *ctime,
                atime: *atime,
                mtime: *mtime,
            },
            Command::End => Command::End,
            Command::UpdateExtent { path, offset, len } => Command::UpdateExtent {
                path: path.clone(),
                offset: *offset,
                len: *len,
            },
        }
    }
}

/// Two commands of the same kind carrying equal paths, names, data and
/// numbers.
pub open spec fn cmd_like(a: Command, b: Command) -> bool {
    match (a, b) {
        (Command::Subvol { uuid: u1 }, Command::Subvol { uuid: u2 }) => u1 == u2,
        (
            Command::Snapshot { uuid: u1, clone_uuid: c1 },
            Command::Snapshot { uuid: u2, clone_uuid: c2 },
        ) => u1 == u2 && c1 == c2,
        (Command::Chmod { path: p1, mode: m1 }, Command::Chmod { path: p2, mode: m2 }) => p1@
            == p2@ && m1 == m2,
        (
            Command::Chown { path: p1, uid: u1, gid: g1 },
            Command::Chown { path: p2, uid: u2, gid: g2 },
        ) => p1@ == p2@ && u1 == u2 && g1 == g2,
        (Command::Mkdir { path: p1 }, Command::Mkdir { path: p2 }) => p1@ == p2@,
        (Command::Mkfile { path: p1 }, Command::Mkfile { path: p2 }) => p1@ == p2@,
        (
            Command::Mkfifo { path: p1, file_type: f1, rdev: r1 },
            Command::Mkfifo { path: p2, file_type: f2, rdev: r2 },
        ) => p1@ == p2@ && f1 == f2 && r1 == r2,
        (
            Command::Mknod { path: p1, file_type: f1, rdev: r1 },
            Command::Mknod { path: p2, file_type: f2, rdev: r2 },
        ) => p1@ == p2@ && f1 == f2 && r1 == r2,
        (
            Command::Mksock { path: p1, file_type: f1, rdev: r1 },
            Command::Mksock { path: p2, file_type: f2, rdev: r2 },
        ) => p1@ == p2@ && f1 == f2 && r1 == r2,
        (
            Command::Symlink { link_name: l1, target: t1 },
            Command::Symlink { link_name: l2, target: t2 },
        ) => l1@ == l2@ && t1@ == t2@,
        (
            Command::Link { target: t1, link_name: l1 },
            Command::Link { target: t2, link_name: l2 },
        ) => t1@ == t2@ && l1@ == l2@,
        (Command::Rename { from: f1, to: t1 }, Command::Rename { from: f2, to: t2 }) => f1@ == f2@
            && t1@ == t2@,
        (Command::Unlink { path: p1 }, Command::Unlink { path: p2 }) => p1@ == p2@,
        (Command::Rmdir { path: p1 }, Command::Rmdir { path: p2 }) => p1@ == p2@,
        (
            Command::SetXattr { path: p1, name: n1, data: d1 },
            Command::SetXattr { path: p2, name: n2, data: d2 },
        ) => p1@ == p2@ && n1@ == n2@ && d1@ == d2@,
        (
            Command::RemoveXattr { path: p1, name: n1 },
            Command::RemoveXattr { path: p2, name: n2 },
        ) => p1@ == p2@ && n1@ == n2@,
        (Command::Truncate { path: p1, size: s1 }, Command::Truncate { path: p2, size: s2 }) => p1@
            == p2@ && s1 == s2,
        (
            Command::Write { path: p1, offset: o1, data: d1 },
            Command::Write { path: p2, offset: o2, data: d2 },
        ) => p1@ == p2@ && o1 == o2 && d1@ == d2@,
        (
            Command::Clone { src_path: s1, src_offset: so1, len: l1, dst_path: d1, dst_offset: do1 },
            Command::Clone { src_path: s2, src_offset: so2, len: l2, dst_path: d2, dst_offset: do2 },
        ) => s1@ == s2@ && so1 == so2 && l1 == l2 && d1@ == d2@ && do1 == do2,
        (
            Command::Utimes { path: p1, ctime: c1, atime: a1, mtime: m1 },
            Command::Utimes { path: p2, ctime: c2, atime: a2, mtime: m2 },
        ) => p1@ == p2@ && c1 == c2 && a1 == a2 && m1 == m2,
        (Command::End, Command::End) => true,
        (
            Command::UpdateExtent { path: p1, offset: o1, len: l1 },
            Command::UpdateExtent { path: p2, offset: o2, len: l2 },
        ) => p1@ == p2@ && o1 == o2 && l1 == l2,
        _ => false,
    }
}

/// A received subvolume: the uuid of its snapshot origin, if any, and its
/// filesystem.
pub struct Subvol {
    pub parent_uuid: Option<Uuid>,
    pub fs: Filesystem,
}

impl Subvol {
    /// A fresh, empty subvolume.
    pub fn new() -> (r: Subvol)
        ensures
            r.parent_uuid is None,
            r.fs.wf(),
            r.fs.path_map() == Map::<Seq<u8>, crate::InodeKey>::empty(),
            r.fs.inodes@.len() == 0,
    {
        Subvol { parent_uuid: None, fs: Filesystem::new() }
    }

    /// The subvolume is internally consistent and comparable.
    pub open spec fn wf(&self) -> bool {
        self.fs.wf() && self.fs.sizes_ok()
    }
}

/// The uuid a stream-opening command declares.
pub open spec fn opening_uuid(c: Command) -> Uuid {
    match c {
        Command::Subvol { uuid } => uuid,
        Command::Snapshot { uuid, .. } => uuid,
        _ => Uuid(0),
    }
}

/// What a subvolume table associates with a uuid.
pub open spec fn subvols_get(s: Seq<(Uuid, Subvol)>, u: Uuid) -> Option<int>
    decreases s.len(),
{
    if s.len() == 0 {
        None
    } else if s.last().0 == u {
        Some(s.len() - 1)
    } else {
        subvols_get(s.drop_last(), u)
    }
}

/// The subvolumes received so far, keyed by uuid, in order of first
/// arrival.
pub struct Subvols {
    pub subvols: Vec<(Uuid, Subvol)>,
}

impl Subvols {
    /// Every stored subvolume is well formed.
    pub open spec fn wf(&self) -> bool {
        forall|i: int| 0 <= i < self.subvols@.len() ==> (#[trigger] self.subvols@[i]).1.wf()
    }

    /// Whether a subvolume with this uuid has been received.
    pub open spec fn contains_spec(&self, u: Uuid) -> bool {
        subvols_get(self.subvols@, u) is Some
    }

    pub fn new() -> (r: Subvols)
        ensures
            r.wf(),
            r.subvols@.len() == 0,
    {
        Subvols { subvols: Vec::new() }
    }

    pub fn num_subvols(&self) -> (r: usize)
        ensures
            r == self.subvols@.len(),
    {
        self.subvols.len()
    }

    /// The uuid and subvolume at position `i`, in order of first arrival.
    pub fn subvol_at(&self, i: usize) -> (r: (&Uuid, &Subvol))
        requires
            i < self.subvols@.len(),
        ensures
            *r.0 == self.subvols@[i as int].0,
            *r.1 == self.subvols@[i as int].1,
    {
        let pair = &self.subvols[i];
        (&pair.0, &pair.1)
    }

    /// The position of the subvolume with uuid `u`, scanning from the most
    /// recently stored.
    fn find(&self, u: Uuid) -> (r: Option<usize>)
        ensures
            match r {
                Some(i) => i < self.subvols@.len() && self.subvols@[i as int].0 == u
                    && subvols_get(self.subvols@, u) == Some(i as int),
                None => !self.contains_spec(u),
            },
    {
        let n = self.subvols.len();
        proof {
            assert(self.subvols@.subrange(0, n as int) =~= self.subvols@);
        }
        let mut i: usize = n;
        while i > 0
            invariant
                i <= n,
                n == self.subvols@.len(),
                subvols_get(self.subvols@, u) == subvols_get(
                    self.subvols@.subrange(0, i as int),
                    u,
                ),
            decreases i,
        {
            i = i - 1;
            proof {
                assert(self.subvols@.subrange(0, i + 1).drop_last() =~= self.subvols@.subrange(
                    0,
                    i as int,
                ));
                assert(self.subvols@.subrange(0, i + 1).last() == self.subvols@[i as int]);
            }
            let (id, _) = &self.subvols[i];
            if *id == u {
                proof {
                    assert(subvols_get(self.subvols@.subrange(0, i + 1), u) == Some(i as int));
                }
                return Some(i);
            }
        }
        proof {
            assert(self.subvols@.subrange(0, 0) =~= Seq::<(Uuid, Subvol)>::empty());
        }
        None
    }

    /// Store a received subvolume under its uuid, replacing any previous
    /// one with the same uuid.
    fn commit(&mut self, u: Uuid, sv: Subvol)
        requires
            old(self).wf(),
            sv.wf(),
            old(self).subvols@.len() < usize::MAX,
        ensures
            final(self).wf(),
            final(self).subvols@ == subvols_commit(old(self).subvols@, u, sv),
            final(self).contains_spec(u),
            subvols_get(final(self).subvols@, u) is Some,
            final(self).subvols@[subvols_get(final(self).subvols@, u)->Some_0].1 == sv,
            forall|v: Uuid|
                v != u ==> (#[trigger] final(self).contains_spec(v) == old(self).contains_spec(
                    v,
                )),
    {
        let found = self.find(u);
        match found {
            Some(i) => {
                let ghost prev = self.subvols@;
                let _old_pair = self.subvols.remove(i);
                self.subvols.insert(i, (u, sv));
                proof {
                    assert(self.subvols@ =~= prev.update(i as int, (u, self.subvols@[i as int].1)));
                    lemma_subvols_update(prev, self.subvols@, i as int, u);
                }
            }
            None => {
                self.subvols.push((u, sv));
                proof {
                    assert(self.subvols@.drop_last() =~= old(self).subvols@);
                }
            }
        }
    }
}

/// Updating the pair at the index holding `u` with a new subvolume for the
/// same uuid moves every lookup as expected.
proof fn lemma_subvols_update(prev: Seq<(Uuid, Subvol)>, cur: Seq<(Uuid, Subvol)>, i: int, u: Uuid)
    requires
        0 <= i < prev.len(),
        cur.len() == prev.len(),
        prev[i].0 == u,
        cur[i].0 == u,
        subvols_get(prev, u) == Some(i),
        forall|j: int| 0 <= j < prev.len() && j != i ==> #[trigger] cur[j] == prev[j],
    ensures
        subvols_get(cur, u) == Some(i),
        forall|v: Uuid|
            v != u ==> #[trigger] subvols_get(cur, v) == subvols_get(prev, v),
    decreases prev.len(),
{
    if prev.len() > 0 {
        assert(forall|j: int|
            0 <= j < prev.drop_last().len() ==> #[trigger] prev.drop_last()[j] == prev[j]);
        assert(forall|j: int|
            0 <= j < cur.drop_last().len() ==> #[trigger] cur.drop_last()[j] == cur[j]);
        if i == prev.len() - 1 {
            assert(cur.drop_last() =~= prev.drop_last());
            assert(subvols_get(cur, u) == Some(i));
            assert forall|v: Uuid| v != u implies #[trigger] subvols_get(cur, v) == subvols_get(
                prev,
                v,
            ) by {
                assert(cur.last().0 != v);
                assert(prev.last().0 != v);
            }
        } else {
            assert(cur.last() == prev.last());
            assert(prev.last().0 != u) by {
                if prev.last().0 == u {
                    assert(subvols_get(prev, u) == Some(prev.len() - 1));
                }
            }
            lemma_subvols_update(prev.drop_last(), cur.drop_last(), i, u);
            assert(subvols_get(cur, u) == Some(i));
            assert forall|v: Uuid| v != u implies #[trigger] subvols_get(cur, v) == subvols_get(
                prev,
                v,
            ) by {
                if cur.last().0 == v {
                } else {
                    assert(subvols_get(cur.drop_last(), v) == subvols_get(prev.drop_last(), v));
                }
            }
        }
    }
}

/// The new subvolume's tree is the old one with a freshly made entry at
/// `p`: a new inode at the end of the arena with one reference, and the
/// path bound to it.
pub open spec fn made_entry(prev: &Subvol, cur: &Subvol, p: Seq<u8>) -> bool {
    &&& cur.fs.inodes@ == prev.fs.inodes@.push(cur.fs.inodes@.last())
    &&& cur.fs.refcounts@ == prev.fs.refcounts@.push(1u64)
    &&& cur.fs.path_map() == prev.fs.path_map().insert(
        p,
        crate::InodeKey(prev.fs.inodes@.len() as usize),
    )
    &&& cur.fs.entry_map() == prev.fs.entry_map().insert(p, cur.fs.inodes@.last())
}

/// An empty regular file.
pub open spec fn is_empty_file(e: Entry) -> bool {
    e is File && (e->File_0).len_spec() == 0
}

/// A special entry with the given type and device number.
pub open spec fn is_special(e: Entry, file_type: u32, rdev: u64) -> bool {
    e is Special && (e->Special_0).file_type == file_type && (e->Special_0).rdev == rdev
}

/// A symlink pointing at `target`.
pub open spec fn is_symlink_to(e: Entry, target: Seq<u8>) -> bool {
    e is Symlink && (e->Symlink_0).target@ == target
}

/// The entry the command's path named, before the command ran.
pub open spec fn prev_entry(prev: &Subvol, p: Seq<u8>) -> Entry {
    prev.fs.entry_map()[p]
}

/// The same inode after the command ran.
pub open spec fn cur_entry(prev: &Subvol, cur: &Subvol, p: Seq<u8>) -> Entry {
    cur.fs.inodes@[prev.fs.path_map()[p].0 as int]
}

/// The command updated the metadata of the entry at `p` to `md` and
/// touched nothing else: not the path table, not the reference counts, not
/// any other inode.
pub open spec fn changed_md(prev: &Subvol, cur: &Subvol, p: Seq<u8>, md: crate::entry::Metadata)
    -> bool {
    &&& cur.fs.inodes@ == prev.fs.inodes@.update(
        prev.fs.path_map()[p].0 as int,
        crate::entry::with_md(prev_entry(prev, p), md),
    )
    &&& cur.fs.paths.seq() == prev.fs.paths.seq()
    &&& cur.fs.refcounts@ == prev.fs.refcounts@
}

/// The inode at `p` was rewritten in place: the path table, the reference
/// counts and every other inode are as they were.
pub open spec fn updated_at(prev: &Subvol, cur: &Subvol, p: Seq<u8>) -> bool {
    &&& cur.fs.inodes@ == prev.fs.inodes@.update(
        prev.fs.path_map()[p].0 as int,
        cur_entry(prev, cur, p),
    )
    &&& cur.fs.paths.seq() == prev.fs.paths.seq()
    &&& cur.fs.refcounts@ == prev.fs.refcounts@
}

/// The file at `p` now reads as its old bytes with `data` spliced in at
/// `off`, with the same metadata, and nothing else was touched.
pub open spec fn wrote(prev: &Subvol, cur: &Subvol, p: Seq<u8>, off: int, data: Seq<u8>) -> bool {
    &&& updated_at(prev, cur, p)
    &&& cur_entry(prev, cur, p) is File
    &&& (cur_entry(prev, cur, p)->File_0).contents() == crate::file::write_seq(
        (prev_entry(prev, p)->File_0).contents(),
        off,
        data,
    )
    &&& (cur_entry(prev, cur, p)->File_0).metadata == (prev_entry(prev, p)->File_0).metadata
}

/// The bytes of the source file of a clone in the cloned window.
pub open spec fn clone_window(prev: &Subvol, src: Seq<u8>, off: int, len: int) -> Seq<u8> {
    (prev_entry(prev, src)->File_0).contents().subrange(off, off + len)
}

/// The kind of a directory entry, as far as replay success conditions
/// read it.
pub enum KindV {
    Dir,
    File,
    Special,
    Symlink,
}

/// The kind of an entry.
pub open spec fn kind_of(e: Entry) -> KindV {
    match e {
        Entry::Directory(_) => KindV::Dir,
        Entry::File(_) => KindV::File,
        Entry::Special(_) => KindV::Special,
        Entry::Symlink(_) => KindV::Symlink,
    }
}

/// The length of an entry's file contents; zero for non-files.
pub open spec fn flen_of(e: Entry) -> int {
    match e {
        Entry::File(f) => f.len_spec(),
        _ => 0,
    }
}

/// Everything the success of a replay command can depend on: which paths
/// exist and which inode each names, how many inodes the arena holds, each
/// inode's kind and each file's length.
#[verifier::ext_equal]
pub ghost struct ObsV {
    pub paths: Map<Seq<u8>, int>,
    pub n: int,
    pub kinds: Map<int, KindV>,
    pub flens: Map<int, int>,
}

/// The observation a filesystem presents to the replay engine.
pub open spec fn fs_obs(fs: Filesystem) -> ObsV {
    ObsV {
        paths: Map::new(
            |p: Seq<u8>| fs.paths.contains_spec(p),
            |p: Seq<u8>| fs.paths.get_spec(p)->Some_0.0 as int,
        ),
        n: fs.inodes@.len() as int,
        kinds: Map::new(
            |i: int| 0 <= i < fs.inodes@.len(),
            |i: int| kind_of(fs.inodes@[i]),
        ),
        flens: Map::new(
            |i: int| 0 <= i < fs.inodes@.len(),
            |i: int| flen_of(fs.inodes@[i]),
        ),
    }
}

/// Exactly when one command applies cleanly to a tree presenting the given
/// observation. Stream-structural commands never apply mid-stream.
pub open spec fn applies_v(o: ObsV, cmd: Command) -> bool {
    match cmd {
        Command::Subvol { .. } => false,
        Command::Snapshot { .. } => false,
        Command::UpdateExtent { .. } => false,
        Command::End => true,
        Command::Chmod { path, .. } => o.paths.dom().contains(path@),
        Command::Chown { path, .. } => o.paths.dom().contains(path@),
        Command::Utimes { path, .. } => o.paths.dom().contains(path@),
        Command::SetXattr { path, .. } => o.paths.dom().contains(path@),
        Command::RemoveXattr { path, .. } => o.paths.dom().contains(path@),
        Command::Mkdir { .. } => o.n < usize::MAX,
        Command::Mkfile { .. } => o.n < usize::MAX,
        Command::Mkfifo { .. } => o.n < usize::MAX,
        Command::Mknod { .. } => o.n < usize::MAX,
        Command::Mksock { .. } => o.n < usize::MAX,
        Command::Symlink { .. } => o.n < usize::MAX,
        Command::Link { target, .. } => o.paths.dom().contains(target@) && !(o.kinds[o.paths[
            target@
        ]] is Dir),
        Command::Rename { from, to } => o.paths.dom().contains(from@) && (to@ == from@
            || !o.paths.dom().contains(to@)),
        Command::Unlink { path } => o.paths.dom().contains(path@),
        Command::Rmdir { path } => o.paths.dom().contains(path@) && o.kinds[o.paths[path@]]
            is Dir && (forall|q: Seq<u8>|
            #[trigger] o.paths.dom().contains(q) ==> !crate::dir_child(path@, q)),
        Command::Truncate { path, size } => o.paths.dom().contains(path@) && o.kinds[o.paths[
            path@
        ]] is File && size <= usize::MAX,
        Command::Write { path, offset, data } => o.paths.dom().contains(path@) && o.kinds[o.paths[
            path@
        ]] is File && offset + data@.len() <= usize::MAX,
        Command::Clone { src_path, src_offset, len, dst_path, dst_offset } => {
            &&& o.paths.dom().contains(src_path@)
            &&& o.kinds[o.paths[src_path@]] is File
            &&& src_offset + len <= o.flens[o.paths[src_path@]]
            &&& len <= usize::MAX
            &&& o.paths.dom().contains(dst_path@)
            &&& o.kinds[o.paths[dst_path@]] is File
            &&& dst_offset + len <= usize::MAX
        },
    }
}

/// The observation after one command applies. Inodes are allocated in
/// order, so the whole transition is a function.
pub open spec fn obs_apply(o: ObsV, cmd: Command) -> ObsV {
    match cmd {
        Command::Mkdir { path } => obs_create(o, path@, KindV::Dir),
        Command::Mkfile { path } => obs_create(o, path@, KindV::File),
        Command::Mkfifo { path, .. } => obs_create(o, path@, KindV::Special),
        Command::Mknod { path, .. } => obs_create(o, path@, KindV::Special),
        Command::Mksock { path, .. } => obs_create(o, path@, KindV::Special),
        Command::Symlink { link_name, .. } => obs_create(o, link_name@, KindV::Symlink),
        Command::Link { target, link_name } => ObsV {
            paths: o.paths.insert(link_name@, o.paths[target@]),
            ..o
        },
        Command::Rename { from, to } => ObsV {
            paths: o.paths.remove(from@).insert(to@, o.paths[from@]),
            ..o
        },
        Command::Unlink { path } => ObsV { paths: o.paths.remove(path@), ..o },
        Command::Rmdir { path } => ObsV { paths: o.paths.remove(path@), ..o },
        Command::Truncate { path, size } => ObsV {
            flens: o.flens.insert(o.paths[path@], size as int),
            ..o
        },
        Command::Write { path, offset, data } => if data@.len() == 0 {
            o
        } else {
            ObsV {
                flens: o.flens.insert(
                    o.paths[path@],
                    vstd::math::max(o.flens[o.paths[path@]], offset + data@.len()),
                ),
                ..o
            }
        },
        Command::Clone { len, dst_path, dst_offset, .. } => if len == 0 {
            o
        } else {
            ObsV {
                flens: o.flens.insert(
                    o.paths[dst_path@],
                    vstd::math::max(o.flens[o.paths[dst_path@]], dst_offset + len),
                ),
                ..o
            }
        },
        _ => o,
    }
}

/// The observation after a fresh entry of kind `k` is made at `p`.
pub open spec fn obs_create(o: ObsV, p: Seq<u8>, k: KindV) -> ObsV {
    ObsV {
        paths: o.paths.insert(p, o.n),
        n: o.n + 1,
        kinds: o.kinds.insert(o.n, k),
        flens: o.flens.insert(o.n, 0),
    }
}

/// Replacing an entry's metadata changes neither its kind nor its file
/// length.
proof fn lemma_with_md_obs(e: Entry, md: crate::entry::Metadata)
    ensures
        kind_of(crate::entry::with_md(e, md)) == kind_of(e),
        flen_of(crate::entry::with_md(e, md)) == flen_of(e),
{
    match e {
        Entry::Directory(_) => {}
        Entry::File(_) => {}
        Entry::Special(_) => {}
        Entry::Symlink(_) => {}
    }
}

/// A command that changes no path, no kind and no file length leaves the
/// observation as it was.
proof fn lemma_obs_unchanged(prev: Filesystem, cur: Filesystem)
    requires
        cur.paths.seq() == prev.paths.seq(),
        cur.inodes@.len() == prev.inodes@.len(),
        forall|i: int|
            0 <= i < prev.inodes@.len() ==> kind_of(#[trigger] cur.inodes@[i]) == kind_of(
                prev.inodes@[i],
            ) && flen_of(cur.inodes@[i]) == flen_of(prev.inodes@[i]),
    ensures
        fs_obs(cur) == fs_obs(prev),
{
    assert(fs_obs(cur).paths =~= fs_obs(prev).paths);
    assert(fs_obs(cur).kinds =~= fs_obs(prev).kinds);
    assert(fs_obs(cur).flens =~= fs_obs(prev).flens);
    assert(fs_obs(cur) =~= fs_obs(prev));
}

/// Inserting a fresh entry moves the observation by `obs_create`.
proof fn lemma_obs_insert(prev: Filesystem, cur: Filesystem, p: Seq<u8>, k: KindV)
    requires
        cur.path_map() == prev.path_map().insert(p, crate::InodeKey(prev.inodes@.len() as usize)),
        prev.inodes@.len() < usize::MAX,
        cur.inodes@.len() == prev.inodes@.len() + 1,
        forall|i: int| 0 <= i < prev.inodes@.len() ==> #[trigger] cur.inodes@[i]
            == prev.inodes@[i],
        kind_of(cur.inodes@.last()) == k,
        flen_of(cur.inodes@.last()) == 0,
    ensures
        fs_obs(cur) == obs_create(fs_obs(prev), p, k),
{
    assert(fs_obs(cur).paths =~= obs_create(fs_obs(prev), p, k).paths) by {
        assert(forall|q: Seq<u8>|
            #[trigger] cur.paths.contains_spec(q) == cur.path_map().dom().contains(q));
        assert(forall|q: Seq<u8>|
            #[trigger] cur.paths.contains_spec(q) ==> cur.paths.get_spec(q)->Some_0
                == cur.path_map()[q]);
        assert(forall|q: Seq<u8>|
            #[trigger] prev.paths.contains_spec(q) ==> prev.paths.get_spec(q)->Some_0
                == prev.path_map()[q]);
    }
    assert(fs_obs(cur).kinds =~= obs_create(fs_obs(prev), p, k).kinds);
    assert(fs_obs(cur).flens =~= obs_create(fs_obs(prev), p, k).flens);
    assert(fs_obs(cur) =~= obs_create(fs_obs(prev), p, k));
}

/// An operation on the path table alone projects directly onto the
/// observation's path map.
proof fn lemma_obs_paths(prev: Filesystem, cur: Filesystem, pm: Map<Seq<u8>, int>)
    requires
        cur.inodes@ == prev.inodes@,
        forall|q: Seq<u8>| #[trigger] cur.paths.contains_spec(q) == pm.dom().contains(q),
        forall|q: Seq<u8>|
            #[trigger] pm.dom().contains(q) ==> cur.paths.get_spec(q)->Some_0.0 as int == pm[q],
    ensures
        fs_obs(cur) == (ObsV { paths: pm, ..fs_obs(prev) }),
{
    assert(fs_obs(cur).paths =~= pm);
    assert(fs_obs(cur).kinds =~= fs_obs(prev).kinds);
    assert(fs_obs(cur).flens =~= fs_obs(prev).flens);
    assert(fs_obs(cur) =~= (ObsV { paths: pm, ..fs_obs(prev) }));
}

/// The observation cells one path contributes: its index, kind and file
/// length, tied back to the store.
proof fn lemma_obs_bridge(fs: Filesystem, p: Seq<u8>)
    requires
        fs.wf(),
    ensures
        fs_obs(fs).paths.dom().contains(p) == fs.paths.contains_spec(p),
        fs.paths.contains_spec(p) ==> {
            &&& fs_obs(fs).paths[p] == fs.path_map()[p].0 as int
            &&& 0 <= fs.path_map()[p].0 < fs.inodes@.len()
            &&& fs_obs(fs).kinds[fs.path_map()[p].0 as int] == kind_of(
                fs.inodes@[fs.path_map()[p].0 as int],
            )
            &&& fs_obs(fs).flens[fs.path_map()[p].0 as int] == flen_of(
                fs.inodes@[fs.path_map()[p].0 as int],
            )
            &&& fs.entry_map()[p] == fs.inodes@[fs.path_map()[p].0 as int]
        },
{
    fs.lemma_path_values();
}

/// The observation's path map, as a projection of the store's.
pub open spec fn pm_obs(pm: Map<Seq<u8>, crate::InodeKey>) -> Map<Seq<u8>, int> {
    Map::new(|p: Seq<u8>| pm.dom().contains(p), |p: Seq<u8>| pm[p].0 as int)
}

/// An operation that only rewires the path table projects directly onto
/// the observation's path map.
proof fn lemma_obs_paths_from_pm(prev: Filesystem, cur: Filesystem)
    requires
        cur.inodes@ == prev.inodes@,
    ensures
        fs_obs(cur) == (ObsV { paths: pm_obs(cur.path_map()), ..fs_obs(prev) }),
{
    assert(fs_obs(cur).paths =~= pm_obs(cur.path_map()));
    assert(fs_obs(cur).kinds =~= fs_obs(prev).kinds);
    assert(fs_obs(cur).flens =~= fs_obs(prev).flens);
    assert(fs_obs(cur) =~= (ObsV { paths: pm_obs(cur.path_map()), ..fs_obs(prev) }));
}

/// Rewriting one file in place moves only its length in the observation.
proof fn lemma_obs_flen(prev: Filesystem, cur: Filesystem, k: int, newlen: int)
    requires
        cur.paths.seq() == prev.paths.seq(),
        0 <= k < prev.inodes@.len(),
        cur.inodes@.len() == prev.inodes@.len(),
        forall|i: int|
            0 <= i < prev.inodes@.len() && i != k ==> #[trigger] cur.inodes@[i]
                == prev.inodes@[i],
        kind_of(cur.inodes@[k]) == kind_of(prev.inodes@[k]),
        flen_of(cur.inodes@[k]) == newlen,
    ensures
        fs_obs(cur) == (ObsV {
            flens: fs_obs(prev).flens.insert(k, newlen),
            ..fs_obs(prev)
        }),
{
    assert(fs_obs(cur).paths =~= fs_obs(prev).paths);
    assert(fs_obs(cur).kinds =~= fs_obs(prev).kinds);
    assert(fs_obs(cur).flens =~= fs_obs(prev).flens.insert(k, newlen));
    assert(fs_obs(cur) =~= (ObsV {
        flens: fs_obs(prev).flens.insert(k, newlen),
        ..fs_obs(prev)
    }));
}

/// The effect one successfully applied command has on the in-progress
/// subvolume, stated per command over the store's views.
pub open spec fn cmd_effect(prev: &Subvol, cur: &Subvol, cmd: Command) -> bool {
    match cmd {
        Command::Subvol { .. } | Command::Snapshot { .. } | Command::UpdateExtent { .. } => true,
        Command::End => *cur == *prev,
        Command::Chmod { path, mode } => changed_md(
            prev,
            cur,
            path@,
            crate::entry::Metadata { mode, ..prev_entry(prev, path@).metadata_spec() },
        ),
        Command::Chown { path, uid, gid } => changed_md(
            prev,
            cur,
            path@,
            crate::entry::Metadata { uid, gid, ..prev_entry(prev, path@).metadata_spec() },
        ),
        Command::Utimes { path, ctime, atime, mtime } => changed_md(
            prev,
            cur,
            path@,
            crate::entry::Metadata {
                created: ctime,
                accessed: atime,
                modified: mtime,
                ..prev_entry(prev, path@).metadata_spec()
            },
        ),
        Command::Mkdir { path } => made_entry(prev, cur, path@) && cur.fs.inodes@.last()
            is Directory && crate::entry::Metadata::default_shape(
            &cur.fs.inodes@.last().metadata_spec(),
        ),
        Command::Mkfile { path } => made_entry(prev, cur, path@) && is_empty_file(
            cur.fs.inodes@.last(),
        ) && crate::entry::Metadata::default_shape(&cur.fs.inodes@.last().metadata_spec()),
        Command::Mkfifo { path, file_type, rdev } | Command::Mknod { path, file_type, rdev }
            | Command::Mksock { path, file_type, rdev } => made_entry(prev, cur, path@)
            && is_special(cur.fs.inodes@.last(), file_type, rdev)
            && crate::entry::Metadata::default_shape(&cur.fs.inodes@.last().metadata_spec()),
        Command::Symlink { link_name, target } => made_entry(prev, cur, link_name@)
            && is_symlink_to(cur.fs.inodes@.last(), target@)
            && cur.fs.inodes@.last().metadata_spec().mode == 0o777
            && crate::entry::Metadata::default_shape(
            &(crate::entry::Metadata { mode: 0o444u32, ..cur.fs.inodes@.last().metadata_spec() }),
        ),
        Command::Link { target, link_name } => {
            &&& cur.fs.path_map() == prev.fs.path_map().insert(
                link_name@,
                prev.fs.path_map()[target@],
            )
            &&& cur.fs.entry_map() == prev.fs.entry_map().insert(
                link_name@,
                prev_entry(prev, target@),
            )
            &&& cur.fs.inodes@ == prev.fs.inodes@
            &&& cur.fs.refcounts@ == prev.fs.refcounts@.update(
                prev.fs.path_map()[target@].0 as int,
                crate::rc_inc(prev.fs.refcounts@[prev.fs.path_map()[target@].0 as int]),
            )
        },
        Command::Rename { from, to } => {
            &&& cur.fs.path_map() == crate::rename_map(prev.fs.path_map(), from@, to@)
            &&& cur.fs.entry_map() == prev.fs.entry_map().remove(from@).insert(
                to@,
                prev_entry(prev, from@),
            )
            &&& cur.fs.inodes@ == prev.fs.inodes@
            &&& cur.fs.refcounts@ == prev.fs.refcounts@
        },
        Command::Unlink { path } => {
            &&& cur.fs.path_map() == prev.fs.path_map().remove(path@)
            &&& cur.fs.entry_map() == prev.fs.entry_map().remove(path@)
            &&& cur.fs.inodes@ == prev.fs.inodes@
            &&& cur.fs.refcounts@ == prev.fs.refcounts@.update(
                prev.fs.path_map()[path@].0 as int,
                crate::rc_dec(prev.fs.refcounts@[prev.fs.path_map()[path@].0 as int]),
            )
        },
        Command::Rmdir { path } => {
            &&& cur.fs.path_map() == prev.fs.path_map().remove(path@)
            &&& cur.fs.entry_map() == prev.fs.entry_map().remove(path@)
            &&& cur.fs.inodes@ == prev.fs.inodes@
            &&& cur.fs.refcounts@ == prev.fs.refcounts@.update(
                prev.fs.path_map()[path@].0 as int,
                crate::rc_dec(prev.fs.refcounts@[prev.fs.path_map()[path@].0 as int]),
            )
        },
        Command::SetXattr { path, name, data } => {
            &&& updated_at(prev, cur, path@)
            &&& crate::xattrs_updated(
                prev_entry(prev, path@),
                cur_entry(prev, cur, path@),
                prev_entry(prev, path@).metadata_spec().xattrs.as_map().insert(
                    name@,
                    cur_entry(prev, cur, path@).metadata_spec().xattrs.get_spec(name@)->Some_0,
                ),
            )
            &&& (cur_entry(prev, cur, path@).metadata_spec().xattrs.get_spec(name@)->Some_0)@
                == data@
        },
        Command::RemoveXattr { path, name } => {
            &&& updated_at(prev, cur, path@)
            &&& crate::xattrs_updated(
                prev_entry(prev, path@),
                cur_entry(prev, cur, path@),
                prev_entry(prev, path@).metadata_spec().xattrs.as_map().remove(name@),
            )
        },
        Command::Truncate { path, size } => {
            &&& updated_at(prev, cur, path@)
            &&& cur_entry(prev, cur, path@) is File
            &&& crate::truncated_file(
                prev_entry(prev, path@)->File_0,
                cur_entry(prev, cur, path@)->File_0,
                size as int,
            )
        },
        Command::Write { path, offset, data } => wrote(prev, cur, path@, offset as int, data@),
        Command::Clone { src_path, src_offset, len, dst_path, dst_offset } => wrote(
            prev,
            cur,
            dst_path@,
            dst_offset as int,
            clone_window(prev, src_path@, src_offset as int, len as int),
        ),
    }
}

impl Subvols {
    /// Apply one mid-stream command to the subvolume being built. `End`
    /// does nothing; stream-structural commands are never applied here;
    /// every other command maps to one store operation, with offsets
    /// checked so that files stay addressable.
    #[verifier::rlimit(100)]
    #[verifier::spinoff_prover]
    fn apply_cmd(subvol: &mut Subvol, cmd: &Command) -> (r: Result<(), Error>)
        requires
            old(subvol).wf(),
        ensures
            final(subvol).wf(),
            final(subvol).parent_uuid == old(subvol).parent_uuid,
            r is Ok <==> applies_v(fs_obs(old(subvol).fs), *cmd),
            r is Ok ==> fs_obs(final(subvol).fs) == obs_apply(fs_obs(old(subvol).fs), *cmd),
            r is Err ==> final(subvol).fs.paths.seq() == old(subvol).fs.paths.seq() && final(subvol).fs.inodes@ == old(subvol).fs.inodes@ && final(subvol).fs.refcounts@ == old(subvol).fs.refcounts@,
            r is Err ==> (match *cmd {
                Command::Subvol { .. } | Command::Snapshot { .. } | Command::UpdateExtent {
                    ..
                } => r->Err_0 is InvariantViolated,
                _ => r->Err_0 is Apply,
            }),
            r is Ok ==> cmd_effect(old(subvol), final(subvol), *cmd),
    {
        match cmd {
            Command::Subvol { .. } => {
                return Err(Error::InvariantViolated("attempted to apply a subvolume start"));
            }
            Command::Snapshot { .. } => {
                return Err(Error::InvariantViolated("attempted to apply a snapshot start"));
            }
            Command::UpdateExtent { .. } => {
                return Err(
                    Error::InvariantViolated("update-extent commands are not supported"),
                );
            }
            Command::End => {
                return Ok(());
            }
            Command::Chmod { path, mode } => {
                let ghost prev = subvol.fs;
                match subvol.fs.chmod(path, *mode) {
                    Ok(()) => {
                        proof {
                            prev.lemma_path_values();
                            let k = prev.path_map()[path@].0 as int;
                            crate::lemma_sizes_update(&prev, &subvol.fs, k);
                            lemma_with_md_obs(
                                prev.entry_map()[path@],
                                subvol.fs.inodes@[k].metadata_spec(),
                            );
                            lemma_obs_unchanged(prev, subvol.fs);
                        }
                        return Ok(());
                    }
                    Err(e) => {
                        return Err(Error::Apply { command: cmd.dup(), error: e });
                    }
                }
            }
            Command::Chown { path, uid, gid } => {
                let ghost prev = subvol.fs;
                match subvol.fs.chown(path, *uid, *gid) {
                    Ok(()) => {
                        proof {
                            prev.lemma_path_values();
                            let k = prev.path_map()[path@].0 as int;
                            crate::lemma_sizes_update(&prev, &subvol.fs, k);
                            lemma_with_md_obs(
                                prev.entry_map()[path@],
                                subvol.fs.inodes@[k].metadata_spec(),
                            );
                            lemma_obs_unchanged(prev, subvol.fs);
                        }
                        return Ok(());
                    }
                    Err(e) => {
                        return Err(Error::Apply { command: cmd.dup(), error: e });
                    }
                }
            }
            Command::Utimes { path, ctime, atime, mtime } => {
                let ghost prev = subvol.fs;
                match subvol.fs.set_times(path, *ctime, *atime, *mtime) {
                    Ok(()) => {
                        proof {
                            prev.lemma_path_values();
                            let k = prev.path_map()[path@].0 as int;
                            crate::lemma_sizes_update(&prev, &subvol.fs, k);
                            lemma_with_md_obs(
                                prev.entry_map()[path@],
                                subvol.fs.inodes@[k].metadata_spec(),
                            );
                            lemma_obs_unchanged(prev, subvol.fs);
                        }
                        return Ok(());
                    }
                    Err(e) => {
                        return Err(Error::Apply { command: cmd.dup(), error: e });
                    }
                }
            }
            Command::Mkdir { path } => {
                if subvol.fs.inodes.len() == usize::MAX {
                    return Err(Error::Apply { command: cmd.dup(), error: FsError::InvalidInput });
                }
                let ghost prev = subvol.fs;
                let e = Entry::Directory(crate::entry::Directory::new_default());
                let _key = subvol.fs.insert(path.clone(), e);
                proof {
                    crate::lemma_sizes_push(&prev, &subvol.fs, subvol.fs.inodes@.last());
                    lemma_obs_insert(prev, subvol.fs, path@, KindV::Dir);
                }
                return Ok(());
            }
            Command::Mkfile { path } => {
                if subvol.fs.inodes.len() == usize::MAX {
                    return Err(Error::Apply { command: cmd.dup(), error: FsError::InvalidInput });
                }
                let ghost prev = subvol.fs;
                let e = Entry::File(File::new_empty());
                let _key = subvol.fs.insert(path.clone(), e);
                proof {
                    crate::lemma_sizes_push(&prev, &subvol.fs, subvol.fs.inodes@.last());
                    lemma_obs_insert(prev, subvol.fs, path@, KindV::File);
                }
                return Ok(());
            }
            Command::Mkfifo { path, file_type, rdev } | Command::Mknod { path, file_type, rdev }
                | Command::Mksock { path, file_type, rdev } => {
                if subvol.fs.inodes.len() == usize::MAX {
                    return Err(Error::Apply { command: cmd.dup(), error: FsError::InvalidInput });
                }
                let ghost prev = subvol.fs;
                let md = crate::entry::Metadata::default();
                let e = Entry::Special(crate::entry::Special::new(*file_type, *rdev, md));
                let _key = subvol.fs.insert(path.clone(), e);
                proof {
                    crate::lemma_sizes_push(&prev, &subvol.fs, subvol.fs.inodes@.last());
                    lemma_obs_insert(prev, subvol.fs, path@, KindV::Special);
                }
                return Ok(());
            }
            Command::Symlink { link_name, target } => {
                if subvol.fs.inodes.len() == usize::MAX {
                    return Err(Error::Apply { command: cmd.dup(), error: FsError::InvalidInput });
                }
                let ghost prev = subvol.fs;
                let e = Entry::Symlink(crate::entry::Symlink::new(target.clone(), None));
                let _key = subvol.fs.insert(link_name.clone(), e);
                proof {
                    crate::lemma_sizes_push(&prev, &subvol.fs, subvol.fs.inodes@.last());
                    lemma_obs_insert(prev, subvol.fs, link_name@, KindV::Symlink);
                }
                return Ok(());
            }
            Command::Link { target, link_name } => {
                let ghost prev = subvol.fs;
                proof {
                    prev.lemma_path_values();
                    if prev.paths.contains_spec(target@) {
                        let k = prev.path_map()[target@].0 as int;
                        assert(fs_obs(prev).paths[target@] == k);
                        assert(fs_obs(prev).kinds[k] == kind_of(prev.inodes@[k]));
                    }
                }
                match subvol.fs.link(target, link_name.clone()) {
                    Ok(()) => {
                        proof {
                            lemma_obs_paths_from_pm(prev, subvol.fs);
                            assert(pm_obs(subvol.fs.path_map()) =~= fs_obs(prev).paths.insert(
                                link_name@,
                                fs_obs(prev).paths[target@],
                            ));
                            assert(fs_obs(subvol.fs) =~= obs_apply(fs_obs(prev), *cmd));
                        }
                        return Ok(());
                    }
                    Err(e) => {
                        return Err(Error::Apply { command: cmd.dup(), error: e });
                    }
                }
            }
            Command::Rename { from, to } => {
                let ghost prev = subvol.fs;
                match subvol.fs.rename(from, to.clone()) {
                    Ok(()) => {
                        proof {
                            prev.lemma_path_values();
                            lemma_obs_paths_from_pm(prev, subvol.fs);
                            assert(pm_obs(subvol.fs.path_map()) =~= fs_obs(prev).paths.remove(
                                from@,
                            ).insert(to@, fs_obs(prev).paths[from@]));
                            assert(fs_obs(subvol.fs) =~= obs_apply(fs_obs(prev), *cmd));
                        }
                        return Ok(());
                    }
                    Err(e) => {
                        return Err(Error::Apply { command: cmd.dup(), error: e });
                    }
                }
            }
            Command::Unlink { path } => {
                let ghost prev = subvol.fs;
                match subvol.fs.unlink(path) {
                    Ok(()) => {
                        proof {
                            prev.lemma_path_values();
                            lemma_obs_paths_from_pm(prev, subvol.fs);
                            assert(pm_obs(subvol.fs.path_map()) =~= fs_obs(prev).paths.remove(
                                path@,
                            ));
                            assert(fs_obs(subvol.fs) =~= obs_apply(fs_obs(prev), *cmd));
                        }
                        return Ok(());
                    }
                    Err(e) => {
                        return Err(Error::Apply { command: cmd.dup(), error: e });
                    }
                }
            }
            Command::Rmdir { path } => {
                let ghost prev = subvol.fs;
                proof {
                    prev.lemma_path_values();
                    if prev.paths.contains_spec(path@) {
                        let k = prev.path_map()[path@].0 as int;
                        assert(fs_obs(prev).paths[path@] == k);
                        assert(fs_obs(prev).kinds[k] == kind_of(prev.inodes@[k]));
                    }
                }
                match subvol.fs.rmdir(path) {
                    Ok(()) => {
                        proof {
                            lemma_obs_paths_from_pm(prev, subvol.fs);
                            assert(pm_obs(subvol.fs.path_map()) =~= fs_obs(prev).paths.remove(
                                path@,
                            ));
                            assert(fs_obs(subvol.fs) =~= obs_apply(fs_obs(prev), *cmd));
                        }
                        return Ok(());
                    }
                    Err(e) => {
                        return Err(Error::Apply { command: cmd.dup(), error: e });
                    }
                }
            }
            Command::SetXattr { path, name, data } => {
                let ghost prev = subvol.fs;
                let name_copy = crate::path::clone_bytes(name);
                let data_copy = crate::path::clone_bytes(data);
                match subvol.fs.set_xattr(path, name_copy, data_copy) {
                    Ok(()) => {
                        proof {
                            prev.lemma_path_values();
                            crate::lemma_sizes_update(
                                &prev,
                                &subvol.fs,
                                prev.path_map()[path@].0 as int,
                            );
                            let k = prev.path_map()[path@].0 as int;
                            let xs = subvol.fs.inodes@[k].metadata_spec().xattrs;
                            assert(xs.as_map().dom().contains(name@));
                            assert(xs.contains_spec(name@));
                            assert(xs.get_spec(name@)->Some_0 == xs.as_map()[name@]);
                            assert((xs.get_spec(name@)->Some_0)@ == data@);
                            assert(xs.as_map() =~= prev.entry_map()[
                                path@
                            ].metadata_spec().xattrs.as_map().insert(
                                name@,
                                xs.get_spec(name@)->Some_0,
                            ));
                            lemma_with_md_obs(
                                prev.entry_map()[path@],
                                subvol.fs.inodes@[k].metadata_spec(),
                            );
                            lemma_obs_unchanged(prev, subvol.fs);
                        }
                        return Ok(());
                    }
                    Err(e) => {
                        return Err(Error::Apply { command: cmd.dup(), error: e });
                    }
                }
            }
            Command::RemoveXattr { path, name } => {
                let ghost prev = subvol.fs;
                match subvol.fs.remove_xattr(path, name.as_slice()) {
                    Ok(()) => {
                        proof {
                            prev.lemma_path_values();
                            let k = prev.path_map()[path@].0 as int;
                            crate::lemma_sizes_update(&prev, &subvol.fs, k);
                            lemma_with_md_obs(
                                prev.entry_map()[path@],
                                subvol.fs.inodes@[k].metadata_spec(),
                            );
                            lemma_obs_unchanged(prev, subvol.fs);
                        }
                        return Ok(());
                    }
                    Err(e) => {
                        return Err(Error::Apply { command: cmd.dup(), error: e });
                    }
                }
            }
            Command::Truncate { path, size } => {
                let ghost prev = subvol.fs;
                proof {
                    lemma_obs_bridge(prev, path@);
                }
                if *size > usize::MAX as u64 {
                    return Err(Error::Apply { command: cmd.dup(), error: FsError::InvalidInput });
                }
                match subvol.fs.truncate(path, *size) {
                    Ok(()) => {
                        proof {
                            prev.lemma_path_values();
                            let k = prev.path_map()[path@].0 as int;
                            crate::lemma_sizes_update(&prev, &subvol.fs, k);
                            lemma_obs_flen(prev, subvol.fs, k, *size as int);
                            assert(fs_obs(subvol.fs) =~= obs_apply(fs_obs(prev), *cmd));
                        }
                        return Ok(());
                    }
                    Err(e) => {
                        return Err(Error::Apply { command: cmd.dup(), error: e });
                    }
                }
            }
            Command::Write { path, offset, data } => {
                let ghost prev = subvol.fs;
                proof {
                    lemma_obs_bridge(prev, path@);
                }
                if *offset > usize::MAX as u64 || data.len() as u64 > usize::MAX as u64
                    - *offset {
                    return Err(Error::Apply { command: cmd.dup(), error: FsError::InvalidInput });
                }
                let f = match subvol.fs.get_file_mut(path) {
                    Ok(f) => f,
                    Err(e) => {
                        return Err(Error::Apply { command: cmd.dup(), error: e });
                    }
                };
                let mut wr = f.writer();
                let _pos = wr.seek(f, SeekFrom::Start(*offset));
                let data_copy = crate::path::clone_bytes(data);
                wr.write_bytes(f, data_copy);
                proof {
                    prev.lemma_path_values();
                    let k = prev.path_map()[path@].0 as int;
                    crate::lemma_sizes_update(&prev, &subvol.fs, k);
                    if data@.len() == 0 {
                        lemma_obs_unchanged(prev, subvol.fs);
                    } else {
                        lemma_obs_flen(
                            prev,
                            subvol.fs,
                            k,
                            vstd::math::max(flen_of(prev.inodes@[k]), *offset + data@.len()),
                        );
                    }
                    assert(fs_obs(subvol.fs) =~= obs_apply(fs_obs(prev), *cmd));
                }
                return Ok(());
            }
            Command::Clone { src_path, src_offset, len, dst_path, dst_offset } => {
                proof {
                    lemma_obs_bridge(old(subvol).fs, src_path@);
                    lemma_obs_bridge(old(subvol).fs, dst_path@);
                }
                let pieces = {
                    let src = match subvol.fs.get_file(src_path) {
                        Ok(f) => f,
                        Err(e) => {
                            return Err(Error::Apply { command: cmd.dup(), error: e });
                        }
                    };
                    proof {
                        subvol.fs.lemma_path_values();
                        assert(subvol.fs.entry_map()[src_path@].wf());
                        assert(src.wf());
                    }
                    let src_len = src.len();
                    if *src_offset > src_len || src_len - *src_offset < *len {
                        return Err(Error::Apply { command: cmd.dup(), error: FsError::InvalidInput });
                    }
                    if *len > usize::MAX as u64 {
                        return Err(Error::Apply { command: cmd.dup(), error: FsError::InvalidInput });
                    }
                    src.clone_range(*src_offset, *src_offset + *len)
                };
                if *dst_offset > usize::MAX as u64 || *len > usize::MAX as u64 - *dst_offset {
                    return Err(Error::Apply { command: cmd.dup(), error: FsError::InvalidInput });
                }
                let ghost prev = subvol.fs;
                let ghost src_piece = (prev.entry_map()[src_path@]->File_0).contents().subrange(
                    *src_offset as int,
                    *src_offset + *len,
                );
                let f = match subvol.fs.get_file_mut(dst_path) {
                    Ok(f) => f,
                    Err(e) => {
                        return Err(Error::Apply { command: cmd.dup(), error: e });
                    }
                };
                let ghost dst0 = f.contents();
                let mut wr = f.writer();
                let _pos = wr.seek(f, SeekFrom::Start(*dst_offset));
                let n = pieces.len();
                let mut i: usize = 0;
                let ghost total = crate::file::extents_cat(pieces@);
                proof {
                    assert(crate::file::extents_cat(pieces@.subrange(0, 0)) =~= Seq::<
                        u8,
                    >::empty());
                    assert(crate::file::write_seq(dst0, *dst_offset as int, Seq::<u8>::empty())
                        == dst0);
                }
                while i < n
                    invariant
                        n == pieces@.len(),
                        i <= n,
                        f.wf(),
                        f.metadata == (prev.entry_map()[dst_path@]->File_0).metadata,
                        total == crate::file::extents_cat(pieces@),
                        total.len() == *len,
                        *dst_offset + total.len() <= usize::MAX,
                        wr.pos == *dst_offset + crate::file::extents_cat(
                            pieces@.subrange(0, i as int),
                        ).len(),
                        crate::file::extents_cat(pieces@.subrange(0, i as int)).len()
                            <= total.len(),
                        f.contents() == crate::file::write_seq(
                            dst0,
                            *dst_offset as int,
                            crate::file::extents_cat(pieces@.subrange(0, i as int)),
                        ),
                    decreases n - i,
                {
                    let ghost done = crate::file::extents_cat(pieces@.subrange(0, i as int));
                    let piece = pieces[i].dup();
                    proof {
                        assert(pieces@.subrange(0, i + 1).drop_last() =~= pieces@.subrange(
                            0,
                            i as int,
                        ));
                        assert(pieces@.subrange(0, i + 1).last() == pieces@[i as int]);
                        crate::file::lemma_extents_cat_push(
                            pieces@.subrange(0, i as int),
                            pieces@[i as int],
                        );
                        assert(pieces@.subrange(0, i as int).push(pieces@[i as int])
                            =~= pieces@.subrange(0, i + 1));
                        crate::file::lemma_cat_prefix_bound(pieces@, i as int);
                    }
                    wr.write(f, piece);
                    proof {
                        crate::file::lemma_write_seq_chain(
                            dst0,
                            *dst_offset as int,
                            done,
                            pieces@[i as int]@,
                        );
                        assert(done + pieces@[i as int]@ == crate::file::extents_cat(
                            pieces@.subrange(0, i + 1),
                        ));
                    }
                    i = i + 1;
                }
                proof {
                    assert(pieces@.subrange(0, n as int) =~= pieces@);
                    assert(f.contents() == crate::file::write_seq(
                        dst0,
                        *dst_offset as int,
                        total,
                    ));
                    assert(f.contents().len() == f.len_spec());
                }
                proof {
                    assert(prev == old(subvol).fs);
                    prev.lemma_path_values();
                    let k = prev.path_map()[dst_path@].0 as int;
                    assert(prev.inodes@[k].sizes_ok());
                    assert(subvol.fs.inodes@[k].sizes_ok());
                    crate::lemma_sizes_update(&prev, &subvol.fs, k);
                    assert(total == clone_window(
                        old(subvol),
                        src_path@,
                        *src_offset as int,
                        *len as int,
                    ));
                    if *len == 0 {
                        assert(total.len() == 0);
                        lemma_obs_unchanged(prev, subvol.fs);
                    } else {
                        lemma_obs_flen(
                            prev,
                            subvol.fs,
                            k,
                            vstd::math::max(flen_of(prev.inodes@[k]), *dst_offset + *len),
                        );
                    }
                    assert(fs_obs(subvol.fs) =~= obs_apply(fs_obs(prev), *cmd));
                }
                return Ok(());
            }
        }
    }
}

/// Whether a command opens a new subvolume segment.
pub open spec fn is_opener(c: Command) -> bool {
    c is Subvol || c is Snapshot
}

/// The subvolume table after committing `sv` under `u`: the existing
/// binding is replaced, or a new one is appended.
pub open spec fn subvols_commit(s: Seq<(Uuid, Subvol)>, u: Uuid, sv: Subvol) -> Seq<
    (Uuid, Subvol),
> {
    match subvols_get(s, u) {
        Some(i) => s.update(i, (u, sv)),
        None => s.push((u, sv)),
    }
}

/// What an observation table associates with a uuid.
pub open spec fn obs_get(s: Seq<(Uuid, ObsV)>, u: Uuid) -> Option<int>
    decreases s.len(),
{
    if s.len() == 0 {
        None
    } else if s.last().0 == u {
        Some(s.len() - 1)
    } else {
        obs_get(s.drop_last(), u)
    }
}

/// The observation table after a commit.
pub open spec fn obs_commit(s: Seq<(Uuid, ObsV)>, u: Uuid, o: ObsV) -> Seq<(Uuid, ObsV)> {
    match obs_get(s, u) {
        Some(i) => s.update(i, (u, o)),
        None => s.push((u, o)),
    }
}

/// The observations the received subvolumes present.
pub open spec fn subvols_obs(s: Seq<(Uuid, Subvol)>) -> Seq<(Uuid, ObsV)> {
    s.map_values(|p: (Uuid, Subvol)| (p.0, fs_obs(p.1.fs)))
}

/// The observation of a fresh subvolume: one root directory.
pub open spec fn fresh_obs() -> ObsV {
    ObsV {
        paths: Map::<Seq<u8>, int>::empty().insert(Seq::empty(), 0),
        n: 1,
        kinds: Map::<int, KindV>::empty().insert(0, KindV::Dir),
        flens: Map::<int, int>::empty().insert(0, 0),
    }
}

/// Every remaining command of the stream applies cleanly, starting from
/// the in-progress subvolume's observation; each mid-stream opener commits
/// the current one (for which the table must have room) and begins the
/// next.
pub open spec fn stream_applies_from(
    m: Seq<(Uuid, ObsV)>,
    u: Uuid,
    o: ObsV,
    cmds: Seq<Command>,
) -> bool
    decreases cmds.len(),
{
    if cmds.len() == 0 {
        m.len() < usize::MAX
    } else if is_opener(cmds[0]) {
        m.len() < usize::MAX && {
            let m2 = obs_commit(m, u, o);
            match cmds[0] {
                Command::Subvol { uuid } => stream_applies_from(
                    m2,
                    uuid,
                    fresh_obs(),
                    cmds.drop_first(),
                ),
                Command::Snapshot { uuid, clone_uuid } => match obs_get(m2, clone_uuid) {
                    Some(i) => stream_applies_from(m2, uuid, m2[i].1, cmds.drop_first()),
                    None => false,
                },
                _ => false,
            }
        }
    } else if applies_v(o, cmds[0]) {
        stream_applies_from(m, u, obs_apply(o, cmds[0]), cmds.drop_first())
    } else {
        false
    }
}

/// A whole stream is received cleanly from the given table exactly when it
/// opens with a subvolume, or a snapshot of a present parent, and every
/// later command applies in turn.
pub open spec fn stream_applies(m: Seq<(Uuid, ObsV)>, cmds: Seq<Command>) -> bool {
    cmds.len() > 0 && match cmds[0] {
        Command::Subvol { uuid } => stream_applies_from(m, uuid, fresh_obs(), cmds.drop_first()),
        Command::Snapshot { uuid, clone_uuid } => match obs_get(m, clone_uuid) {
            Some(i) => stream_applies_from(m, uuid, m[i].1, cmds.drop_first()),
            None => false,
        },
        _ => false,
    }
}

/// What a stream-opening command begins, relative to the committed table:
/// a fresh tree holding a default root directory, or a copy of the named
/// parent's tree with the parent recorded.
pub open spec fn opens_rel(m: Seq<(Uuid, Subvol)>, c: Command, sv: Subvol) -> bool {
    match c {
        Command::Subvol { .. } => {
            &&& sv.wf()
            &&& sv.parent_uuid is None
            &&& sv.fs.inodes@.len() == 1
            &&& sv.fs.inodes@[0] is Directory
            &&& crate::entry::Metadata::default_shape(&sv.fs.inodes@[0].metadata_spec())
            &&& sv.fs.path_map() == Map::<Seq<u8>, crate::InodeKey>::empty().insert(
                Seq::empty(),
                crate::InodeKey(0),
            )
            &&& sv.fs.refcounts@ == Seq::<u64>::empty().push(1u64)
            &&& fs_obs(sv.fs) == fresh_obs()
        },
        Command::Snapshot { clone_uuid, .. } => {
            &&& sv.wf()
            &&& sv.parent_uuid == Some(clone_uuid)
            &&& subvols_get(m, clone_uuid) is Some
            &&& sv.fs.eq_spec(&m[subvols_get(m, clone_uuid)->Some_0].1.fs)
            &&& fs_obs(sv.fs) == fs_obs(m[subvols_get(m, clone_uuid)->Some_0].1.fs)
            &&& sv.fs.refcounts@ == m[subvols_get(m, clone_uuid)->Some_0].1.fs.refcounts@
        },
        _ => false,
    }
}

/// Processing the commands in `done`, starting from the opening state,
/// reaches the given table and in-progress subvolume: each opener commits
/// the current subvolume and begins as it declares; every other command
/// has its per-command effect.
pub open spec fn run_rel(
    m0: Seq<(Uuid, Subvol)>,
    u0: Uuid,
    sv0: Subvol,
    done: Seq<Command>,
    m: Seq<(Uuid, Subvol)>,
    u: Uuid,
    sv: Subvol,
) -> bool
    decreases done.len(),
{
    if done.len() == 0 {
        m == m0 && u == u0 && sv == sv0
    } else {
        let c = done.last();
        if is_opener(c) {
            exists|mp: Seq<(Uuid, Subvol)>, up: Uuid, svp: Subvol|
                {
                    &&& run_rel(m0, u0, sv0, done.drop_last(), mp, up, svp)
                    &&& m == #[trigger] subvols_commit(mp, up, svp)
                    &&& u == opening_uuid(c)
                    &&& opens_rel(m, c, sv)
                }
        } else {
            exists|svp: Subvol|
                {
                    &&& run_rel(m0, u0, sv0, done.drop_last(), m, u, svp)
                    &&& applies_v(#[trigger] fs_obs(svp.fs), c)
                    &&& fs_obs(sv.fs) == obs_apply(fs_obs(svp.fs), c)
                    &&& cmd_effect(&svp, &sv, c)
                }
        }
    }
}

/// Extending a run with one applied command.
proof fn lemma_run_rel_step_cmd(
    m0: Seq<(Uuid, Subvol)>,
    u0: Uuid,
    sv0: Subvol,
    done: Seq<Command>,
    m: Seq<(Uuid, Subvol)>,
    u: Uuid,
    svp: Subvol,
    sv: Subvol,
    c: Command,
)
    requires
        run_rel(m0, u0, sv0, done, m, u, svp),
        !is_opener(c),
        applies_v(fs_obs(svp.fs), c),
        fs_obs(sv.fs) == obs_apply(fs_obs(svp.fs), c),
        cmd_effect(&svp, &sv, c),
    ensures
        run_rel(m0, u0, sv0, done.push(c), m, u, sv),
{
    let pd = done.push(c);
    assert(pd.drop_last() =~= done);
    assert(pd.last() == c);
    assert(run_rel(m0, u0, sv0, pd.drop_last(), m, u, svp));
    assert(exists|svp2: Subvol|
        {
            &&& #[trigger] run_rel(m0, u0, sv0, pd.drop_last(), m, u, svp2)
            &&& applies_v(fs_obs(svp2.fs), pd.last())
            &&& fs_obs(sv.fs) == obs_apply(fs_obs(svp2.fs), pd.last())
            &&& cmd_effect(&svp2, &sv, pd.last())
        }) by {
        assert(run_rel(m0, u0, sv0, pd.drop_last(), m, u, svp) && applies_v(
            fs_obs(svp.fs),
            pd.last(),
        ) && fs_obs(sv.fs) == obs_apply(fs_obs(svp.fs), pd.last()) && cmd_effect(
            &svp,
            &sv,
            pd.last(),
        ));
    }
}

/// Extending a run with a mid-stream opener: the current subvolume is
/// committed and the declared one begun.
proof fn lemma_run_rel_step_open(
    m0: Seq<(Uuid, Subvol)>,
    u0: Uuid,
    sv0: Subvol,
    done: Seq<Command>,
    mp: Seq<(Uuid, Subvol)>,
    up: Uuid,
    svp: Subvol,
    sv: Subvol,
    c: Command,
)
    requires
        run_rel(m0, u0, sv0, done, mp, up, svp),
        is_opener(c),
        opens_rel(subvols_commit(mp, up, svp), c, sv),
    ensures
        run_rel(
            m0,
            u0,
            sv0,
            done.push(c),
            subvols_commit(mp, up, svp),
            opening_uuid(c),
            sv,
        ),
{
    let pd = done.push(c);
    assert(pd.drop_last() =~= done);
    assert(pd.last() == c);
    assert(run_rel(m0, u0, sv0, pd.drop_last(), mp, up, svp));
    let m = subvols_commit(mp, up, svp);
    assert(exists|mp2: Seq<(Uuid, Subvol)>, up2: Uuid, svp2: Subvol|
        {
            &&& #[trigger] run_rel(m0, u0, sv0, pd.drop_last(), mp2, up2, svp2)
            &&& m == subvols_commit(mp2, up2, svp2)
            &&& opening_uuid(pd.last()) == opening_uuid(pd.last())
            &&& opens_rel(m, pd.last(), sv)
        }) by {
        assert(run_rel(m0, u0, sv0, pd.drop_last(), mp, up, svp) && m == subvols_commit(
            mp,
            up,
            svp,
        ) && opens_rel(m, pd.last(), sv));
    }
}

/// Receiving a stream turns the table into the old one with each segment's
/// uuid bound to the subvolume its commands fold out, the last segment
/// committed at end of stream.
pub open spec fn received_rel(
    m0: Seq<(Uuid, Subvol)>,
    cmds: Seq<Command>,
    mn: Seq<(Uuid, Subvol)>,
) -> bool {
    &&& cmds.len() > 0
    &&& is_opener(cmds[0])
    &&& exists|sv0: Subvol, m: Seq<(Uuid, Subvol)>, u: Uuid, sv: Subvol|
        {
            &&& #[trigger] opens_rel(m0, cmds[0], sv0)
            &&& #[trigger] run_rel(m0, opening_uuid(cmds[0]), sv0, cmds.drop_first(), m, u, sv)
            &&& mn == subvols_commit(m, u, sv)
        }
}

/// Lookups in the observation table mirror lookups in the subvolume table.
proof fn lemma_obs_get_mirror(s: Seq<(Uuid, Subvol)>, u: Uuid)
    ensures
        obs_get(subvols_obs(s), u) == subvols_get(s, u),
        subvols_get(s, u) is Some ==> {
            &&& 0 <= subvols_get(s, u)->Some_0 < s.len()
            &&& s[subvols_get(s, u)->Some_0].0 == u
            &&& subvols_obs(s)[subvols_get(s, u)->Some_0].1 == fs_obs(
                s[subvols_get(s, u)->Some_0].1.fs,
            )
        },
    decreases s.len(),
{
    if s.len() > 0 {
        assert(subvols_obs(s).len() == s.len());
        assert(subvols_obs(s).last() == (s.last().0, fs_obs(s.last().1.fs)));
        assert(subvols_obs(s).drop_last() =~= subvols_obs(s.drop_last()));
        lemma_obs_get_mirror(s.drop_last(), u);
        if s.last().0 == u {
            assert(subvols_obs(s)[s.len() - 1] == (s.last().0, fs_obs(s.last().1.fs)));
        } else {
            if subvols_get(s.drop_last(), u) is Some {
                let i = subvols_get(s.drop_last(), u)->Some_0;
                assert(s.drop_last()[i] == s[i]);
                assert(subvols_obs(s.drop_last())[i] == subvols_obs(s)[i]);
            }
        }
    }
}

/// Commits in the observation table mirror commits in the subvolume table.
proof fn lemma_obs_commit_mirror(s: Seq<(Uuid, Subvol)>, u: Uuid, sv: Subvol)
    ensures
        subvols_obs(subvols_commit(s, u, sv)) == obs_commit(subvols_obs(s), u, fs_obs(sv.fs)),
{
    lemma_obs_get_mirror(s, u);
    match subvols_get(s, u) {
        Some(i) => {
            assert(subvols_obs(subvols_commit(s, u, sv)) =~= obs_commit(
                subvols_obs(s),
                u,
                fs_obs(sv.fs),
            ));
        }
        None => {
            assert(subvols_obs(subvols_commit(s, u, sv)) =~= obs_commit(
                subvols_obs(s),
                u,
                fs_obs(sv.fs),
            ));
        }
    }
}

/// A deep copy of a store presents the same observation.
proof fn lemma_dup_obs(a: Filesystem, b: Filesystem)
    requires
        a.path_map() == b.path_map(),
        a.inodes@.len() == b.inodes@.len(),
        forall|i: int| 0 <= i < a.inodes@.len() ==> (#[trigger] a.inodes@[i]).eq_spec(
            &b.inodes@[i],
        ),
    ensures
        fs_obs(a) == fs_obs(b),
{
    assert(fs_obs(a).paths =~= fs_obs(b).paths) by {
        assert(forall|q: Seq<u8>|
            #[trigger] a.paths.contains_spec(q) == a.path_map().dom().contains(q));
        assert(forall|q: Seq<u8>|
            #[trigger] b.paths.contains_spec(q) == b.path_map().dom().contains(q));
        assert(forall|q: Seq<u8>|
            #[trigger] a.paths.contains_spec(q) ==> a.paths.get_spec(q)->Some_0
                == a.path_map()[q]);
        assert(forall|q: Seq<u8>|
            #[trigger] b.paths.contains_spec(q) ==> b.paths.get_spec(q)->Some_0
                == b.path_map()[q]);
    }
    assert forall|i: int| 0 <= i < a.inodes@.len() implies kind_of(#[trigger] a.inodes@[i])
        == kind_of(b.inodes@[i]) && flen_of(a.inodes@[i]) == flen_of(b.inodes@[i]) by {
        match a.inodes@[i] {
            Entry::File(fa) => {
                assert(b.inodes@[i] is File);
                crate::file::lemma_extents_match_contents(&fa, &(b.inodes@[i]->File_0));
            }
            _ => {}
        }
    }
    assert(fs_obs(a).kinds =~= fs_obs(b).kinds);
    assert(fs_obs(a).flens =~= fs_obs(b).flens);
    assert(fs_obs(a) =~= fs_obs(b));
}

impl Subvols {
    /// Begin the subvolume a stream-opening command declares: a fresh tree
    /// with a root directory, or a copy of the named parent's tree.
    fn begin(&self, cmd: &Command) -> (r: Result<(Uuid, Subvol), Error>)
        requires
            self.wf(),
        ensures
            match r {
                Ok((u, sv)) => {
                    &&& is_opener(*cmd)
                    &&& u == opening_uuid(*cmd)
                    &&& opens_rel(self.subvols@, *cmd, sv)
                },
                Err(e) => {
                    &&& !((*cmd) is Subvol)
                    &&& ((*cmd) is Snapshot ==> subvols_get(
                        self.subvols@,
                        (*cmd)->Snapshot_clone_uuid,
                    ) is None && e == Error::MissingParent((*cmd)->Snapshot_clone_uuid))
                    &&& (!is_opener(*cmd) ==> e is InvariantViolated)
                },
            },
            r is Ok <==> ((*cmd) is Subvol || ((*cmd) is Snapshot && subvols_get(
                self.subvols@,
                (*cmd)->Snapshot_clone_uuid,
            ) is Some)),
    {
        match cmd {
            Command::Subvol { uuid } => {
                let mut sv = Subvol::new();
                let root = Entry::Directory(crate::entry::Directory::new_default());
                let _key = sv.fs.insert(BytesPath::from_vec(Vec::new()), root);
                proof {
                    assert forall|i: int|
                        0 <= i < sv.fs.inodes@.len() implies (
                    #[trigger] sv.fs.inodes@[i]).sizes_ok() by {
                        assert(sv.fs.inodes@[i] is Directory);
                    }
                    assert(sv.fs.path_map() =~= Map::<Seq<u8>, crate::InodeKey>::empty().insert(
                        Seq::empty(),
                        crate::InodeKey(0),
                    ));
                    assert(sv.fs.refcounts@ =~= Seq::<u64>::empty().push(1u64));
                    assert(forall|q: Seq<u8>|
                        #[trigger] sv.fs.paths.contains_spec(q) == sv.fs.path_map().dom().contains(
                            q,
                        ));
                    assert(forall|q: Seq<u8>|
                        #[trigger] sv.fs.paths.contains_spec(q) ==> sv.fs.paths.get_spec(
                            q,
                        )->Some_0 == sv.fs.path_map()[q]);
                    assert(fs_obs(sv.fs).paths =~= fresh_obs().paths);
                    assert(fs_obs(sv.fs).kinds =~= fresh_obs().kinds);
                    assert(fs_obs(sv.fs).flens =~= fresh_obs().flens);
                    assert(fs_obs(sv.fs) =~= fresh_obs());
                }
                Ok((*uuid, sv))
            }
            Command::Snapshot { uuid, clone_uuid } => {
                match self.find(*clone_uuid) {
                    Some(i) => {
                        let (_, parent) = self.subvol_at(i);
                        let fs = parent.fs.dup();
                        proof {
                            assert forall|j: int|
                                0 <= j < fs.inodes@.len() implies (
                            #[trigger] fs.inodes@[j]).sizes_ok() by {
                                assert(fs.inodes@[j].eq_spec(&parent.fs.inodes@[j]));
                                assert(parent.fs.inodes@[j].sizes_ok());
                                match fs.inodes@[j] {
                                    Entry::File(f) => {
                                        crate::file::lemma_extents_match_contents(
                                            &(fs.inodes@[j]->File_0),
                                            &(parent.fs.inodes@[j]->File_0),
                                        );
                                    }
                                    _ => {}
                                }
                            }
                            lemma_dup_obs(fs, parent.fs);
                        }
                        Ok((*uuid, Subvol { parent_uuid: Some(*clone_uuid), fs }))
                    }
                    None => Err(Error::MissingParent(*clone_uuid)),
                }
            }
            _ => Err(Error::InvariantViolated("first command was not a subvolume start")),
        }
    }

    /// Receive one parsed sendstream: the first command must begin a
    /// subvolume or snapshot; later such commands commit the current
    /// subvolume and begin the next; every other command is applied in
    /// order. Any failure aborts the stream.
    pub fn receive(&mut self, commands: Vec<Command>) -> (r: Result<(), Error>)
        requires
            old(self).wf(),
        ensures
            final(self).wf(),
            r is Ok <==> stream_applies(subvols_obs(old(self).subvols@), commands@),
            r is Ok ==> received_rel(old(self).subvols@, commands@, final(self).subvols@),
            r is Ok ==> final(self).contains_spec(opening_uuid(commands@[0])),
            commands@.len() == 0 ==> r == Err::<(), Error>(
                Error::InvariantViolated("the stream holds no commands"),
            ) && final(self).subvols@ == old(self).subvols@,
            (commands@.len() > 0 && !is_opener(commands@[0])) ==> (r is Err
                && r->Err_0 is InvariantViolated && final(self).subvols@ == old(self).subvols@),
            (commands@.len() > 0 && commands@[0] is Snapshot && subvols_get(
                old(self).subvols@,
                commands@[0]->Snapshot_clone_uuid,
            ) is None) ==> r == Err::<(), Error>(
                Error::MissingParent(commands@[0]->Snapshot_clone_uuid),
            ) && final(self).subvols@ == old(self).subvols@,
    {
        let ghost m0 = self.subvols@;
        if commands.len() == 0 {
            return Err(Error::InvariantViolated("the stream holds no commands"));
        }
        proof {
            if commands@[0] is Snapshot {
                lemma_obs_get_mirror(m0, commands@[0]->Snapshot_clone_uuid);
            }
        }
        let (mut uuid, mut subvol) = match self.begin(&commands[0]) {
            Ok(p) => p,
            Err(e) => {
                return Err(e);
            }
        };
        let ghost first_u = uuid;
        let ghost sv0 = subvol;
        let n = commands.len();
        proof {
            assert(first_u == opening_uuid(commands@[0]));
            assert(commands@.subrange(1, 1) =~= Seq::<Command>::empty());
            assert(commands@.drop_first() =~= commands@.subrange(1, n as int));
        }
        let mut i: usize = 1;
        while i < n
            invariant
                self.wf(),
                subvol.wf(),
                m0 == old(self).subvols@,
                n == commands@.len(),
                1 <= i <= n,
                is_opener(commands@[0]),
                first_u == opening_uuid(commands@[0]),
                uuid == first_u || self.contains_spec(first_u),
                opens_rel(m0, commands@[0], sv0),
                run_rel(
                    m0,
                    first_u,
                    sv0,
                    commands@.subrange(1, i as int),
                    self.subvols@,
                    uuid,
                    subvol,
                ),
                stream_applies(subvols_obs(m0), commands@) == stream_applies_from(
                    subvols_obs(self.subvols@),
                    uuid,
                    fs_obs(subvol.fs),
                    commands@.subrange(i as int, n as int),
                ),
            decreases n - i,
        {
            let ghost done = commands@.subrange(1, i as int);
            let ghost rest = commands@.subrange(i as int, n as int);
            proof {
                assert(rest[0] == commands@[i as int]);
                assert(rest.drop_first() =~= commands@.subrange(i + 1, n as int));
                assert(done.push(commands@[i as int]) =~= commands@.subrange(1, i + 1));
                assert(commands@.subrange(1, i + 1).drop_last() =~= done);
            }
            let cmd = &commands[i];
            let is_start = match cmd {
                Command::Subvol { .. } => true,
                Command::Snapshot { .. } => true,
                _ => false,
            };
            if is_start {
                if self.subvols.len() == usize::MAX {
                    proof {
                        assert(subvols_obs(self.subvols@).len() == self.subvols@.len());
                        assert(!stream_applies_from(
                            subvols_obs(self.subvols@),
                            uuid,
                            fs_obs(subvol.fs),
                            rest,
                        ));
                        assert(!stream_applies(subvols_obs(m0), commands@));
                        assert(m0 == old(self).subvols@);
                        assert(!stream_applies(subvols_obs(old(self).subvols@), commands@));
                        assert(is_opener(commands@[0]));
                        assert(commands@[0] is Snapshot ==> subvols_get(
                            m0,
                            commands@[0]->Snapshot_clone_uuid,
                        ) is Some);
                    }
                    return Err(Error::InvariantViolated("too many subvolumes"));
                }
                let ghost m_pre = self.subvols@;
                let ghost u_pre = uuid;
                let ghost sv_pre = subvol;
                let ghost placeholder = subvol;
                self.commit(uuid, subvol);
                proof {
                    lemma_obs_commit_mirror(m_pre, u_pre, sv_pre);
                    if *cmd is Snapshot {
                        lemma_obs_get_mirror(self.subvols@, (*cmd)->Snapshot_clone_uuid);
                    }
                }
                let (u2, sv2) = match self.begin(cmd) {
                    Ok(p) => p,
                    Err(e) => {
                        proof {
                            assert(!stream_applies_from(
                                subvols_obs(m_pre),
                                u_pre,
                                fs_obs(sv_pre.fs),
                                rest,
                            ));
                            assert(!stream_applies(subvols_obs(m0), commands@));
                            assert(m0 == old(self).subvols@);
                            assert(is_opener(commands@[0]));
                            assert(commands@[0] is Snapshot ==> subvols_get(
                                m0,
                                commands@[0]->Snapshot_clone_uuid,
                            ) is Some);
                        }
                        return Err(e);
                    }
                };
                proof {
                    assert(run_rel(
                        m0,
                        first_u,
                        sv0,
                        commands@.subrange(1, i + 1).drop_last(),
                        m_pre,
                        u_pre,
                        sv_pre,
                    ));
                    assert(self.subvols@ == subvols_commit(m_pre, u_pre, sv_pre));
                    assert(opens_rel(self.subvols@, commands@[i as int], sv2));
                    assert(u2 == opening_uuid(commands@[i as int]));
                    assert(is_opener(commands@[i as int]));
                    lemma_run_rel_step_open(
                        m0,
                        first_u,
                        sv0,
                        done,
                        m_pre,
                        u_pre,
                        sv_pre,
                        sv2,
                        commands@[i as int],
                    );
                    assert(run_rel(
                        m0,
                        first_u,
                        sv0,
                        commands@.subrange(1, i + 1),
                        self.subvols@,
                        opening_uuid(commands@[i as int]),
                        sv2,
                    ));
                    assert(stream_applies_from(
                        subvols_obs(m_pre),
                        u_pre,
                        fs_obs(sv_pre.fs),
                        rest,
                    ) == stream_applies_from(
                        subvols_obs(self.subvols@),
                        u2,
                        fs_obs(sv2.fs),
                        rest.drop_first(),
                    ));
                }
                uuid = u2;
                subvol = sv2;
            } else {
                let ghost sv_before = subvol;
                match Subvols::apply_cmd(&mut subvol, cmd) {
                    Ok(()) => {
                        proof {
                            assert(run_rel(
                                m0,
                                first_u,
                                sv0,
                                commands@.subrange(1, i + 1).drop_last(),
                                self.subvols@,
                                uuid,
                                sv_before,
                            ));
                            assert(applies_v(fs_obs(sv_before.fs), commands@[i as int]));
                            assert(fs_obs(subvol.fs) == obs_apply(
                                fs_obs(sv_before.fs),
                                commands@[i as int],
                            ));
                            assert(cmd_effect(&sv_before, &subvol, commands@[i as int]));
                            assert(!is_opener(commands@[i as int]));
                            lemma_run_rel_step_cmd(
                                m0,
                                first_u,
                                sv0,
                                done,
                                self.subvols@,
                                uuid,
                                sv_before,
                                subvol,
                                commands@[i as int],
                            );
                            assert(run_rel(
                                m0,
                                first_u,
                                sv0,
                                commands@.subrange(1, i + 1),
                                self.subvols@,
                                uuid,
                                subvol,
                            ));
                        }
                    }
                    Err(e) => {
                        proof {
                            assert(!applies_v(fs_obs(sv_before.fs), commands@[i as int]));
                            assert(!stream_applies_from(
                                subvols_obs(self.subvols@),
                                uuid,
                                fs_obs(sv_before.fs),
                                rest,
                            ));
                            assert(!stream_applies(subvols_obs(m0), commands@));
                            assert(m0 == old(self).subvols@);
                            assert(is_opener(commands@[0]));
                            assert(commands@[0] is Snapshot ==> subvols_get(
                                m0,
                                commands@[0]->Snapshot_clone_uuid,
                            ) is Some);
                        }
                        return Err(e);
                    }
                }
            }
            i = i + 1;
        }
        proof {
            assert(commands@.subrange(i as int, n as int) =~= Seq::<Command>::empty());
        }
        if self.subvols.len() == usize::MAX {
            proof {
                assert(subvols_obs(self.subvols@).len() == self.subvols@.len());
            }
            return Err(Error::InvariantViolated("too many subvolumes"));
        }
        let ghost m_fin = self.subvols@;
        let ghost u_fin = uuid;
        let ghost sv_fin = subvol;
        self.commit(uuid, subvol);
        proof {
            assert(commands@.subrange(1, n as int) =~= commands@.drop_first());
            assert(received_rel(m0, commands@, self.subvols@));
        }
        Ok(())
    }
}

} // verus!
