//! In-memory model of a POSIX-style filesystem tree, meant for building and
//! comparing filesystem-in-a-file artifacts (archives, sendstreams, real
//! directories) against each other.
//!
//! The heart of the crate is the [`Filesystem`] store: an inode arena with
//! reference counts and an ordered path table, supporting hard links, rename,
//! and directory removal. Regular file contents are modelled as a map of
//! copy-on-write extents ([`file::File`]) that compose overlapping writes,
//! clone ranges between files, and truncate without copying byte buffers.
//! A field-masked comparator ([`cmp`]) and a diff engine ([`diff`]) drive
//! cross-format comparisons, and [`btrfs`] replays sendstream command logs
//! into trees of subvolumes.

use vstd::prelude::*;

use crate::cmp::ApproxEq;

pub mod archive;
pub mod bmap;
pub mod btrfs;
pub mod buf;
pub mod cmp;
pub mod diff;
pub mod entry;
pub mod file;
pub mod order;
pub mod path;

verus! {

/// The error kinds surfaced by store and content operations.
#[derive(Clone, Copy, PartialEq, Eq, Structural, Debug)]
pub enum FsError {
    /// No entry at the given path.
    NotFound,
    /// The destination path already exists.
    AlreadyExists,
    /// The entry is a directory where one is not allowed.
    IsADirectory,
    /// The entry is not a directory where one is required.
    NotADirectory,
    /// The directory still has entries beneath it.
    DirectoryNotEmpty,
    /// The entry is not of the kind the operation works on.
    WrongEntryType,
    /// A position computation left the representable range.
    InvalidInput,
}

impl FsError {
    /// A short description of the error.
    pub fn describe(&self) -> &'static str {
        match self {
            FsError::NotFound => "not found",
            FsError::AlreadyExists => "already exists",
            FsError::IsADirectory => "is a directory",
            FsError::NotADirectory => "not a directory",
            FsError::DirectoryNotEmpty => "directory not empty",
            FsError::WrongEntryType => "wrong entry type",
            FsError::InvalidInput => "invalid input",
        }
    }
}

/// A stable identity for a filesystem entry, decoupled from any path: an
/// index into the inode arena.
#[derive(Clone, Copy, PartialEq, Eq, Structural, Debug, Hash, PartialOrd, Ord)]
pub struct InodeKey(pub usize);

/// Whether `q` lies strictly under the directory `dir`: under the root when
/// `dir` is empty, otherwise under `dir` followed by a separator.
pub open spec fn dir_child(dir: Seq<u8>, q: Seq<u8>) -> bool {
    if dir.len() == 0 {
        q.len() > 0
    } else {
        q.len() > dir.len() && q.subrange(0, dir.len() as int) == dir && q[dir.len() as int]
            == 47u8
    }
}

/// The path map after a rename: the source association moves to the
/// destination.
pub open spec fn rename_map(
    m: Map<Seq<u8>, InodeKey>,
    from: Seq<u8>,
    to: Seq<u8>,
) -> Map<Seq<u8>, InodeKey> {
    m.remove(from).insert(to, m[from])
}

/// The entry changed only in its xattr table, which now holds `m`.
pub open spec fn xattrs_updated(
    old_e: entry::Entry,
    new_e: entry::Entry,
    m: Map<Seq<u8>, Vec<u8>>,
) -> bool {
    &&& new_e == entry::with_md(old_e, new_e.metadata_spec())
    &&& new_e.metadata_spec() == (entry::Metadata {
        xattrs: new_e.metadata_spec().xattrs,
        ..old_e.metadata_spec()
    })
    &&& new_e.metadata_spec().xattrs.as_map() == m
}

/// Full view of a filesystem: an inode arena with reference counts and an
/// ordered path table.
pub struct Filesystem {
    pub inodes: Vec<entry::Entry>,
    pub refcounts: Vec<u64>,
    pub paths: bmap::BMap<InodeKey>,
}

impl Filesystem {
    /// The path table is sorted, every path points into the arena, the
    /// reference counts parallel the arena, and every entry is well formed.
    pub open spec fn wf(&self) -> bool {
        &&& self.paths.wf()
        &&& forall|i: int|
            0 <= i < self.paths.seq().len() ==> (#[trigger] self.paths.seq()[i]).1.0
                < self.inodes@.len()
        &&& self.refcounts@.len() == self.inodes@.len()
        &&& forall|i: int| 0 <= i < self.inodes@.len() ==> (#[trigger] self.inodes@[i]).wf()
    }

    /// The association from paths to inode keys.
    pub open spec fn path_map(&self) -> Map<Seq<u8>, InodeKey> {
        self.paths.as_map()
    }

    /// The entry reachable at a path.
    pub open spec fn entry_map(&self) -> Map<Seq<u8>, entry::Entry> {
        Map::new(
            |p: Seq<u8>| self.paths.contains_spec(p),
            |p: Seq<u8>| self.inodes@[self.paths.get_spec(p)->Some_0.0 as int],
        )
    }

    /// Two filesystems hold the same tree: the same paths, and entries of
    /// equal content at each path. Inode numbering does not matter.
    pub open spec fn eq_spec(&self, other: &Filesystem) -> bool {
        &&& self.path_map().dom() == other.path_map().dom()
        &&& forall|p: Seq<u8>|
            #[trigger] self.path_map().dom().contains(p) ==> self.entry_map()[p].eq_spec(
                &other.entry_map()[p],
            )
    }

    pub fn new() -> (r: Filesystem)
        ensures
            r.wf(),
            r.path_map() == Map::<Seq<u8>, InodeKey>::empty(),
            r.inodes@.len() == 0,
    {
        let r = Filesystem {
            inodes: Vec::new(),
            refcounts: Vec::new(),
            paths: bmap::BMap::new(),
        };
        r
    }

    /// The number of paths in the table.
    pub fn num_paths(&self) -> (r: usize)
        ensures
            r == self.paths.seq().len(),
    {
        self.paths.len()
    }

    /// The path and entry at position `i` in path order.
    pub fn entry_at(&self, i: usize) -> (r: (&Vec<u8>, &entry::Entry))
        requires
            self.wf(),
            i < self.paths.seq().len(),
        ensures
            *r.0 == self.paths.seq()[i as int].0,
            *r.1 == self.entry_map()[self.paths.seq()[i as int].0@],
            self.path_map().dom().contains(self.paths.seq()[i as int].0@),
    {
        let (p, k) = self.paths.idx(i);
        proof {
            self.paths.lemma_get_at(i as int);
        }
        (p, &self.inodes[k.0])
    }

    /// Every path's inode key points into the arena.
    pub proof fn lemma_path_values(&self)
        requires
            self.wf(),
        ensures
            forall|p: Seq<u8>|
                #[trigger] self.paths.contains_spec(p) ==> self.paths.get_spec(p)->Some_0.0
                    < self.inodes@.len(),
    {
        assert forall|p: Seq<u8>|
            #[trigger] self.paths.contains_spec(p) implies self.paths.get_spec(p)->Some_0.0
            < self.inodes@.len() by {
            self.paths.lemma_get_index(p);
        }
    }

    /// Allocate a fresh inode for `entry`, associate `path` with it, and set
    /// its reference count to one. An existing association for `path` is
    /// overwritten; the prior inode keeps its count.
    pub fn insert(&mut self, path: path::BytesPath, entry: entry::Entry) -> (r: InodeKey)
        requires
            old(self).wf(),
            entry.wf(),
            old(self).inodes@.len() < usize::MAX,
        ensures
            final(self).wf(),
            r.0 == old(self).inodes@.len(),
            final(self).inodes@ == old(self).inodes@.push(entry),
            final(self).refcounts@ == old(self).refcounts@.push(1u64),
            final(self).path_map() == old(self).path_map().insert(path@, r),
            final(self).entry_map() == old(self).entry_map().insert(path@, entry),
    {
        proof {
            old(self).lemma_path_values();
        }
        let key = InodeKey(self.inodes.len());
        self.inodes.push(entry);
        self.refcounts.push(1);
        self.paths.insert(path.bytes, key);
        proof {
            assert forall|i: int|
                0 <= i < self.paths.seq().len() implies (#[trigger] self.paths.seq()[i]).1.0
                < self.inodes@.len() by {
                if old(self).paths.seq().contains(self.paths.seq()[i]) {
                    let j = choose|j: int|
                        0 <= j < old(self).paths.seq().len() && old(self).paths.seq()[j]
                            == self.paths.seq()[i];
                }
            }
            assert(self.entry_map() =~= old(self).entry_map().insert(path@, entry)) by {
                old(self).lemma_path_values();
                assert(self.paths.get_spec(path@) == Some(key));
                assert(self.inodes@[key.0 as int] == entry);
                assert forall|p: Seq<u8>|
                    #[trigger] self.paths.contains_spec(p) && p != path@ implies old(
                    self,
                ).paths.contains_spec(p) && self.entry_map()[p] == old(self).entry_map()[p] by {
                    assert(self.paths.get_spec(p) == old(self).paths.get_spec(p));
                    assert(old(self).paths.get_spec(p) is Some);
                    assert(old(self).paths.contains_spec(p));
                    assert(old(self).paths.get_spec(p)->Some_0.0 < old(self).inodes@.len()) by {
                        old(self).lemma_path_values();
                    }
                }
            }
        }
        key
    }

    /// Remove the association for `path` and decrement the inode's
    /// reference count.
    pub fn unlink(&mut self, path: &path::BytesPath) -> (r: Result<(), FsError>)
        requires
            old(self).wf(),
        ensures
            final(self).wf(),
            match r {
                Ok(()) => {
                    &&& old(self).path_map().dom().contains(path@)
                    &&& final(self).path_map() == old(self).path_map().remove(path@)
                    &&& final(self).entry_map() == old(self).entry_map().remove(path@)
                    &&& final(self).inodes@ == old(self).inodes@
                    &&& final(self).refcounts@ == old(self).refcounts@.update(
                        old(self).path_map()[path@].0 as int,
                        rc_dec(old(self).refcounts@[old(self).path_map()[path@].0 as int]),
                    )
                },
                Err(e) => {
                    &&& e == FsError::NotFound
                    &&& !old(self).path_map().dom().contains(path@)
                    &&& final(self).paths.seq() == old(self).paths.seq()
                    &&& final(self).inodes@ == old(self).inodes@
                    &&& final(self).refcounts@ == old(self).refcounts@
                },
            },
    {
        proof {
            old(self).lemma_path_values();
            if old(self).paths.contains_spec(path@) {
                old(self).paths.lemma_get_index(path@);
            }
        }
        match self.paths.remove(path.bytes.as_slice()) {
            Some(key) => {
                let rc = self.refcounts[key.0];
                let new_rc = if rc > 0 {
                    rc - 1
                } else {
                    0
                };
                self.refcounts[key.0] = new_rc;
                proof {
                    assert forall|i: int|
                        0 <= i < self.paths.seq().len() implies (
                    #[trigger] self.paths.seq()[i]).1.0 < self.inodes@.len() by {
                        assert(old(self).paths.seq().contains(self.paths.seq()[i]));
                        let j = choose|j: int|
                            0 <= j < old(self).paths.seq().len() && old(self).paths.seq()[j]
                                == self.paths.seq()[i];
                    }
                    assert(self.entry_map() =~= old(self).entry_map().remove(path@)) by {
                        assert forall|p: Seq<u8>| #[trigger] self.paths.contains_spec(
                            p,
                        ) implies self.entry_map()[p] == old(self).entry_map()[p] by {
                            old(self).lemma_path_values();
                        }
                    }
                }
                Ok(())
            }
            None => Err(FsError::NotFound),
        }
    }

    /// A reference to the entry at `path`.
    pub fn get(&self, path: &path::BytesPath) -> (r: Result<&entry::Entry, FsError>)
        requires
            self.wf(),
        ensures
            match r {
                Ok(e) => self.path_map().dom().contains(path@) && *e == self.entry_map()[path@],
                Err(err) => err == FsError::NotFound && !self.path_map().dom().contains(path@),
            },
    {
        match self.paths.get(path.bytes.as_slice()) {
            Some(key) => {
                proof {
                    self.paths.lemma_get_index(path@);
                }
                Ok(&self.inodes[key.0])
            }
            None => Err(FsError::NotFound),
        }
    }
}

impl Filesystem {
    /// Update the entry at inode `k` in place.
    fn entry_mut(&mut self, k: usize) -> (r: &mut entry::Entry)
        requires
            k < old(self).inodes@.len(),
        ensures
            *r == old(self).inodes@[k as int],
            final(self).inodes@ == old(self).inodes@.update(k as int, *final(r)),
            final(self).refcounts@ == old(self).refcounts@,
            final(self).paths.seq() == old(self).paths.seq(),
    {
        vstd::std_specs::vec::vec_index_mut(&mut self.inodes, k)
    }

    /// The inode key at `path`, if any.
    fn lookup(&self, path: &path::BytesPath) -> (r: Option<InodeKey>)
        requires
            self.wf(),
        ensures
            match r {
                Some(k) => self.paths.get_spec(path@) == Some(k) && k.0 < self.inodes@.len()
                    && self.path_map().dom().contains(path@) && self.entry_map()[path@]
                    == self.inodes@[k.0 as int],
                None => !self.path_map().dom().contains(path@),
            },
    {
        match self.paths.get(path.bytes.as_slice()) {
            Some(key) => {
                proof {
                    self.paths.lemma_get_index(path@);
                }
                Some(*key)
            }
            None => None,
        }
    }

    /// The well-formedness and view bookkeeping shared by every operation
    /// that rewrites the entry of one inode in place.
    proof fn lemma_entry_update(&self, prev: &Filesystem, k: int)
        requires
            prev.wf(),
            0 <= k < prev.inodes@.len(),
            self.inodes@ == prev.inodes@.update(k, self.inodes@[k]),
            self.inodes@[k].wf(),
            self.refcounts@ == prev.refcounts@,
            self.paths.seq() == prev.paths.seq(),
        ensures
            self.wf(),
            self.path_map() == prev.path_map(),
            forall|p: Seq<u8>|
                #[trigger] prev.paths.contains_spec(p) ==> self.entry_map()[p] == (
                if prev.paths.get_spec(p)->Some_0.0 == k {
                    self.inodes@[k]
                } else {
                    prev.entry_map()[p]
                }),
            self.entry_map().dom() == prev.entry_map().dom(),
    {
        assert(self.path_map() =~= prev.path_map());
        assert forall|p: Seq<u8>| #[trigger] prev.paths.contains_spec(p) implies self.entry_map()[p]
            == (if prev.paths.get_spec(p)->Some_0.0 == k {
            self.inodes@[k]
        } else {
            prev.entry_map()[p]
        }) by {
            prev.lemma_path_values();
        }
        assert(self.entry_map().dom() =~= prev.entry_map().dom());
    }

    /// Change the mode of the entry at `path`.
    pub fn chmod(&mut self, path: &path::BytesPath, mode: u32) -> (r: Result<(), FsError>)
        requires
            old(self).wf(),
        ensures
            final(self).wf(),
            final(self).paths.seq() == old(self).paths.seq(),
            final(self).refcounts@ == old(self).refcounts@,
            match r {
                Ok(()) => {
                    &&& old(self).path_map().dom().contains(path@)
                    &&& final(self).inodes@ == old(self).inodes@.update(
                        old(self).path_map()[path@].0 as int,
                        entry::with_md(
                            old(self).entry_map()[path@],
                            entry::Metadata {
                                mode,
                                ..old(self).entry_map()[path@].metadata_spec()
                            },
                        ),
                    )
                },
                Err(e) => {
                    &&& e == FsError::NotFound
                    &&& !old(self).path_map().dom().contains(path@)
                    &&& final(self).inodes@ == old(self).inodes@
                },
            },
    {
        match self.lookup(path) {
            Some(key) => {
                let e = self.entry_mut(key.0);
                e.chmod(mode);
                proof {
                    self.lemma_entry_update(old(self), key.0 as int);
                }
                Ok(())
            }
            None => Err(FsError::NotFound),
        }
    }

    /// Change the owner of the entry at `path`.
    pub fn chown(&mut self, path: &path::BytesPath, uid: entry::Uid, gid: entry::Gid) -> (r:
        Result<(), FsError>)
        requires
            old(self).wf(),
        ensures
            final(self).wf(),
            final(self).paths.seq() == old(self).paths.seq(),
            final(self).refcounts@ == old(self).refcounts@,
            match r {
                Ok(()) => {
                    &&& old(self).path_map().dom().contains(path@)
                    &&& final(self).inodes@ == old(self).inodes@.update(
                        old(self).path_map()[path@].0 as int,
                        entry::with_md(
                            old(self).entry_map()[path@],
                            entry::Metadata {
                                uid,
                                gid,
                                ..old(self).entry_map()[path@].metadata_spec()
                            },
                        ),
                    )
                },
                Err(e) => {
                    &&& e == FsError::NotFound
                    &&& !old(self).path_map().dom().contains(path@)
                    &&& final(self).inodes@ == old(self).inodes@
                },
            },
    {
        match self.lookup(path) {
            Some(key) => {
                let e = self.entry_mut(key.0);
                e.chown(uid, gid);
                proof {
                    self.lemma_entry_update(old(self), key.0 as int);
                }
                Ok(())
            }
            None => Err(FsError::NotFound),
        }
    }

    /// Set the three times of the entry at `path`.
    pub fn set_times(
        &mut self,
        path: &path::BytesPath,
        created: entry::Time,
        accessed: entry::Time,
        modified: entry::Time,
    ) -> (r: Result<(), FsError>)
        requires
            old(self).wf(),
        ensures
            final(self).wf(),
            final(self).paths.seq() == old(self).paths.seq(),
            final(self).refcounts@ == old(self).refcounts@,
            match r {
                Ok(()) => {
                    &&& old(self).path_map().dom().contains(path@)
                    &&& final(self).inodes@ == old(self).inodes@.update(
                        old(self).path_map()[path@].0 as int,
                        entry::with_md(
                            old(self).entry_map()[path@],
                            entry::Metadata {
                                created,
                                accessed,
                                modified,
                                ..old(self).entry_map()[path@].metadata_spec()
                            },
                        ),
                    )
                },
                Err(e) => {
                    &&& e == FsError::NotFound
                    &&& !old(self).path_map().dom().contains(path@)
                    &&& final(self).inodes@ == old(self).inodes@
                },
            },
    {
        match self.lookup(path) {
            Some(key) => {
                let e = self.entry_mut(key.0);
                e.set_times(created, accessed, modified);
                proof {
                    self.lemma_entry_update(old(self), key.0 as int);
                }
                Ok(())
            }
            None => Err(FsError::NotFound),
        }
    }

    /// Set one xattr on the entry at `path`.
    pub fn set_xattr(&mut self, path: &path::BytesPath, name: Vec<u8>, value: Vec<u8>) -> (r:
        Result<(), FsError>)
        requires
            old(self).wf(),
        ensures
            final(self).wf(),
            final(self).paths.seq() == old(self).paths.seq(),
            final(self).refcounts@ == old(self).refcounts@,
            match r {
                Ok(()) => {
                    &&& old(self).path_map().dom().contains(path@)
                    &&& final(self).inodes@ == old(self).inodes@.update(
                        old(self).path_map()[path@].0 as int,
                        final(self).inodes@[old(self).path_map()[path@].0 as int],
                    )
                    &&& xattrs_updated(
                        old(self).entry_map()[path@],
                        final(self).inodes@[old(self).path_map()[path@].0 as int],
                        old(self).entry_map()[path@].metadata_spec().xattrs.as_map().insert(
                            name@,
                            value,
                        ),
                    )
                },
                Err(e) => {
                    &&& e == FsError::NotFound
                    &&& !old(self).path_map().dom().contains(path@)
                    &&& final(self).inodes@ == old(self).inodes@
                },
            },
    {
        match self.lookup(path) {
            Some(key) => {
                let e = self.entry_mut(key.0);
                e.set_xattr(name, value);
                proof {
                    self.lemma_entry_update(old(self), key.0 as int);
                    assert(self.inodes@ =~= old(self).inodes@.update(
                        key.0 as int,
                        self.inodes@[key.0 as int],
                    ));
                }
                Ok(())
            }
            None => Err(FsError::NotFound),
        }
    }

    /// Remove one xattr from the entry at `path`.
    pub fn remove_xattr(&mut self, path: &path::BytesPath, name: &[u8]) -> (r: Result<
        (),
        FsError,
    >)
        requires
            old(self).wf(),
        ensures
            final(self).wf(),
            final(self).paths.seq() == old(self).paths.seq(),
            final(self).refcounts@ == old(self).refcounts@,
            match r {
                Ok(()) => {
                    &&& old(self).path_map().dom().contains(path@)
                    &&& final(self).inodes@ == old(self).inodes@.update(
                        old(self).path_map()[path@].0 as int,
                        final(self).inodes@[old(self).path_map()[path@].0 as int],
                    )
                    &&& xattrs_updated(
                        old(self).entry_map()[path@],
                        final(self).inodes@[old(self).path_map()[path@].0 as int],
                        old(self).entry_map()[path@].metadata_spec().xattrs.as_map().remove(
                            name@,
                        ),
                    )
                },
                Err(e) => {
                    &&& e == FsError::NotFound
                    &&& !old(self).path_map().dom().contains(path@)
                    &&& final(self).inodes@ == old(self).inodes@
                },
            },
    {
        match self.lookup(path) {
            Some(key) => {
                let e = self.entry_mut(key.0);
                let _old_value = e.remove_xattr(name);
                proof {
                    self.lemma_entry_update(old(self), key.0 as int);
                    assert(self.inodes@ =~= old(self).inodes@.update(
                        key.0 as int,
                        self.inodes@[key.0 as int],
                    ));
                }
                Ok(())
            }
            None => Err(FsError::NotFound),
        }
    }
}

impl Filesystem {
    /// Atomically move the association at `from` to `to`. Nothing changes on
    /// failure: the destination is checked before the source is touched.
    pub fn rename(&mut self, from: &path::BytesPath, to: path::BytesPath) -> (r: Result<
        (),
        FsError,
    >)
        requires
            old(self).wf(),
        ensures
            final(self).wf(),
            final(self).inodes@ == old(self).inodes@,
            final(self).refcounts@ == old(self).refcounts@,
            match r {
                Ok(()) => {
                    &&& old(self).path_map().dom().contains(from@)
                    &&& (to@ == from@ || !old(self).path_map().dom().contains(to@))
                    &&& final(self).path_map() == rename_map(old(self).path_map(), from@, to@)
                    &&& final(self).entry_map() == old(self).entry_map().remove(from@).insert(
                        to@,
                        old(self).entry_map()[from@],
                    )
                },
                Err(e) => {
                    &&& final(self).paths.seq() == old(self).paths.seq()
                    &&& (e == FsError::NotFound || e == FsError::AlreadyExists)
                    &&& (e == FsError::NotFound <==> !old(self).path_map().dom().contains(
                        from@,
                    ))
                    &&& (e == FsError::AlreadyExists ==> to@ != from@ && old(
                        self,
                    ).path_map().dom().contains(from@) && old(self).path_map().dom().contains(
                        to@,
                    ))
                },
            },
    {
        proof {
            old(self).lemma_path_values();
        }
        let same = crate::order::bytes_cmp(from.bytes.as_slice(), to.bytes.as_slice())
            == crate::order::Rel::Same;
        match self.lookup(from) {
            Some(key) => {
                if !same && self.paths.contains_key(to.bytes.as_slice()) {
                    return Err(FsError::AlreadyExists);
                }
                self.paths.remove(from.bytes.as_slice());
                self.paths.insert(to.bytes, key);
                proof {
                    assert forall|i: int|
                        0 <= i < self.paths.seq().len() implies (
                    #[trigger] self.paths.seq()[i]).1.0 < self.inodes@.len() by {
                        if old(self).paths.seq().contains(self.paths.seq()[i]) {
                            let j = choose|j: int|
                                0 <= j < old(self).paths.seq().len() && old(self).paths.seq()[j]
                                    == self.paths.seq()[i];
                        }
                    }
                    assert(self.path_map() =~= rename_map(old(self).path_map(), from@, to@));
                    assert(self.entry_map() =~= old(self).entry_map().remove(from@).insert(
                        to@,
                        old(self).entry_map()[from@],
                    ));
                }
                Ok(())
            }
            None => Err(FsError::NotFound),
        }
    }

    /// Create a hard link: associate `new` with the inode at `old_path` and
    /// increment its reference count. Directories cannot be linked.
    pub fn link(&mut self, old_path: &path::BytesPath, new: path::BytesPath) -> (r: Result<
        (),
        FsError,
    >)
        requires
            old(self).wf(),
        ensures
            final(self).wf(),
            final(self).inodes@ == old(self).inodes@,
            match r {
                Ok(()) => {
                    &&& old(self).path_map().dom().contains(old_path@)
                    &&& !(old(self).entry_map()[old_path@] is Directory)
                    &&& final(self).path_map() == old(self).path_map().insert(
                        new@,
                        old(self).path_map()[old_path@],
                    )
                    &&& final(self).entry_map() == old(self).entry_map().insert(
                        new@,
                        old(self).entry_map()[old_path@],
                    )
                    &&& final(self).refcounts@ == old(self).refcounts@.update(
                        old(self).path_map()[old_path@].0 as int,
                        rc_inc(old(self).refcounts@[old(self).path_map()[old_path@].0 as int]),
                    )
                },
                Err(e) => {
                    &&& final(self).paths.seq() == old(self).paths.seq()
                    &&& final(self).refcounts@ == old(self).refcounts@
                    &&& (e == FsError::NotFound <==> !old(self).path_map().dom().contains(
                        old_path@,
                    ))
                    &&& (e == FsError::IsADirectory <==> old(self).path_map().dom().contains(
                        old_path@,
                    ) && old(self).entry_map()[old_path@] is Directory)
                    &&& (e == FsError::NotFound || e == FsError::IsADirectory)
                },
            },
    {
        proof {
            old(self).lemma_path_values();
        }
        match self.lookup(old_path) {
            Some(key) => {
                if self.inodes[key.0].is_directory() {
                    return Err(FsError::IsADirectory);
                }
                let rc = self.refcounts[key.0];
                let new_rc = if rc < u64::MAX {
                    rc + 1
                } else {
                    rc
                };
                self.refcounts[key.0] = new_rc;
                self.paths.insert(new.bytes, key);
                proof {
                    assert forall|i: int|
                        0 <= i < self.paths.seq().len() implies (
                    #[trigger] self.paths.seq()[i]).1.0 < self.inodes@.len() by {
                        if old(self).paths.seq().contains(self.paths.seq()[i]) {
                            let j = choose|j: int|
                                0 <= j < old(self).paths.seq().len() && old(self).paths.seq()[j]
                                    == self.paths.seq()[i];
                        }
                    }
                    assert(self.path_map() =~= old(self).path_map().insert(
                        new@,
                        old(self).path_map()[old_path@],
                    ));
                    assert(self.entry_map() =~= old(self).entry_map().insert(
                        new@,
                        old(self).entry_map()[old_path@],
                    ));
                }
                Ok(())
            }
            None => Err(FsError::NotFound),
        }
    }

    /// Remove a directory. Fails unless the entry is a directory with no
    /// other path strictly beneath it; on success the association is removed
    /// and the reference count decremented.
    pub fn rmdir(&mut self, path: &path::BytesPath) -> (r: Result<(), FsError>)
        requires
            old(self).wf(),
        ensures
            final(self).wf(),
            final(self).inodes@ == old(self).inodes@,
            r is Ok <==> old(self).path_map().dom().contains(path@) && old(
                self,
            ).entry_map()[path@] is Directory && (forall|q: Seq<u8>|
                #[trigger] old(self).path_map().dom().contains(q) ==> !dir_child(path@, q)),
            r is Ok ==> {
                &&& final(self).path_map() == old(self).path_map().remove(path@)
                &&& final(self).entry_map() == old(self).entry_map().remove(path@)
                &&& final(self).refcounts@ == old(self).refcounts@.update(
                    old(self).path_map()[path@].0 as int,
                    rc_dec(old(self).refcounts@[old(self).path_map()[path@].0 as int]),
                )
            },
            r is Err ==> {
                &&& final(self).paths.seq() == old(self).paths.seq()
                &&& final(self).refcounts@ == old(self).refcounts@
                &&& (r->Err_0 == FsError::NotFound <==> !old(self).path_map().dom().contains(
                    path@,
                ))
                &&& (r->Err_0 == FsError::NotADirectory <==> old(
                    self,
                ).path_map().dom().contains(path@) && !(old(self).entry_map()[path@]
                    is Directory))
                &&& (r->Err_0 == FsError::NotFound || r->Err_0 == FsError::NotADirectory
                    || r->Err_0 == FsError::DirectoryNotEmpty)
            },
    {
        proof {
            old(self).lemma_path_values();
        }
        match self.lookup(path) {
            Some(key) => {
                if !self.inodes[key.0].is_directory() {
                    return Err(FsError::NotADirectory);
                }
                // a prefix scan over the ordered path table
                let n = self.paths.len();
                let mut i: usize = 0;
                while i < n
                    invariant
                        self.wf(),
                        *self == *old(self),
                        self.paths.get_spec(path@) == Some(key),
                        key.0 < self.inodes@.len(),
                        self.inodes@[key.0 as int] is Directory,
                        self.entry_map()[path@] == self.inodes@[key.0 as int],
                        n == self.paths.seq().len(),
                        i <= n,
                        forall|j: int|
                            0 <= j < i ==> !dir_child(path@, (#[trigger] self.paths.seq()[j]).0@),
                    decreases n - i,
                {
                    let (q, _) = self.paths.idx(i);
                    if is_dir_child(path.bytes.as_slice(), q.as_slice()) {
                        proof {
                            self.paths.lemma_get_at(i as int);
                            assert(old(self).path_map().dom().contains(
                                self.paths.seq()[i as int].0@,
                            ));
                            assert(dir_child(path@, self.paths.seq()[i as int].0@));
                        }
                        return Err(FsError::DirectoryNotEmpty);
                    }
                    i = i + 1;
                }
                proof {
                    assert forall|q: Seq<u8>|
                        #[trigger] old(self).path_map().dom().contains(q) implies !dir_child(
                        path@,
                        q,
                    ) by {
                        old(self).paths.lemma_get_index(q);
                    }
                }
                let removed = self.paths.remove(path.bytes.as_slice());
                let rc = self.refcounts[key.0];
                let new_rc = if rc > 0 {
                    rc - 1
                } else {
                    0
                };
                self.refcounts[key.0] = new_rc;
                proof {
                    assert forall|i: int|
                        0 <= i < self.paths.seq().len() implies (
                    #[trigger] self.paths.seq()[i]).1.0 < self.inodes@.len() by {
                        assert(old(self).paths.seq().contains(self.paths.seq()[i]));
                        let j = choose|j: int|
                            0 <= j < old(self).paths.seq().len() && old(self).paths.seq()[j]
                                == self.paths.seq()[i];
                    }
                    assert(self.entry_map() =~= old(self).entry_map().remove(path@));
                }
                Ok(())
            }
            None => Err(FsError::NotFound),
        }
    }

    /// A reference to the regular file at `path`.
    pub fn get_file(&self, path: &path::BytesPath) -> (r: Result<&file::File, FsError>)
        requires
            self.wf(),
        ensures
            match r {
                Ok(f) => self.path_map().dom().contains(path@) && self.entry_map()[path@] is File
                    && *f == self.entry_map()[path@]->File_0,
                Err(e) => {
                    &&& (e == FsError::NotFound <==> !self.path_map().dom().contains(path@))
                    &&& (e == FsError::WrongEntryType <==> self.path_map().dom().contains(path@)
                        && !(self.entry_map()[path@] is File))
                    &&& (e == FsError::NotFound || e == FsError::WrongEntryType)
                },
            },
    {
        match self.lookup(path) {
            Some(key) => {
                match &self.inodes[key.0] {
                    entry::Entry::File(f) => Ok(f),
                    _ => Err(FsError::WrongEntryType),
                }
            }
            None => Err(FsError::NotFound),
        }
    }

    /// Mutable access to the regular file at `path`. The well-formedness of
    /// the store afterwards follows once the caller leaves the file well
    /// formed.
    pub fn get_file_mut(&mut self, path: &path::BytesPath) -> (r: Result<&mut file::File, FsError>)
        requires
            old(self).wf(),
        ensures
            match r {
                Ok(f) => {
                    &&& old(self).path_map().dom().contains(path@)
                    &&& old(self).entry_map()[path@] is File
                    &&& *f == old(self).entry_map()[path@]->File_0
                    &&& f.wf()
                    &&& final(self).paths.seq() == old(self).paths.seq()
                    &&& final(self).refcounts@ == old(self).refcounts@
                    &&& final(self).inodes@ == old(self).inodes@.update(
                        old(self).path_map()[path@].0 as int,
                        entry::Entry::File(*final(f)),
                    )
                    &&& (final(f).wf() ==> final(self).wf())
                },
                Err(e) => {
                    &&& final(self).paths.seq() == old(self).paths.seq()
                    &&& final(self).refcounts@ == old(self).refcounts@
                    &&& final(self).inodes@ == old(self).inodes@
                    &&& (e == FsError::NotFound <==> !old(self).path_map().dom().contains(
                        path@,
                    ))
                    &&& (e == FsError::WrongEntryType <==> old(self).path_map().dom().contains(
                        path@,
                    ) && !(old(self).entry_map()[path@] is File))
                    &&& (e == FsError::NotFound || e == FsError::WrongEntryType)
                },
            },
    {
        proof {
            old(self).lemma_path_values();
        }
        match self.lookup(path) {
            Some(key) => {
                let is_file = self.inodes[key.0].is_file();
                if !is_file {
                    return Err(FsError::WrongEntryType);
                }
                let e = self.entry_mut(key.0);
                match e {
                    entry::Entry::File(f) => Ok(f),
                    _ => Err(FsError::WrongEntryType),
                }
            }
            None => Err(FsError::NotFound),
        }
    }

    /// Truncate the regular file at `path` to `len` bytes.
    pub fn truncate(&mut self, path: &path::BytesPath, len: u64) -> (r: Result<(), FsError>)
        requires
            old(self).wf(),
        ensures
            final(self).wf(),
            final(self).paths.seq() == old(self).paths.seq(),
            final(self).refcounts@ == old(self).refcounts@,
            match r {
                Ok(()) => {
                    &&& old(self).path_map().dom().contains(path@)
                    &&& old(self).entry_map()[path@] is File
                    &&& final(self).inodes@ == old(self).inodes@.update(
                        old(self).path_map()[path@].0 as int,
                        final(self).inodes@[old(self).path_map()[path@].0 as int],
                    )
                    &&& final(self).inodes@[old(self).path_map()[path@].0 as int] is File
                    &&& truncated_file(
                        old(self).entry_map()[path@]->File_0,
                        final(self).inodes@[old(self).path_map()[path@].0 as int]->File_0,
                        len as int,
                    )
                },
                Err(e) => {
                    &&& final(self).inodes@ == old(self).inodes@
                    &&& (e == FsError::NotFound <==> !old(self).path_map().dom().contains(
                        path@,
                    ))
                    &&& (e == FsError::WrongEntryType <==> old(self).path_map().dom().contains(
                        path@,
                    ) && !(old(self).entry_map()[path@] is File))
                    &&& (e == FsError::NotFound || e == FsError::WrongEntryType)
                },
            },
    {
        let f = match self.get_file_mut(path) {
            Ok(f) => f,
            Err(e) => {
                return Err(e);
            }
        };
        f.truncate(len);
        proof {
            old(self).lemma_path_values();
            assert(old(self).paths.contains_spec(path@));
            assert(self.inodes@ =~= old(self).inodes@.update(
                old(self).path_map()[path@].0 as int,
                self.inodes@[old(self).path_map()[path@].0 as int],
            ));
        }
        Ok(())
    }

    /// A deep copy of the whole store: same paths, same reference counts,
    /// entries of equal content under the same inode keys.
    pub fn dup(&self) -> (r: Filesystem)
        requires
            self.wf(),
        ensures
            r.wf(),
            r.path_map() == self.path_map(),
            r.refcounts@ == self.refcounts@,
            r.inodes@.len() == self.inodes@.len(),
            forall|i: int|
                0 <= i < self.inodes@.len() ==> (#[trigger] r.inodes@[i]).eq_spec(
                    &self.inodes@[i],
                ) && (r.inodes@[i] is Directory <==> self.inodes@[i] is Directory),
            r.eq_spec(self),
    {
        let n = self.inodes.len();
        let mut inodes: Vec<entry::Entry> = Vec::new();
        let mut i: usize = 0;
        while i < n
            invariant
                self.wf(),
                n == self.inodes@.len(),
                i <= n,
                inodes@.len() == i,
                forall|j: int|
                    0 <= j < i ==> (#[trigger] inodes@[j]).eq_spec(&self.inodes@[j])
                        && inodes@[j].wf() && (inodes@[j] is Directory <==> self.inodes@[j]
                        is Directory),
            decreases n - i,
        {
            let e = self.inodes[i].dup();
            inodes.push(e);
            i = i + 1;
        }
        let mut refcounts: Vec<u64> = Vec::new();
        let mut j: usize = 0;
        while j < n
            invariant
                self.wf(),
                n == self.refcounts@.len(),
                j <= n,
                refcounts@ == self.refcounts@.subrange(0, j as int),
            decreases n - j,
        {
            refcounts.push(self.refcounts[j]);
            proof {
                assert(refcounts@ =~= self.refcounts@.subrange(0, j + 1));
            }
            j = j + 1;
        }
        let np = self.paths.len();
        let mut pairs: Vec<(Vec<u8>, InodeKey)> = Vec::new();
        let mut m: usize = 0;
        while m < np
            invariant
                self.wf(),
                np == self.paths.seq().len(),
                m <= np,
                pairs@.len() == m,
                forall|t: int|
                    0 <= t < m ==> (#[trigger] pairs@[t]).0@ == self.paths.seq()[t].0@
                        && pairs@[t].1 == self.paths.seq()[t].1,
            decreases np - m,
        {
            let (q, k) = self.paths.idx(m);
            pairs.push((path::clone_bytes(q), *k));
            m = m + 1;
        }
        let paths = bmap::BMap { entries: pairs };
        let r = Filesystem { inodes, refcounts, paths };
        proof {
            assert(r.refcounts@ =~= self.refcounts@);
            assert forall|k: Seq<u8>| true implies #[trigger] r.paths.get_spec(k)
                == self.paths.get_spec(k) by {
                lemma_assoc_parallel(r.paths.seq(), self.paths.seq(), k);
            }
            assert(r.path_map() =~= self.path_map());
            self.lemma_path_values();
            assert(r.wf());
            assert forall|p: Seq<u8>|
                #[trigger] r.path_map().dom().contains(p) implies r.entry_map()[p].eq_spec(
                &self.entry_map()[p],
            ) by {
                self.paths.lemma_get_index(p);
            }
            assert(r.path_map().dom() =~= self.path_map().dom());
        }
        r
    }
}

/// Whether `q` is strictly beneath the directory `dir`.
pub fn is_dir_child(dir: &[u8], q: &[u8]) -> (r: bool)
    ensures
        r == dir_child(dir@, q@),
{
    if dir.len() == 0 {
        return q.len() > 0;
    }
    if q.len() <= dir.len() {
        return false;
    }
    if !crate::order::starts_with(q, dir) {
        return false;
    }
    q[dir.len()] == 47u8
}

/// Tables with pairwise matching keys and equal values associate alike.
pub proof fn lemma_assoc_parallel<V>(
    a: Seq<(Vec<u8>, V)>,
    b: Seq<(Vec<u8>, V)>,
    k: Seq<u8>,
)
    requires
        a.len() == b.len(),
        forall|i: int| 0 <= i < a.len() ==> (#[trigger] a[i]).0@ == b[i].0@ && a[i].1 == b[i].1,
    ensures
        bmap::assoc_get(a, k) == bmap::assoc_get(b, k),
    decreases a.len(),
{
    if a.len() > 0 {
        assert(forall|i: int| 0 <= i < a.drop_first().len() ==> a.drop_first()[i] == a[i + 1]);
        assert(forall|i: int| 0 <= i < b.drop_first().len() ==> b.drop_first()[i] == b[i + 1]);
        lemma_assoc_parallel(a.drop_first(), b.drop_first(), k);
    }
}

/// A reference count after one hard link: one more, stopping at the top.
pub open spec fn rc_inc(rc: u64) -> u64 {
    if rc < u64::MAX {
        (rc + 1) as u64
    } else {
        u64::MAX
    }
}

/// The shape of a truncated file: the requested length, bytes kept up to
/// it, zeros beyond the old end, metadata untouched.
pub open spec fn truncated_file(old_f: file::File, new_f: file::File, len: int) -> bool {
    &&& new_f.metadata == old_f.metadata
    &&& new_f.len_spec() == len
    &&& new_f.contents() == Seq::new(
        len as nat,
        |i: int|
            if 0 <= i < old_f.len_spec() {
                old_f.contents()[i]
            } else {
                0u8
            },
    )
}

/// A reference count after one unlink: one less, stopping at zero.
pub open spec fn rc_dec(rc: u64) -> u64 {
    if rc > 0 {
        (rc - 1) as u64
    } else {
        0u64
    }
}

/// Renaming a path and then renaming it back leaves the path map as it
/// was, whenever the first rename is allowed: the source exists and the
/// destination does not (or is the source itself).
pub proof fn lemma_rename_roundtrip(m: Map<Seq<u8>, InodeKey>, from: Seq<u8>, to: Seq<u8>)
    requires
        m.dom().contains(from),
        to == from || !m.dom().contains(to),
    ensures
        rename_map(rename_map(m, from, to), to, from) == m,
{
    assert(rename_map(rename_map(m, from, to), to, from) =~= m);
}

/// Hard-linking `a` to `b` and then unlinking `a` leaves the inode
/// reachable via `b`, with its content unchanged. The three states are the
/// store before, after the link, and after the unlink, as the two
/// operations' contracts describe them.
pub proof fn lemma_link_unlink_keeps_entry(
    fs0: &Filesystem,
    fs1: &Filesystem,
    fs2: &Filesystem,
    a: Seq<u8>,
    b: Seq<u8>,
)
    requires
        a != b,
        fs0.path_map().dom().contains(a),
        fs1.path_map() == fs0.path_map().insert(b, fs0.path_map()[a]),
        fs1.entry_map() == fs0.entry_map().insert(b, fs0.entry_map()[a]),
        fs2.path_map() == fs1.path_map().remove(a),
        fs2.entry_map() == fs1.entry_map().remove(a),
    ensures
        fs2.path_map().dom().contains(b),
        fs2.path_map()[b] == fs0.path_map()[a],
        fs2.entry_map()[b] == fs0.entry_map()[a],
{
}

/// Both filesystems have an entry at `p`.
pub open spec fn shared_path(a: &Filesystem, b: &Filesystem, p: Seq<u8>) -> bool {
    a.paths.contains_spec(p) && b.paths.contains_spec(p)
}

/// The field mask on which the entries at one shared path agree.
pub open spec fn pair_cmp(a: &Filesystem, b: &Filesystem, p: Seq<u8>) -> cmp::Fields {
    a.entry_map()[p].cmp_spec(&b.entry_map()[p])
}

impl Filesystem {
    /// Every file in the store fits in memory, so entries can be compared
    /// byte-wise.
    pub open spec fn sizes_ok(&self) -> bool {
        forall|i: int| 0 <= i < self.inodes@.len() ==> (#[trigger] self.inodes@[i]).sizes_ok()
    }

    /// Whether the two stores list exactly the same paths.
    fn keys_eq(&self, other: &Filesystem) -> (r: bool)
        requires
            self.wf(),
            other.wf(),
        ensures
            r == (self.path_map().dom() == other.path_map().dom()),
    {
        let n = self.paths.len();
        if n != other.paths.len() {
            proof {
                self.lemma_dom_eq_iff_keys(other);
            }
            return false;
        }
        let mut i: usize = 0;
        while i < n
            invariant
                self.wf(),
                other.wf(),
                n == self.paths.seq().len() == other.paths.seq().len(),
                i <= n,
                forall|j: int|
                    0 <= j < i ==> (#[trigger] self.paths.seq()[j]).0@ == other.paths.seq()[j].0@,
            decreases n - i,
        {
            let (pa, _) = self.paths.idx(i);
            let (pb, _) = other.paths.idx(i);
            match crate::order::bytes_cmp(pa.as_slice(), pb.as_slice()) {
                crate::order::Rel::Same => {
                    i = i + 1;
                }
                _ => {
                    proof {
                        self.lemma_dom_eq_iff_keys(other);
                        assert(bmap::keys_of(self.paths.seq())[i as int]
                            != bmap::keys_of(other.paths.seq())[i as int]);
                    }
                    return false;
                }
            }
        }
        proof {
            assert(bmap::keys_of(self.paths.seq()) =~= bmap::keys_of(other.paths.seq()));
            self.lemma_dom_eq_iff_keys(other);
        }
        true
    }

    /// The path sets agree exactly when the sorted key lists agree.
    proof fn lemma_dom_eq_iff_keys(&self, other: &Filesystem)
        requires
            self.wf(),
            other.wf(),
        ensures
            (self.path_map().dom() == other.path_map().dom()) == (bmap::keys_of(self.paths.seq())
                == bmap::keys_of(other.paths.seq())),
    {
        if self.path_map().dom() == other.path_map().dom() {
            assert forall|k: Seq<u8>|
                bmap::has_key(self.paths.seq(), k) <==> bmap::has_key(
                    other.paths.seq(),
                    k,
                ) by {
                if bmap::has_key(self.paths.seq(), k) {
                    let i = choose|i: int|
                        0 <= i < self.paths.seq().len() && (#[trigger] self.paths.seq()[i]).0@
                            == k;
                    self.paths.lemma_get_at(i);
                    assert(self.path_map().dom().contains(k));
                    assert(other.path_map().dom().contains(k));
                    other.paths.lemma_get_index(k);
                }
                if bmap::has_key(other.paths.seq(), k) {
                    let i = choose|i: int|
                        0 <= i < other.paths.seq().len() && (#[trigger] other.paths.seq()[i]).0@
                            == k;
                    other.paths.lemma_get_at(i);
                    assert(other.path_map().dom().contains(k));
                    assert(self.path_map().dom().contains(k));
                    self.paths.lemma_get_index(k);
                }
            }
            bmap::lemma_sorted_keys_canonical(self.paths.seq(), other.paths.seq());
        }
        if bmap::keys_of(self.paths.seq()) == bmap::keys_of(other.paths.seq()) {
            assert(bmap::keys_of(self.paths.seq()).len() == self.paths.seq().len());
            assert(bmap::keys_of(other.paths.seq()).len() == other.paths.seq().len());
            assert(self.paths.seq().len() == other.paths.seq().len());
            assert forall|k: Seq<u8>|
                self.path_map().dom().contains(k) <==> other.path_map().dom().contains(k) by {
                if self.paths.contains_spec(k) {
                    self.paths.lemma_get_index(k);
                    let i = choose|i: int|
                        0 <= i < self.paths.seq().len() && (#[trigger] self.paths.seq()[i]).0@
                            == k;
                    assert(bmap::keys_of(self.paths.seq())[i] == self.paths.seq()[i].0@);
                    assert(bmap::keys_of(other.paths.seq())[i] == other.paths.seq()[i].0@);
                    assert(other.paths.seq()[i].0@ == k);
                    other.paths.lemma_get_at(i);
                }
                if other.paths.contains_spec(k) {
                    other.paths.lemma_get_index(k);
                    let i = choose|i: int|
                        0 <= i < other.paths.seq().len() && (#[trigger] other.paths.seq()[i]).0@
                            == k;
                    assert(bmap::keys_of(other.paths.seq())[i] == other.paths.seq()[i].0@);
                    assert(bmap::keys_of(self.paths.seq())[i] == self.paths.seq()[i].0@);
                    assert(self.paths.seq()[i].0@ == k);
                    self.paths.lemma_get_at(i);
                }
            }
            assert(self.path_map().dom() =~= other.path_map().dom());
        }
    }

    /// A conjunct over every position of the path list is the conjunct over
    /// all shared paths.
    proof fn lemma_field_lift(&self, other: &Filesystem, sel: spec_fn(cmp::Fields) -> bool)
        requires
            self.wf(),
            other.wf(),
        ensures
            (forall|j: int|
                0 <= j < self.paths.seq().len() && other.paths.contains_spec(
                    (#[trigger] self.paths.seq()[j]).0@,
                ) ==> sel(pair_cmp(self, other, self.paths.seq()[j].0@))) == (forall|p: Seq<u8>|
                #[trigger] shared_path(self, other, p) ==> sel(pair_cmp(self, other, p))),
    {
        let n = self.paths.seq().len();
        if forall|j: int|
            0 <= j < n && other.paths.contains_spec((#[trigger] self.paths.seq()[j]).0@) ==> sel(
                pair_cmp(self, other, self.paths.seq()[j].0@),
            ) {
            assert forall|p: Seq<u8>| #[trigger] shared_path(self, other, p) implies sel(
                pair_cmp(self, other, p),
            ) by {
                self.paths.lemma_get_index(p);
                let j = choose|j: int|
                    0 <= j < self.paths.seq().len() && (#[trigger] self.paths.seq()[j]).0@ == p;
                assert(other.paths.contains_spec(self.paths.seq()[j].0@));
                assert(sel(pair_cmp(self, other, self.paths.seq()[j].0@)));
            }
        } else {
            assert(exists|j: int|
                0 <= j < n && other.paths.contains_spec((#[trigger] self.paths.seq()[j]).0@)
                    && !sel(pair_cmp(self, other, self.paths.seq()[j].0@)));
            let j = choose|j: int|
                0 <= j < n && other.paths.contains_spec((#[trigger] self.paths.seq()[j]).0@)
                    && !sel(pair_cmp(self, other, self.paths.seq()[j].0@));
            self.paths.lemma_get_at(j);
            assert(shared_path(self, other, self.paths.seq()[j].0@));
        }
    }
}

impl cmp::ApproxEq for Filesystem {
    open spec fn cmp_req(&self, other: &Self) -> bool {
        self.wf() && other.wf() && self.sizes_ok() && other.sizes_ok()
    }

    open spec fn cmp_spec(&self, other: &Self) -> cmp::Fields {
        cmp::Fields {
            path: self.path_map().dom() == other.path_map().dom(),
            entry_type: forall|p: Seq<u8>|
                #[trigger] shared_path(self, other, p) ==> pair_cmp(self, other, p).entry_type,
            data: forall|p: Seq<u8>|
                #[trigger] shared_path(self, other, p) ==> pair_cmp(self, other, p).data,
            extents: forall|p: Seq<u8>|
                #[trigger] shared_path(self, other, p) ==> pair_cmp(self, other, p).extents,
            time: forall|p: Seq<u8>|
                #[trigger] shared_path(self, other, p) ==> pair_cmp(self, other, p).time,
            xattr: forall|p: Seq<u8>|
                #[trigger] shared_path(self, other, p) ==> pair_cmp(self, other, p).xattr,
            mode: forall|p: Seq<u8>|
                #[trigger] shared_path(self, other, p) ==> pair_cmp(self, other, p).mode,
            owner: forall|p: Seq<u8>|
                #[trigger] shared_path(self, other, p) ==> pair_cmp(self, other, p).owner,
            rdev: forall|p: Seq<u8>|
                #[trigger] shared_path(self, other, p) ==> pair_cmp(self, other, p).rdev,
        }
    }

    #[verifier::rlimit(100)]
    #[verifier::spinoff_prover]
    fn cmp(&self, other: &Self) -> (r: cmp::Fields) {
        let path_bit = self.keys_eq(other);
        let n = self.paths.len();
        let mut et = true;
        let mut da = true;
        let mut ex = true;
        let mut ti = true;
        let mut xa = true;
        let mut mo = true;
        let mut ow = true;
        let mut rd = true;
        let mut i: usize = 0;
        while i < n
            invariant
                self.wf(),
                other.wf(),
                self.sizes_ok(),
                other.sizes_ok(),
                n == self.paths.seq().len(),
                i <= n,
                et == (forall|j: int|
                    0 <= j < i && other.paths.contains_spec(
                        (#[trigger] self.paths.seq()[j]).0@,
                    ) ==> pair_cmp(self, other, self.paths.seq()[j].0@).entry_type),
                da == (forall|j: int|
                    0 <= j < i && other.paths.contains_spec(
                        (#[trigger] self.paths.seq()[j]).0@,
                    ) ==> pair_cmp(self, other, self.paths.seq()[j].0@).data),
                ex == (forall|j: int|
                    0 <= j < i && other.paths.contains_spec(
                        (#[trigger] self.paths.seq()[j]).0@,
                    ) ==> pair_cmp(self, other, self.paths.seq()[j].0@).extents),
                ti == (forall|j: int|
                    0 <= j < i && other.paths.contains_spec(
                        (#[trigger] self.paths.seq()[j]).0@,
                    ) ==> pair_cmp(self, other, self.paths.seq()[j].0@).time),
                xa == (forall|j: int|
                    0 <= j < i && other.paths.contains_spec(
                        (#[trigger] self.paths.seq()[j]).0@,
                    ) ==> pair_cmp(self, other, self.paths.seq()[j].0@).xattr),
                mo == (forall|j: int|
                    0 <= j < i && other.paths.contains_spec(
                        (#[trigger] self.paths.seq()[j]).0@,
                    ) ==> pair_cmp(self, other, self.paths.seq()[j].0@).mode),
                ow == (forall|j: int|
                    0 <= j < i && other.paths.contains_spec(
                        (#[trigger] self.paths.seq()[j]).0@,
                    ) ==> pair_cmp(self, other, self.paths.seq()[j].0@).owner),
                rd == (forall|j: int|
                    0 <= j < i && other.paths.contains_spec(
                        (#[trigger] self.paths.seq()[j]).0@,
                    ) ==> pair_cmp(self, other, self.paths.seq()[j].0@).rdev),
            decreases n - i,
        {
            let (p, ea) = self.entry_at(i);
            match other.paths.get(p.as_slice()) {
                Some(key) => {
                    proof {
                        self.paths.lemma_get_at(i as int);
                        self.lemma_path_values();
                        other.paths.lemma_get_index(p@);
                        assert(self.paths.get_spec(p@)->Some_0.0 < self.inodes@.len());
                        assert(self.entry_map()[p@] == self.inodes@[self.paths.get_spec(
                            p@,
                        )->Some_0.0 as int]);
                        assert(self.entry_map()[p@].wf());
                        assert(self.entry_map()[p@].sizes_ok());
                        assert(key.0 < other.inodes@.len());
                        assert(other.entry_map()[p@] == other.inodes@[key.0 as int]);
                        assert(other.entry_map()[p@].wf());
                        assert(other.entry_map()[p@].sizes_ok());
                    }
                    let eb = &other.inodes[key.0];
                    let c = cmp::ApproxEq::cmp(ea, eb);
                    et = et && c.entry_type;
                    da = da && c.data;
                    ex = ex && c.extents;
                    ti = ti && c.time;
                    xa = xa && c.xattr;
                    mo = mo && c.mode;
                    ow = ow && c.owner;
                    rd = rd && c.rdev;
                }
                None => {
                }
            }
            i = i + 1;
        }
        proof {
            self.lemma_field_lift(other, |f: cmp::Fields| f.entry_type);
            self.lemma_field_lift(other, |f: cmp::Fields| f.data);
            self.lemma_field_lift(other, |f: cmp::Fields| f.extents);
            self.lemma_field_lift(other, |f: cmp::Fields| f.time);
            self.lemma_field_lift(other, |f: cmp::Fields| f.xattr);
            self.lemma_field_lift(other, |f: cmp::Fields| f.mode);
            self.lemma_field_lift(other, |f: cmp::Fields| f.owner);
            self.lemma_field_lift(other, |f: cmp::Fields| f.rdev);
        }
        cmp::Fields {
            path: path_bit,
            entry_type: et,
            data: da,
            extents: ex,
            time: ti,
            xattr: xa,
            mode: mo,
            owner: ow,
            rdev: rd,
        }
    }
}

/// One field of the comparison is symmetric in its two sides.
proof fn lemma_comm_field(a: &Filesystem, b: &Filesystem, sel: spec_fn(cmp::Fields) -> bool)
    ensures
        (forall|p: Seq<u8>| #[trigger] shared_path(a, b, p) ==> sel(pair_cmp(a, b, p))) == (
        forall|p: Seq<u8>| #[trigger] shared_path(b, a, p) ==> sel(pair_cmp(b, a, p))),
{
    if forall|p: Seq<u8>| #[trigger] shared_path(a, b, p) ==> sel(pair_cmp(a, b, p)) {
        assert forall|p: Seq<u8>| #[trigger] shared_path(b, a, p) implies sel(
            pair_cmp(b, a, p),
        ) by {
            assert(shared_path(a, b, p));
            entry::lemma_entry_cmp_comm(&a.entry_map()[p], &b.entry_map()[p]);
        }
    }
    if forall|p: Seq<u8>| #[trigger] shared_path(b, a, p) ==> sel(pair_cmp(b, a, p)) {
        assert forall|p: Seq<u8>| #[trigger] shared_path(a, b, p) implies sel(
            pair_cmp(a, b, p),
        ) by {
            assert(shared_path(b, a, p));
            entry::lemma_entry_cmp_comm(&a.entry_map()[p], &b.entry_map()[p]);
        }
    }
}

/// Comparing two filesystems is commutative: the mask does not depend on
/// the order of the arguments.
pub proof fn lemma_cmp_commutative(a: &Filesystem, b: &Filesystem)
    ensures
        a.cmp_spec(b) == b.cmp_spec(a),
{
    lemma_comm_field(a, b, |f: cmp::Fields| f.entry_type);
    lemma_comm_field(a, b, |f: cmp::Fields| f.data);
    lemma_comm_field(a, b, |f: cmp::Fields| f.extents);
    lemma_comm_field(a, b, |f: cmp::Fields| f.time);
    lemma_comm_field(a, b, |f: cmp::Fields| f.xattr);
    lemma_comm_field(a, b, |f: cmp::Fields| f.mode);
    lemma_comm_field(a, b, |f: cmp::Fields| f.owner);
    lemma_comm_field(a, b, |f: cmp::Fields| f.rdev);
    assert((a.path_map().dom() == b.path_map().dom()) == (b.path_map().dom()
        == a.path_map().dom()));
}

/// A filesystem agrees with itself on every field.
pub proof fn lemma_cmp_self(a: &Filesystem)
    ensures
        a.cmp_spec(a) == cmp::Fields::all_spec(),
{
    assert forall|p: Seq<u8>| #[trigger] shared_path(a, a, p) implies pair_cmp(a, a, p)
        == cmp::Fields::all_spec() by {
        entry::lemma_entry_cmp_refl(&a.entry_map()[p]);
    }
}

/// Two filesystems agree on every field exactly when they hold the same
/// tree, inode numbering aside.
pub proof fn lemma_cmp_all_iff_eq(a: &Filesystem, b: &Filesystem)
    ensures
        (a.cmp_spec(b) == cmp::Fields::all_spec()) <==> a.eq_spec(b),
{
    if a.cmp_spec(b) == cmp::Fields::all_spec() {
        assert forall|p: Seq<u8>| #[trigger] a.path_map().dom().contains(
            p,
        ) implies a.entry_map()[p].eq_spec(&b.entry_map()[p]) by {
            assert(b.path_map().dom().contains(p));
            assert(shared_path(a, b, p));
            assert(pair_cmp(a, b, p).entry_type && pair_cmp(a, b, p).data && pair_cmp(
                a,
                b,
                p,
            ).extents && pair_cmp(a, b, p).time && pair_cmp(a, b, p).xattr && pair_cmp(
                a,
                b,
                p,
            ).mode && pair_cmp(a, b, p).owner && pair_cmp(a, b, p).rdev);
            entry::lemma_entry_cmp_all_iff_eq(&a.entry_map()[p], &b.entry_map()[p]);
            assert(pair_cmp(a, b, p).path);
            assert(pair_cmp(a, b, p) == cmp::Fields::all_spec());
        }
    }
    if a.eq_spec(b) {
        assert forall|p: Seq<u8>| #[trigger] shared_path(a, b, p) implies pair_cmp(a, b, p)
            == cmp::Fields::all_spec() by {
            assert(a.path_map().dom().contains(p));
            entry::lemma_entry_cmp_all_iff_eq(&a.entry_map()[p], &b.entry_map()[p]);
        }
        assert(a.cmp_spec(b) == cmp::Fields::all_spec());
    }
}

impl Filesystem {
    /// Whether the two stores hold the same tree, inode numbering aside.
    pub fn equals(&self, other: &Filesystem) -> (r: bool)
        requires
            self.wf(),
            other.wf(),
            self.sizes_ok(),
            other.sizes_ok(),
        ensures
            r == self.eq_spec(other),
    {
        let c = cmp::ApproxEq::cmp(self, other);
        proof {
            lemma_cmp_all_iff_eq(self, other);
        }
        c.is_all()
    }
}

/// Sizes stay in range when one entry of the arena is replaced by an entry
/// whose own size is in range.
pub proof fn lemma_sizes_update(prev: &Filesystem, cur: &Filesystem, k: int)
    requires
        prev.sizes_ok(),
        0 <= k < prev.inodes@.len(),
        cur.inodes@ == prev.inodes@.update(k, cur.inodes@[k]),
        cur.inodes@[k].sizes_ok(),
    ensures
        cur.sizes_ok(),
{
    assert forall|i: int| 0 <= i < cur.inodes@.len() implies (
    #[trigger] cur.inodes@[i]).sizes_ok() by {
        if i != k {
            assert(cur.inodes@[i] == prev.inodes@[i]);
            assert(prev.inodes@[i].sizes_ok());
        }
    }
}

/// Sizes stay in range when an entry whose size is in range joins the
/// arena.
pub proof fn lemma_sizes_push(prev: &Filesystem, cur: &Filesystem, e: entry::Entry)
    requires
        prev.sizes_ok(),
        cur.inodes@ == prev.inodes@.push(e),
        e.sizes_ok(),
    ensures
        cur.sizes_ok(),
{
    assert forall|i: int| 0 <= i < cur.inodes@.len() implies (
    #[trigger] cur.inodes@[i]).sizes_ok() by {
        if i < prev.inodes@.len() {
            assert(cur.inodes@[i] == prev.inodes@[i]);
            assert(prev.inodes@[i].sizes_ok());
        } else {
            assert(cur.inodes@[i] == e);
        }
    }
}

} // verus!
