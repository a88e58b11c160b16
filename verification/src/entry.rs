//! Directory entries and their metadata: owner, mode, xattrs and times.

use vstd::prelude::*;

use crate::bmap::BMap;
use crate::cmp::ApproxEq;
use crate::cmp::Fields;
use crate::file::File;
use crate::path::clone_bytes;
use crate::path::BytesPath;

verus! {

/// A user id.
#[derive(Clone, Copy, PartialEq, Eq, Structural, Debug, Hash, PartialOrd, Ord)]
pub struct Uid(pub u32);

impl Uid {
    pub fn from_raw(id: u32) -> (r: Uid)
        ensures
            r.0 == id,
    {
        Uid(id)
    }

    pub fn as_u32(&self) -> (r: u32)
        ensures
            r == self.0,
    {
        self.0
    }
}

/// A group id.
#[derive(Clone, Copy, PartialEq, Eq, Structural, Debug, Hash, PartialOrd, Ord)]
pub struct Gid(pub u32);

impl Gid {
    pub fn from_raw(id: u32) -> (r: Gid)
        ensures
            r.0 == id,
    {
        Gid(id)
    }

    pub fn as_u32(&self) -> (r: u32)
        ensures
            r == self.0,
    {
        self.0
    }
}

/// A point in time: seconds and nanoseconds since the epoch.
#[derive(Clone, Copy, PartialEq, Eq, Structural, Debug, Hash, PartialOrd, Ord)]
pub struct Time {
    pub secs: u64,
    pub nanos: u32,
}

impl Time {
    /// The epoch itself.
    pub fn epoch() -> (r: Time)
        ensures
            r == (Time { secs: 0, nanos: 0 }),
    {
        Time { secs: 0, nanos: 0 }
    }

    pub fn new(secs: u64, nanos: u32) -> (r: Time)
        ensures
            r == (Time { secs, nanos }),
    {
        Time { secs, nanos }
    }
}

/// The xattr table of an entry, as the sequence of name/value pairs in name
/// order. Two tables hold the same xattrs exactly when these sequences are
/// equal, because the tables are kept sorted and duplicate-free.
pub open spec fn xattrs_canon(x: &BMap<Vec<u8>>) -> Seq<(Seq<u8>, Seq<u8>)> {
    x.seq().map_values(|p: (Vec<u8>, Vec<u8>)| (p.0@, p.1@))
}

/// Compare two xattr tables by contents.
pub fn xattrs_eq(a: &BMap<Vec<u8>>, b: &BMap<Vec<u8>>) -> (r: bool)
    ensures
        r == (xattrs_canon(a) == xattrs_canon(b)),
{
    let n = a.len();
    if n != b.len() {
        proof {
            assert(xattrs_canon(a).len() != xattrs_canon(b).len());
        }
        return false;
    }
    let mut i: usize = 0;
    while i < n
        invariant
            n == a.seq().len() == b.seq().len(),
            i <= n,
            forall|j: int| 0 <= j < i ==> xattrs_canon(a)[j] == xattrs_canon(b)[j],
        decreases n - i,
    {
        let (ka, va) = a.idx(i);
        let (kb, vb) = b.idx(i);
        if !(ka == kb) {
            proof {
                assert(xattrs_canon(a)[i as int].0 == a.seq()[i as int].0@);
                assert(xattrs_canon(b)[i as int].0 == b.seq()[i as int].0@);
            }
            return false;
        }
        if !(va == vb) {
            proof {
                assert(xattrs_canon(a)[i as int].1 == a.seq()[i as int].1@);
                assert(xattrs_canon(b)[i as int].1 == b.seq()[i as int].1@);
            }
            return false;
        }
        proof {
            assert(ka@ =~= kb@);
            assert(va@ =~= vb@);
            assert(xattrs_canon(a)[i as int] == xattrs_canon(b)[i as int]);
        }
        i = i + 1;
    }
    proof {
        assert(xattrs_canon(a) =~= xattrs_canon(b));
    }
    true
}

/// Deep-copy an xattr table; the copy holds equal names and values.
pub fn xattrs_dup(x: &BMap<Vec<u8>>) -> (r: BMap<Vec<u8>>)
    ensures
        r.seq().len() == x.seq().len(),
        forall|i: int|
            0 <= i < x.seq().len() ==> #[trigger] r.seq()[i].0@ == x.seq()[i].0@
                && r.seq()[i].1@ == x.seq()[i].1@,
        xattrs_canon(&r) == xattrs_canon(x),
        x.wf() ==> r.wf(),
{
    let n = x.len();
    let mut out: Vec<(Vec<u8>, Vec<u8>)> = Vec::new();
    let mut i: usize = 0;
    while i < n
        invariant
            n == x.seq().len(),
            i <= n,
            out@.len() == i,
            forall|j: int|
                0 <= j < i ==> #[trigger] out@[j].0@ == x.seq()[j].0@ && out@[j].1@
                    == x.seq()[j].1@,
        decreases n - i,
    {
        let (k, v) = x.idx(i);
        out.push((clone_bytes(k), clone_bytes(v)));
        i = i + 1;
    }
    let r = BMap { entries: out };
    proof {
        assert(xattrs_canon(&r) =~= xattrs_canon(x));
    }
    r
}

/// Metadata attributes common to every kind of entry.
pub struct Metadata {
    pub mode: u32,
    pub uid: Uid,
    pub gid: Gid,
    pub xattrs: BMap<Vec<u8>>,
    pub created: Time,
    pub accessed: Time,
    pub modified: Time,
}

impl Metadata {
    /// The xattr table is well formed.
    pub open spec fn wf(&self) -> bool {
        self.xattrs.wf()
    }

    /// The default metadata: mode `0o444`, root ownership, no xattrs, times
    /// at the epoch.
    pub open spec fn default_shape(m: &Metadata) -> bool {
        m.mode == 0o444u32 && m.uid.0 == 0 && m.gid.0 == 0 && m.xattrs.seq().len() == 0
            && m.created == (Time { secs: 0, nanos: 0 }) && m.accessed == (Time {
            secs: 0,
            nanos: 0,
        }) && m.modified == (Time { secs: 0, nanos: 0 })
    }

    /// Metadata fields agree with `other` on everything except possibly the
    /// xattr table, which agrees by contents.
    pub open spec fn eq_spec(&self, other: &Metadata) -> bool {
        self.mode == other.mode && self.uid == other.uid && self.gid == other.gid
            && xattrs_canon(&self.xattrs) == xattrs_canon(&other.xattrs) && self.created
            == other.created && self.accessed == other.accessed && self.modified == other.modified
    }

    /// The field mask on which two metadata records agree.
    pub open spec fn cmp_field_spec(&self, other: &Metadata) -> Fields {
        Fields {
            path: true,
            entry_type: true,
            data: true,
            extents: true,
            rdev: true,
            mode: self.mode == other.mode,
            owner: self.uid == other.uid && self.gid == other.gid,
            xattr: xattrs_canon(&self.xattrs) == xattrs_canon(&other.xattrs),
            time: self.created == other.created && self.accessed == other.accessed
                && self.modified == other.modified,
        }
    }

    pub fn builder() -> (r: MetadataBuilder)
        ensures
            Metadata::default_shape(&r.m),
            r.m.wf(),
    {
        MetadataBuilder { m: Metadata::new_default() }
    }

    fn new_default() -> (r: Metadata)
        ensures
            Metadata::default_shape(&r),
            r.wf(),
    {
        Metadata {
            mode: 0o444,
            uid: Uid(0),
            gid: Gid(0),
            xattrs: BMap::new(),
            created: Time::epoch(),
            accessed: Time::epoch(),
            modified: Time::epoch(),
        }
    }

    pub fn chown(&mut self, uid: Uid, gid: Gid)
        ensures
            *final(self) == (Metadata { uid, gid, ..*old(self) }),
    {
        self.uid = uid;
        self.gid = gid;
    }

    pub fn chmod(&mut self, mode: u32)
        ensures
            *final(self) == (Metadata { mode, ..*old(self) }),
    {
        self.mode = mode;
    }

    pub fn set_times(&mut self, created: Time, accessed: Time, modified: Time)
        ensures
            *final(self) == (Metadata { created, accessed, modified, ..*old(self) }),
    {
        self.created = created;
        self.accessed = accessed;
        self.modified = modified;
    }

    /// A deep copy whose fields agree with `self`.
    pub fn dup(&self) -> (r: Metadata)
        ensures
            r.eq_spec(self),
            self.wf() ==> r.wf(),
            r.mode == self.mode && r.uid == self.uid && r.gid == self.gid,
            r.created == self.created && r.accessed == self.accessed && r.modified
                == self.modified,
    {
        Metadata {
            mode: self.mode,
            uid: self.uid,
            gid: self.gid,
            xattrs: xattrs_dup(&self.xattrs),
            created: self.created,
            accessed: self.accessed,
            modified: self.modified,
        }
    }
}

impl Default for Metadata {
    fn default() -> (r: Metadata)
        ensures
            Metadata::default_shape(&r),
            r.wf(),
    {
        Metadata::new_default()
    }
}

impl ApproxEq for Metadata {
    open spec fn cmp_req(&self, other: &Self) -> bool {
        true
    }

    open spec fn cmp_spec(&self, other: &Self) -> Fields {
        self.cmp_field_spec(other)
    }

    fn cmp(&self, other: &Self) -> (r: Fields) {
        Fields {
            path: true,
            entry_type: true,
            data: true,
            extents: true,
            rdev: true,
            mode: self.mode == other.mode,
            owner: self.uid == other.uid && self.gid == other.gid,
            xattr: xattrs_eq(&self.xattrs, &other.xattrs),
            time: self.created == other.created && self.accessed == other.accessed
                && self.modified == other.modified,
        }
    }
}

/// Builds a [`Metadata`], starting from the default values.
pub struct MetadataBuilder {
    pub m: Metadata,
}

impl MetadataBuilder {
    pub fn mode(self, mode: u32) -> (r: Self)
        ensures
            r.m == (Metadata { mode, ..self.m }),
    {
        let mut m = self.m;
        m.mode = mode;
        MetadataBuilder { m }
    }

    pub fn uid(self, uid: Uid) -> (r: Self)
        ensures
            r.m == (Metadata { uid, ..self.m }),
    {
        let mut m = self.m;
        m.uid = uid;
        MetadataBuilder { m }
    }

    pub fn gid(self, gid: Gid) -> (r: Self)
        ensures
            r.m == (Metadata { gid, ..self.m }),
    {
        let mut m = self.m;
        m.gid = gid;
        MetadataBuilder { m }
    }

    pub fn created(self, t: Time) -> (r: Self)
        ensures
            r.m == (Metadata { created: t, ..self.m }),
    {
        let mut m = self.m;
        m.created = t;
        MetadataBuilder { m }
    }

    pub fn accessed(self, t: Time) -> (r: Self)
        ensures
            r.m == (Metadata { accessed: t, ..self.m }),
    {
        let mut m = self.m;
        m.accessed = t;
        MetadataBuilder { m }
    }

    pub fn modified(self, t: Time) -> (r: Self)
        ensures
            r.m == (Metadata { modified: t, ..self.m }),
    {
        let mut m = self.m;
        m.modified = t;
        MetadataBuilder { m }
    }

    /// Add a single xattr.
    pub fn xattr(self, name: Vec<u8>, value: Vec<u8>) -> (r: Self)
        requires
            self.m.wf(),
        ensures
            r.m.wf(),
            r.m.xattrs.as_map() == self.m.xattrs.as_map().insert(name@, value),
            r.m == (Metadata { xattrs: r.m.xattrs, ..self.m }),
    {
        let mut m = self.m;
        m.xattrs.insert(name, value);
        MetadataBuilder { m }
    }

    /// Replace the whole xattr table.
    pub fn xattrs(self, xattrs: BMap<Vec<u8>>) -> (r: Self)
        ensures
            r.m == (Metadata { xattrs, ..self.m }),
    {
        let mut m = self.m;
        m.xattrs = xattrs;
        MetadataBuilder { m }
    }

    pub fn build(self) -> (r: Metadata)
        ensures
            r == self.m,
    {
        self.m
    }
}

/// A directory entry.
pub struct Directory {
    pub metadata: Metadata,
}

impl Directory {
    pub fn builder() -> (r: DirectoryBuilder)
        ensures
            Metadata::default_shape(&r.d.metadata),
            r.d.metadata.wf(),
    {
        DirectoryBuilder { d: Directory { metadata: Metadata::new_default() } }
    }

    pub fn new_default() -> (r: Directory)
        ensures
            Metadata::default_shape(&r.metadata),
            r.metadata.wf(),
    {
        Directory { metadata: Metadata::new_default() }
    }

    pub fn dup(&self) -> (r: Directory)
        ensures
            r.metadata.eq_spec(&self.metadata),
            self.metadata.wf() ==> r.metadata.wf(),
    {
        Directory { metadata: self.metadata.dup() }
    }
}

/// Builds a [`Directory`].
pub struct DirectoryBuilder {
    pub d: Directory,
}

impl DirectoryBuilder {
    pub fn metadata(self, m: Metadata) -> (r: Self)
        ensures
            r.d.metadata == m,
    {
        DirectoryBuilder { d: Directory { metadata: m } }
    }

    pub fn build(self) -> (r: Directory)
        ensures
            r == self.d,
    {
        self.d
    }
}

/// A special file: device node, socket or fifo. The file type carries the
/// format bits of the mode word; `rdev` the device number.
pub struct Special {
    pub file_type: u32,
    pub rdev: u64,
    pub metadata: Metadata,
}

impl Special {
    pub fn new(file_type: u32, rdev: u64, metadata: Metadata) -> (r: Special)
        ensures
            r.file_type == file_type,
            r.rdev == rdev,
            r.metadata == metadata,
    {
        Special { file_type, rdev, metadata }
    }

    pub fn file_type(&self) -> (r: u32)
        ensures
            r == self.file_type,
    {
        self.file_type
    }

    pub fn metadata(&self) -> (r: &Metadata)
        ensures
            *r == self.metadata,
    {
        &self.metadata
    }

    pub fn dup(&self) -> (r: Special)
        ensures
            r.file_type == self.file_type,
            r.rdev == self.rdev,
            r.metadata.eq_spec(&self.metadata),
            self.metadata.wf() ==> r.metadata.wf(),
    {
        Special { file_type: self.file_type, rdev: self.rdev, metadata: self.metadata.dup() }
    }
}

/// A symbolic link to a target path.
pub struct Symlink {
    pub target: BytesPath,
    pub metadata: Metadata,
}

impl Symlink {
    /// A symlink to `target`. Without explicit metadata it gets the default
    /// set, except that a symlink's mode is `0o777`.
    pub fn new(target: BytesPath, metadata: Option<Metadata>) -> (r: Symlink)
        ensures
            r.target@ == target@,
            match metadata {
                Some(m) => r.metadata == m,
                None => r.metadata == (Metadata { mode: 0o777u32, ..r.metadata })
                    && Metadata::default_shape(&Metadata { mode: 0o444u32, ..r.metadata })
                    && r.metadata.wf(),
            },
    {
        match metadata {
            Some(m) => Symlink { target, metadata: m },
            None => {
                let mut m = Metadata::new_default();
                m.mode = 0o777;
                Symlink { target, metadata: m }
            }
        }
    }

    pub fn target(&self) -> (r: &BytesPath)
        ensures
            *r == self.target,
    {
        &self.target
    }

    pub fn metadata(&self) -> (r: &Metadata)
        ensures
            *r == self.metadata,
    {
        &self.metadata
    }

    pub fn dup(&self) -> (r: Symlink)
        ensures
            r.target@ == self.target@,
            r.metadata.eq_spec(&self.metadata),
            self.metadata.wf() ==> r.metadata.wf(),
    {
        Symlink { target: self.target.clone(), metadata: self.metadata.dup() }
    }
}

/// A single directory entry in the filesystem.
pub enum Entry {
    Directory(Directory),
    /// A regular file.
    File(File),
    Special(Special),
    Symlink(Symlink),
}

/// The entry with its metadata replaced.
pub open spec fn with_md(e: Entry, m: Metadata) -> Entry {
    match e {
        Entry::Directory(d) => Entry::Directory(Directory { metadata: m }),
        Entry::File(f) => Entry::File(File { extents: f.extents, metadata: m }),
        Entry::Special(sp) => Entry::Special(Special { metadata: m, ..sp }),
        Entry::Symlink(l) => Entry::Symlink(Symlink { metadata: m, ..l }),
    }
}

impl Entry {
    /// The metadata of the entry, whatever its kind.
    pub open spec fn metadata_spec(&self) -> Metadata {
        match self {
            Entry::Directory(d) => d.metadata,
            Entry::File(f) => f.metadata,
            Entry::Special(sp) => sp.metadata,
            Entry::Symlink(l) => l.metadata,
        }
    }

    /// Metadata well formed; a file's extent table well formed too.
    pub open spec fn wf(&self) -> bool {
        &&& self.metadata_spec().wf()
        &&& match self {
            Entry::File(f) => f.wf(),
            _ => true,
        }
    }

    /// Entries hold the same content: same kind, agreeing metadata, and the
    /// same kind-specific payload.
    pub open spec fn eq_spec(&self, other: &Entry) -> bool {
        match (self, other) {
            (Entry::Directory(a), Entry::Directory(b)) => a.metadata.eq_spec(&b.metadata),
            (Entry::File(a), Entry::File(b)) => a.eq_spec(b),
            (Entry::Special(a), Entry::Special(b)) => a.file_type == b.file_type && a.rdev
                == b.rdev && a.metadata.eq_spec(&b.metadata),
            (Entry::Symlink(a), Entry::Symlink(b)) => a.target@ == b.target@ && a.metadata.eq_spec(
                &b.metadata,
            ),
            _ => false,
        }
    }

    pub fn is_directory(&self) -> (r: bool)
        ensures
            r == (self is Directory),
    {
        match self {
            Entry::Directory(_) => true,
            _ => false,
        }
    }

    pub fn is_file(&self) -> (r: bool)
        ensures
            r == (self is File),
    {
        match self {
            Entry::File(_) => true,
            _ => false,
        }
    }

    pub fn metadata(&self) -> (r: &Metadata)
        ensures
            *r == self.metadata_spec(),
    {
        match self {
            Entry::Directory(d) => &d.metadata,
            Entry::File(f) => &f.metadata,
            Entry::Special(sp) => &sp.metadata,
            Entry::Symlink(l) => &l.metadata,
        }
    }

    /// Mutable access to the metadata; everything else in the entry stays as
    /// it was.
    pub fn metadata_mut(&mut self) -> (r: &mut Metadata)
        ensures
            *r == old(self).metadata_spec(),
            *final(self) == with_md(*old(self), *final(r)),
    {
        match self {
            Entry::Directory(d) => &mut d.metadata,
            Entry::File(f) => &mut f.metadata,
            Entry::Special(sp) => &mut sp.metadata,
            Entry::Symlink(l) => &mut l.metadata,
        }
    }

    pub fn chown(&mut self, uid: Uid, gid: Gid)
        ensures
            *final(self) == with_md(
                *old(self),
                Metadata { uid, gid, ..old(self).metadata_spec() },
            ),
    {
        self.metadata_mut().chown(uid, gid);
    }

    pub fn chmod(&mut self, mode: u32)
        ensures
            *final(self) == with_md(*old(self), Metadata { mode, ..old(self).metadata_spec() }),
    {
        self.metadata_mut().chmod(mode);
    }

    pub fn set_times(&mut self, created: Time, accessed: Time, modified: Time)
        ensures
            *final(self) == with_md(
                *old(self),
                Metadata { created, accessed, modified, ..old(self).metadata_spec() },
            ),
    {
        self.metadata_mut().set_times(created, accessed, modified);
    }

    /// Set a single xattr.
    pub fn set_xattr(&mut self, name: Vec<u8>, value: Vec<u8>)
        requires
            old(self).wf(),
        ensures
            final(self).wf(),
            *final(self) == with_md(*old(self), final(self).metadata_spec()),
            final(self).metadata_spec() == (Metadata {
                xattrs: final(self).metadata_spec().xattrs,
                ..old(self).metadata_spec()
            }),
            final(self).metadata_spec().xattrs.as_map() == old(
                self,
            ).metadata_spec().xattrs.as_map().insert(name@, value),
    {
        let md = self.metadata_mut();
        md.xattrs.insert(name, value);
    }

    /// Remove a single xattr, returning its value if it was set.
    pub fn remove_xattr(&mut self, name: &[u8]) -> (r: Option<Vec<u8>>)
        requires
            old(self).wf(),
        ensures
            final(self).wf(),
            *final(self) == with_md(*old(self), final(self).metadata_spec()),
            final(self).metadata_spec() == (Metadata {
                xattrs: final(self).metadata_spec().xattrs,
                ..old(self).metadata_spec()
            }),
            final(self).metadata_spec().xattrs.as_map() == old(
                self,
            ).metadata_spec().xattrs.as_map().remove(name@),
            r == old(self).metadata_spec().xattrs.get_spec(name@),
    {
        let md = self.metadata_mut();
        md.xattrs.remove(name)
    }

    /// A deep copy holding equal content.
    pub fn dup(&self) -> (r: Entry)
        ensures
            r.eq_spec(self),
            self.wf() ==> r.wf(),
            r is Directory <==> self is Directory,
            r is File <==> self is File,
            r is Special <==> self is Special,
            r is Symlink <==> self is Symlink,
    {
        match self {
            Entry::Directory(d) => Entry::Directory(d.dup()),
            Entry::File(f) => Entry::File(f.dup()),
            Entry::Special(sp) => Entry::Special(sp.dup()),
            Entry::Symlink(l) => Entry::Symlink(l.dup()),
        }
    }
}

impl ApproxEq for Directory {
    open spec fn cmp_req(&self, other: &Self) -> bool {
        true
    }

    open spec fn cmp_spec(&self, other: &Self) -> Fields {
        self.metadata.cmp_field_spec(&other.metadata)
    }

    fn cmp(&self, other: &Self) -> (r: Fields) {
        ApproxEq::cmp(&self.metadata, &other.metadata)
    }
}

impl ApproxEq for Special {
    open spec fn cmp_req(&self, other: &Self) -> bool {
        true
    }

    open spec fn cmp_spec(&self, other: &Self) -> Fields {
        Fields {
            entry_type: self.file_type == other.file_type,
            rdev: self.rdev == other.rdev,
            ..self.metadata.cmp_field_spec(&other.metadata)
        }
    }

    fn cmp(&self, other: &Self) -> (r: Fields) {
        let md = ApproxEq::cmp(&self.metadata, &other.metadata);
        Fields {
            entry_type: self.file_type == other.file_type,
            rdev: self.rdev == other.rdev,
            ..md
        }
    }
}

impl ApproxEq for Symlink {
    open spec fn cmp_req(&self, other: &Self) -> bool {
        true
    }

    open spec fn cmp_spec(&self, other: &Self) -> Fields {
        Fields {
            data: self.target@ == other.target@,
            ..self.metadata.cmp_field_spec(&other.metadata)
        }
    }

    fn cmp(&self, other: &Self) -> (r: Fields) {
        let md = ApproxEq::cmp(&self.metadata, &other.metadata);
        let t_eq = crate::order::bytes_cmp(self.target.as_bytes(), other.target.as_bytes())
            == crate::order::Rel::Same;
        Fields { data: t_eq, ..md }
    }
}

impl ApproxEq for Entry {
    open spec fn cmp_req(&self, other: &Self) -> bool {
        match (self, other) {
            (Entry::File(a), Entry::File(b)) => a.cmp_req(b),
            _ => true,
        }
    }

    open spec fn cmp_spec(&self, other: &Self) -> Fields {
        match (self, other) {
            (Entry::Directory(a), Entry::Directory(b)) => a.cmp_spec(b),
            (Entry::File(a), Entry::File(b)) => a.cmp_spec(b),
            (Entry::Special(a), Entry::Special(b)) => a.cmp_spec(b),
            (Entry::Symlink(a), Entry::Symlink(b)) => a.cmp_spec(b),
            _ => Fields {
                entry_type: false,
                ..self.metadata_spec().cmp_field_spec(&other.metadata_spec())
            },
        }
    }

    fn cmp(&self, other: &Self) -> (r: Fields) {
        match (self, other) {
            (Entry::Directory(a), Entry::Directory(b)) => ApproxEq::cmp(a, b),
            (Entry::File(a), Entry::File(b)) => ApproxEq::cmp(a, b),
            (Entry::Special(a), Entry::Special(b)) => ApproxEq::cmp(a, b),
            (Entry::Symlink(a), Entry::Symlink(b)) => ApproxEq::cmp(a, b),
            _ => {
                let md = ApproxEq::cmp(self.metadata(), other.metadata());
                Fields { entry_type: false, ..md }
            }
        }
    }
}

impl Entry {
    /// What comparing or testing equality of two entries needs: files must
    /// fit in memory to be compared byte-wise.
    pub open spec fn sizes_ok(&self) -> bool {
        match self {
            Entry::File(f) => f.len_spec() <= usize::MAX,
            _ => true,
        }
    }

    /// Whether two entries hold the same content.
    pub fn content_eq(&self, other: &Entry) -> (r: bool)
        requires
            self.wf(),
            other.wf(),
        ensures
            r == self.eq_spec(other),
    {
        match (self, other) {
            (Entry::Directory(a), Entry::Directory(b)) => metadata_eq(&a.metadata, &b.metadata),
            (Entry::File(a), Entry::File(b)) => metadata_eq(&a.metadata, &b.metadata)
                && a.extents_eq(b),
            (Entry::Special(a), Entry::Special(b)) => a.file_type == b.file_type && a.rdev
                == b.rdev && metadata_eq(&a.metadata, &b.metadata),
            (Entry::Symlink(a), Entry::Symlink(b)) => {
                let t_eq = crate::order::bytes_cmp(a.target.as_bytes(), b.target.as_bytes())
                    == crate::order::Rel::Same;
                t_eq && metadata_eq(&a.metadata, &b.metadata)
            }
            _ => false,
        }
    }
}

/// Whether two metadata records agree on every field.
pub fn metadata_eq(a: &Metadata, b: &Metadata) -> (r: bool)
    ensures
        r == a.eq_spec(b),
{
    a.mode == b.mode && a.uid == b.uid && a.gid == b.gid && a.created == b.created && a.accessed
        == b.accessed && a.modified == b.modified && xattrs_eq(&a.xattrs, &b.xattrs)
}

/// Comparing two entries is symmetric.
pub proof fn lemma_entry_cmp_comm(a: &Entry, b: &Entry)
    ensures
        a.cmp_spec(b) == b.cmp_spec(a),
{
    match (a, b) {
        (Entry::File(x), Entry::File(y)) => {
            crate::file::lemma_extents_match_sym(x, y);
        }
        _ => {}
    }
}

/// Every entry agrees with itself on every field.
pub proof fn lemma_entry_cmp_refl(a: &Entry)
    ensures
        a.cmp_spec(a) == Fields::all_spec(),
{
    match a {
        Entry::File(x) => {
            crate::file::lemma_extents_match_sym(x, x);
        }
        _ => {}
    }
}

/// Two entries agree on every field exactly when they hold the same
/// content.
pub proof fn lemma_entry_cmp_all_iff_eq(a: &Entry, b: &Entry)
    ensures
        (a.cmp_spec(b) == Fields::all_spec()) <==> a.eq_spec(b),
{
    match (a, b) {
        (Entry::File(x), Entry::File(y)) => {
            if x.extents_match(y) {
                crate::file::lemma_extents_match_contents(x, y);
            }
        }
        _ => {}
    }
}

} // verus!
