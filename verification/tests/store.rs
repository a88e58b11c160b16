//! Tests of the filesystem store: linking, renaming, directory removal,
//! and the field-masked comparator.

use memfs::cmp::ApproxEq;
use memfs::cmp::Fields;
use memfs::entry::Directory;
use memfs::entry::Entry;
use memfs::entry::Gid;
use memfs::entry::Metadata;
use memfs::entry::Symlink;
use memfs::entry::Uid;
use memfs::file::File;
use memfs::path::BytesPath;
use memfs::Filesystem;
use memfs::FsError;

fn p(bytes: &[u8]) -> BytesPath {
    BytesPath::from_vec(bytes.to_vec())
}

fn dir_with_mode(mode: u32) -> Entry {
    Entry::Directory(
        Directory::builder()
            .metadata(
                Metadata::builder()
                    .mode(mode)
                    .uid(Uid::from_raw(0))
                    .gid(Gid::from_raw(0))
                    .build(),
            )
            .build(),
    )
}

fn file_with(contents: &[u8], mode: u32, xattr: Option<(&[u8], &[u8])>) -> Entry {
    let mut md = Metadata::builder()
        .mode(mode)
        .uid(Uid::from_raw(0))
        .gid(Gid::from_raw(0));
    if let Some((name, value)) = xattr {
        md = md.xattr(name.to_vec(), value.to_vec());
    }
    Entry::File(
        File::builder()
            .contents(contents.to_vec())
            .metadata(md.build())
            .build(),
    )
}

/// The demo filesystem exercised by several formats.
fn demo_fs() -> Filesystem {
    let mut fs = Filesystem::new();
    fs.insert(p(b""), dir_with_mode(0o755));
    fs.insert(p(b"testdata"), dir_with_mode(0o755));
    fs.insert(
        p(b"testdata/lorem.txt"),
        file_with(b"Lorem ipsum\n", 0o644, Some((b"user.demo", b"lorem ipsum"))),
    );
    fs.insert(p(b"testdata/dir"), dir_with_mode(0o755));
    fs.insert(
        p(b"testdata/dir/lorem.txt"),
        file_with(b"Lorem ipsum dolor sit amet\n", 0o644, None),
    );
    fs.insert(
        p(b"testdata/dir/symlink"),
        Entry::Symlink(Symlink::new(
            p(b"../lorem.txt"),
            Some(
                Metadata::builder()
                    .mode(0o777)
                    .uid(Uid::from_raw(0))
                    .gid(Gid::from_raw(0))
                    .build(),
            ),
        )),
    );
    fs
}

#[test]
fn partial_eq() {
    assert!(demo_fs().equals(&demo_fs()));
    let mut other = demo_fs();
    other.unlink(&p(b"testdata/dir/lorem.txt")).unwrap();
    assert!(!demo_fs().equals(&other));
}

#[test]
fn rename_roundtrip_restores_tree() {
    let mut fs = demo_fs();
    fs.rename(&p(b"testdata/lorem.txt"), p(b"testdata/moved.txt"))
        .unwrap();
    assert!(fs.get(&p(b"testdata/lorem.txt")).is_err());
    fs.rename(&p(b"testdata/moved.txt"), p(b"testdata/lorem.txt"))
        .unwrap();
    assert!(demo_fs().equals(&fs));
}

#[test]
fn rename_does_not_overwrite() {
    let mut fs = demo_fs();
    let r = fs.rename(&p(b"testdata/lorem.txt"), p(b"testdata/dir"));
    assert_eq!(r, Err(FsError::AlreadyExists));
    assert!(demo_fs().equals(&fs));
}

#[test]
fn link_then_unlink_keeps_content() {
    let mut fs = demo_fs();
    fs.link(&p(b"testdata/lorem.txt"), p(b"testdata/hardlink"))
        .unwrap();
    fs.unlink(&p(b"testdata/lorem.txt")).unwrap();
    let entry = fs.get(&p(b"testdata/hardlink")).unwrap();
    match entry {
        Entry::File(f) => assert_eq!(f.to_bytes(), b"Lorem ipsum\n".to_vec()),
        _ => panic!("expected a file"),
    }
    let original = demo_fs();
    let expected = original.get(&p(b"testdata/lorem.txt")).unwrap();
    assert!(entry.content_eq(expected));
}

#[test]
fn link_rejects_directories() {
    let mut fs = demo_fs();
    let r = fs.link(&p(b"testdata/dir"), p(b"testdata/dirlink"));
    assert_eq!(r, Err(FsError::IsADirectory));
}

#[test]
fn rmdir_checks_children() {
    let mut fs = demo_fs();
    assert_eq!(fs.rmdir(&p(b"testdata/dir")), Err(FsError::DirectoryNotEmpty));
    assert_eq!(
        fs.rmdir(&p(b"testdata/lorem.txt")),
        Err(FsError::NotADirectory)
    );
    assert_eq!(fs.rmdir(&p(b"nosuch")), Err(FsError::NotFound));
    fs.unlink(&p(b"testdata/dir/lorem.txt")).unwrap();
    fs.unlink(&p(b"testdata/dir/symlink")).unwrap();
    assert_eq!(fs.rmdir(&p(b"testdata/dir")), Ok(()));
    assert!(fs.get(&p(b"testdata/dir")).is_err());
}

#[test]
fn cmp_is_commutative() {
    let a = demo_fs();
    let mut b = demo_fs();
    b.chmod(&p(b"testdata/lorem.txt"), 0o600).unwrap();
    b.unlink(&p(b"testdata/dir/symlink")).unwrap();
    assert_eq!(ApproxEq::cmp(&a, &b), ApproxEq::cmp(&b, &a));
    assert!(ApproxEq::cmp(&a, &a).is_all());
}

#[test]
fn approx_eq_all_is_equality() {
    let a = demo_fs();
    let b = demo_fs();
    assert!(a.approx_eq(&b, Fields::all()));
    assert!(a.equals(&b));
    let mut c = demo_fs();
    c.chown(&p(b"testdata"), Uid::from_raw(1), Gid::from_raw(1))
        .unwrap();
    assert!(!a.approx_eq(&c, Fields::all()));
    assert!(!a.equals(&c));
    assert!(a.approx_eq(&c, Fields::all().remove(Fields::owner_field())));
}

#[test]
fn approx_eq_ignoring_xattrs() {
    // an archive-parsed tree carries no root entry and no xattrs; a scan of
    // a real directory has both
    let mut parsed = demo_fs();
    parsed.unlink(&p(b"")).unwrap();
    let mut scanned = demo_fs();
    scanned.unlink(&p(b"")).unwrap();
    // the parsed side lost the xattr its format cannot carry
    let mut no_xattr = Filesystem::new();
    no_xattr.insert(p(b"testdata"), dir_with_mode(0o755));
    no_xattr.insert(
        p(b"testdata/lorem.txt"),
        file_with(b"Lorem ipsum\n", 0o644, None),
    );
    no_xattr.insert(p(b"testdata/dir"), dir_with_mode(0o755));
    no_xattr.insert(
        p(b"testdata/dir/lorem.txt"),
        file_with(b"Lorem ipsum dolor sit amet\n", 0o644, None),
    );
    no_xattr.insert(
        p(b"testdata/dir/symlink"),
        Entry::Symlink(Symlink::new(
            p(b"../lorem.txt"),
            Some(
                Metadata::builder()
                    .mode(0o777)
                    .uid(Uid::from_raw(0))
                    .gid(Gid::from_raw(0))
                    .build(),
            ),
        )),
    );
    assert!(!no_xattr.approx_eq(&scanned, Fields::all()));
    assert!(no_xattr.approx_eq(&scanned, Fields::all().remove(Fields::xattr_field())));
}

#[test]
fn cmp_field_by_field() {
    let a = demo_fs();
    let mut b = demo_fs();
    b.chmod(&p(b"testdata/lorem.txt"), 0o600).unwrap();
    let c = ApproxEq::cmp(&a, &b);
    assert!(!c.mode);
    assert!(c.owner && c.time && c.xattr && c.data && c.extents && c.entry_type && c.path);
    let mut t = demo_fs();
    t.set_times(
        &p(b"testdata"),
        memfs::entry::Time::new(7, 0),
        memfs::entry::Time::new(7, 0),
        memfs::entry::Time::new(7, 0),
    )
    .unwrap();
    let ct = ApproxEq::cmp(&a, &t);
    assert!(!ct.time);
    assert!(ct.mode && ct.path);
}

#[test]
fn store_errors() {
    let mut fs = demo_fs();
    assert_eq!(fs.unlink(&p(b"missing")), Err(FsError::NotFound));
    assert!(fs.get(&p(b"missing")).is_err());
    assert_eq!(fs.chmod(&p(b"missing"), 0o600), Err(FsError::NotFound));
    assert!(fs.get_file(&p(b"testdata")).is_err());
    match fs.get_file(&p(b"testdata")) {
        Err(e) => assert_eq!(e, FsError::WrongEntryType),
        Ok(_) => panic!("a directory is not a file"),
    }
    assert_eq!(fs.truncate(&p(b"testdata"), 3), Err(FsError::WrongEntryType));
    assert_eq!(fs.truncate(&p(b"testdata/lorem.txt"), 5), Ok(()));
    let f = fs.get_file(&p(b"testdata/lorem.txt")).unwrap();
    assert_eq!(f.to_bytes(), b"Lorem".to_vec());
}

#[test]
fn xattrs_update_and_remove() {
    let mut fs = demo_fs();
    fs.set_xattr(&p(b"testdata"), b"user.k".to_vec(), b"v".to_vec())
        .unwrap();
    fs.remove_xattr(&p(b"testdata/lorem.txt"), b"user.demo")
        .unwrap();
    let e = fs.get(&p(b"testdata/lorem.txt")).unwrap();
    assert_eq!(e.metadata().xattrs.len(), 0);
    let d = fs.get(&p(b"testdata")).unwrap();
    assert_eq!(d.metadata().xattrs.len(), 1);
}

#[test]
fn diff_classifies_paths() {
    let left = demo_fs();
    let mut right = demo_fs();
    right.unlink(&p(b"testdata/dir/symlink")).unwrap();
    right.insert(p(b"added.txt"), file_with(b"x", 0o644, None));
    right.chmod(&p(b"testdata/lorem.txt"), 0o600).unwrap();
    let d = memfs::diff::FilesystemDiff::diff(&left, &right, Fields::all());
    assert_eq!(d.len(), 3);
    let mut removed = 0;
    let mut added = 0;
    let mut changed = 0;
    for (_, diff) in d.entry_diffs.iter() {
        match diff {
            memfs::diff::Diff::Removed(_) => removed += 1,
            memfs::diff::Diff::Added(_) => added += 1,
            memfs::diff::Diff::Changed { .. } => changed += 1,
        }
    }
    assert_eq!((removed, added, changed), (1, 1, 1));
    let same = memfs::diff::FilesystemDiff::diff(&left, &demo_fs(), Fields::all());
    assert_eq!(same.len(), 0);
}
