//! Tests of the sendstream replay engine: subvolume and snapshot
//! inheritance, and the structural stream rules.

use memfs::btrfs::Command;
use memfs::btrfs::Error;
use memfs::btrfs::Subvols;
use memfs::btrfs::Uuid;
use memfs::cmp::ApproxEq;
use memfs::cmp::Fields;
use memfs::entry::Entry;
use memfs::entry::Metadata;
use memfs::entry::Uid;
use memfs::entry::Gid;
use memfs::file::File;
use memfs::path::BytesPath;
use memfs::Filesystem;

fn p(bytes: &[u8]) -> BytesPath {
    BytesPath::from_vec(bytes.to_vec())
}

fn first_stream() -> Vec<Command> {
    vec![
        Command::Subvol { uuid: Uuid(1) },
        Command::Chmod { path: p(b""), mode: 0o755 },
        Command::Mkdir { path: p(b"testdata") },
        Command::Chmod { path: p(b"testdata"), mode: 0o755 },
        Command::Mkfile { path: p(b"testdata/lorem.txt") },
        Command::Write { path: p(b"testdata/lorem.txt"), offset: 0, data: b"Lorem ipsum\n".to_vec() },
        Command::Chmod { path: p(b"testdata/lorem.txt"), mode: 0o644 },
        Command::SetXattr {
            path: p(b"testdata/lorem.txt"),
            name: b"user.demo".to_vec(),
            data: b"lorem ipsum".to_vec(),
        },
        Command::End,
    ]
}

fn expected_first() -> Filesystem {
    let mut fs = Filesystem::new();
    fs.insert(
        p(b""),
        Entry::Directory(
            memfs::entry::Directory::builder()
                .metadata(Metadata::builder().mode(0o755).build())
                .build(),
        ),
    );
    fs.insert(
        p(b"testdata"),
        Entry::Directory(
            memfs::entry::Directory::builder()
                .metadata(Metadata::builder().mode(0o755).build())
                .build(),
        ),
    );
    fs.insert(
        p(b"testdata/lorem.txt"),
        Entry::File(
            File::builder()
                .contents(b"Lorem ipsum\n".to_vec())
                .metadata(
                    Metadata::builder()
                        .mode(0o644)
                        .xattr(b"user.demo".to_vec(), b"lorem ipsum".to_vec())
                        .build(),
                )
                .build(),
        ),
    );
    fs
}

#[test]
fn sendstream() {
    let mut subvols = Subvols::new();
    subvols.receive(first_stream()).unwrap();
    let second = vec![
        Command::Snapshot { uuid: Uuid(2), clone_uuid: Uuid(1) },
        Command::Mkfile { path: p(b"wow") },
        Command::Chmod { path: p(b"wow"), mode: 0o644 },
        Command::End,
    ];
    subvols.receive(second).unwrap();
    assert_eq!(subvols.num_subvols(), 2);

    let (u1, first) = subvols.subvol_at(0);
    assert_eq!(*u1, Uuid(1));
    assert!(first.parent_uuid.is_none());
    let loose = Fields::all().remove(Fields::time_field());
    assert!(first.fs.approx_eq(&expected_first(), loose));

    let (u2, snap) = subvols.subvol_at(1);
    assert_eq!(*u2, Uuid(2));
    assert_eq!(snap.parent_uuid, Some(Uuid(1)));
    let mut expected_second = expected_first();
    expected_second.insert(
        p(b"wow"),
        Entry::File(
            File::builder()
                .contents(Vec::new())
                .metadata(
                    Metadata::builder()
                        .mode(0o644)
                        .uid(Uid::from_raw(0))
                        .gid(Gid::from_raw(0))
                        .build(),
                )
                .build(),
        ),
    );
    assert!(snap.fs.approx_eq(&expected_second, loose));
    // the parent was not changed by the snapshot's commands
    assert!(first.fs.approx_eq(&expected_first(), loose));
}

#[test]
fn first_command_must_open_a_subvolume() {
    let mut subvols = Subvols::new();
    let r = subvols.receive(vec![Command::Mkdir { path: p(b"x") }]);
    assert!(matches!(r, Err(Error::InvariantViolated(_))));
    let r = subvols.receive(Vec::new());
    assert!(matches!(r, Err(Error::InvariantViolated(_))));
}

#[test]
fn snapshot_needs_its_parent() {
    let mut subvols = Subvols::new();
    let r = subvols.receive(vec![Command::Snapshot { uuid: Uuid(9), clone_uuid: Uuid(7) }]);
    assert!(matches!(r, Err(Error::MissingParent(Uuid(7)))));
}

#[test]
fn update_extent_is_rejected() {
    let mut subvols = Subvols::new();
    let r = subvols.receive(vec![
        Command::Subvol { uuid: Uuid(1) },
        Command::UpdateExtent { path: p(b"x"), offset: 0, len: 4 },
    ]);
    assert!(matches!(r, Err(Error::InvariantViolated(_))));
}

#[test]
fn failed_command_aborts_the_stream() {
    let mut subvols = Subvols::new();
    let r = subvols.receive(vec![
        Command::Subvol { uuid: Uuid(1) },
        Command::Unlink { path: p(b"missing") },
    ]);
    match r {
        Err(Error::Apply { command, error }) => {
            assert_eq!(error, memfs::FsError::NotFound);
            assert!(matches!(command, Command::Unlink { .. }));
        }
        _ => panic!("the stream must abort with the failing command"),
    }
}

#[test]
fn clone_command_copies_a_range() {
    let mut subvols = Subvols::new();
    let r = subvols.receive(vec![
        Command::Subvol { uuid: Uuid(3) },
        Command::Mkfile { path: p(b"src") },
        Command::Write { path: p(b"src"), offset: 0, data: b"Lorem ipsum dolor sit amet".to_vec() },
        Command::Mkfile { path: p(b"dst") },
        Command::Clone {
            src_path: p(b"src"),
            src_offset: 6,
            len: 11,
            dst_path: p(b"dst"),
            dst_offset: 0,
        },
        Command::End,
    ]);
    r.unwrap();
    let (_, sv) = subvols.subvol_at(0);
    let f = sv.fs.get_file(&p(b"dst")).unwrap();
    assert_eq!(f.to_bytes(), b"ipsum dolor".to_vec());
}
