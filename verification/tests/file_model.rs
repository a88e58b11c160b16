//! Tests of the file content model: extents, writer, reader, clone-range
//! and truncate.

use memfs::file::extent::Extent;
use memfs::file::writer::SeekFrom;
use memfs::file::File;
use memfs::FsError;

fn owned(bytes: &[u8]) -> Extent {
    Extent::from_vec(bytes.to_vec())
}

/// A file holding "Lorem ipsum dolor sit amet" as two extents.
fn test_file() -> File {
    let mut f = File::new_empty();
    let mut w = f.writer();
    w.write_bytes(&mut f, b"Lorem ipsum".to_vec());
    w.write_bytes(&mut f, b" dolor sit amet".to_vec());
    f
}

#[test]
fn extent_split() {
    let mut ext = owned(b"Lorem ipsum");
    assert!(ext.matches(&owned(b"Lorem ipsum")));
    let right = ext.split_at("Lorem".len() as u64);
    let left = ext;
    assert!(left.matches(&owned(b"Lorem")));
    assert!(right.matches(&owned(b" ipsum")));
}

#[test]
fn to_bytes() {
    let f = test_file();
    assert_eq!(f.to_bytes(), b"Lorem ipsum dolor sit amet".to_vec());
}

#[test]
fn cloning() {
    let f = test_file();
    let start = "Lorem ".len() as u64;
    let end = start + "ipsum dolor".len() as u64;
    let extents = f.clone_range(start, end);
    assert_eq!(extents.len(), 2);
    for ex in extents.iter() {
        assert!(matches!(ex, Extent::Cloned(_)));
    }
    let mut f2 = File::new_empty();
    let mut w = f2.writer();
    for ex in extents {
        w.write(&mut f2, ex);
    }
    assert_eq!(f2.to_bytes(), b"ipsum dolor".to_vec());
}

#[test]
fn truncate() {
    let mut f = test_file();
    f.truncate(5);
    assert_eq!(f.to_bytes(), b"Lorem".to_vec());
    assert_eq!(f.extents.len(), 1);

    let mut f = test_file();
    let grown = ("Lorem ipsum dolor sit amet".len() + 128) as u64;
    f.truncate(grown);
    assert_eq!(f.len(), grown);
    assert_eq!(f.extents.len(), 3);
    let (start, last) = &f.extents[2];
    assert_eq!(*start, "Lorem ipsum dolor sit amet".len() as u64);
    assert!(matches!(last, Extent::Hole(128)));
    let bytes = f.to_bytes();
    assert_eq!(&bytes[..26], b"Lorem ipsum dolor sit amet");
    assert!(bytes[26..].iter().all(|b| *b == 0));
}

#[test]
fn read_all() {
    let f = test_file();
    let mut rd = f.reader();
    let buf = rd.read_to_end(&f);
    assert_eq!(buf, f.to_bytes());
}

#[test]
fn overlapping_writes() {
    let mut f = File::new_empty();
    let mut w = f.writer();
    w.write_bytes(&mut f, b"Lorem lorem".to_vec());
    w.seek(&f, SeekFrom::Start("Lorem ".len() as u64)).unwrap();
    w.write_bytes(&mut f, b"ipsum dolor sit amet".to_vec());
    let mut rd = f.reader();
    let buf = rd.read_to_end(&f);
    assert_eq!(buf, b"Lorem ipsum dolor sit amet".to_vec());
    assert_eq!(f.extents.len(), 2);
}

#[test]
fn appending_writes() {
    let mut f = File::new_empty();
    let mut w = f.writer();
    w.write_bytes(&mut f, b"Lorem ipsum".to_vec());
    w.write_bytes(&mut f, b" dolor sit amet".to_vec());
    assert_eq!(f.to_bytes(), b"Lorem ipsum dolor sit amet".to_vec());
    assert_eq!(f.extents.len(), 2);
}

#[test]
fn overwrite() {
    let mut f = File::new_empty();
    let mut w = f.writer();
    w.write_bytes(&mut f, b"Lorem lorem".to_vec());
    w.seek(&f, SeekFrom::Start("Lorem ".len() as u64)).unwrap();
    w.write_bytes(&mut f, b"ipsum dolor sit amet".to_vec());
    assert_eq!(f.to_bytes(), b"Lorem ipsum dolor sit amet".to_vec());
    assert_eq!(f.extents.len(), 2);
    assert_eq!(f.extents[0].0, 0);
    assert!(f.extents[0].1.matches(&owned(b"Lorem ")));
    assert_eq!(f.extents[1].0, "Lorem ".len() as u64);
    assert!(f.extents[1].1.matches(&owned(b"ipsum dolor sit amet")));
}

#[test]
fn internal_overwrite() {
    let mut f = File::new_empty();
    let mut w = f.writer();
    w.write_bytes(&mut f, b"Lorem lorem dolor sit amet".to_vec());
    w.seek(&f, SeekFrom::Start("Lorem ".len() as u64)).unwrap();
    w.write_bytes(&mut f, b"ipsum".to_vec());
    assert_eq!(f.to_bytes(), b"Lorem ipsum dolor sit amet".to_vec());
    assert_eq!(f.extents.len(), 3);
    assert_eq!(f.extents[0].0, 0);
    assert!(f.extents[0].1.matches(&owned(b"Lorem ")));
    assert_eq!(f.extents[1].0, "Lorem ".len() as u64);
    assert!(f.extents[1].1.matches(&owned(b"ipsum")));
    assert_eq!(f.extents[2].0, "Lorem ipsum".len() as u64);
    assert!(f.extents[2].1.matches(&owned(b" dolor sit amet")));
}

#[test]
fn seek_out_of_range() {
    let f = test_file();
    let mut w = f.writer();
    assert_eq!(w.seek(&f, SeekFrom::End(-100)), Err(FsError::InvalidInput));
    assert_eq!(w.seek(&f, SeekFrom::Current(-27)), Err(FsError::InvalidInput));
    assert_eq!(w.seek(&f, SeekFrom::End(-26)), Ok(0));
    assert_eq!(w.seek(&f, SeekFrom::Current(5)), Ok(5));
    assert_eq!(w.seek(&f, SeekFrom::Start(7)), Ok(7));
}

#[test]
fn reader_chunks() {
    let f = test_file();
    let mut rd = f.reader();
    let first = rd.read(&f, 5);
    assert_eq!(first, b"Lorem".to_vec());
    let rest = rd.read_to_end(&f);
    assert_eq!(rest, b" ipsum dolor sit amet".to_vec());
    let empty = rd.read(&f, 5);
    assert!(empty.is_empty());
}

#[test]
fn hole_reads_as_zeros() {
    let mut f = File::new_empty();
    f.truncate(4);
    assert_eq!(f.to_bytes(), vec![0u8, 0, 0, 0]);
    let extents = f.clone_range(1, 3);
    let mut f2 = File::new_empty();
    let mut w = f2.writer();
    for ex in extents {
        w.write(&mut f2, ex);
    }
    assert_eq!(f2.to_bytes(), vec![0u8, 0]);
}
