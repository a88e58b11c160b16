//! Tests of the archive decoding helpers.

use memfs::archive::align_to_4_bytes;
use memfs::archive::pax_xattr_name;

#[test]
fn align() {
    assert_eq!(align_to_4_bytes(0), 0);
    assert_eq!(align_to_4_bytes(1), 4);
    assert_eq!(align_to_4_bytes(2), 4);
    assert_eq!(align_to_4_bytes(3), 4);
    assert_eq!(align_to_4_bytes(4), 4);
    assert_eq!(align_to_4_bytes(5), 8);
    assert_eq!(align_to_4_bytes(6), 8);
}

#[test]
fn pax_keys() {
    assert_eq!(
        pax_xattr_name(b"SCHILY.xattr.user.demo"),
        Some(b"user.demo".to_vec())
    );
    assert_eq!(pax_xattr_name(b"SCHILY.xattr."), Some(Vec::new()));
    assert_eq!(pax_xattr_name(b"atime"), None);
    assert_eq!(pax_xattr_name(b"SCHILY.other"), None);
}
