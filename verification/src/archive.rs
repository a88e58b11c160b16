//! Helpers shared by archive decoders: offset alignment for cpio's newc
//! format, and the pax extension key prefix that carries xattrs in tar
//! archives.

use vstd::prelude::*;

use crate::order::starts_with;

verus! {

/// Round a byte offset up to the next multiple of four, as the cpio newc
/// format aligns its records.
pub fn align_to_4_bytes(pos: usize) -> (r: usize)
    requires
        pos + 3 <= usize::MAX,
    ensures
        r % 4 == 0,
        pos <= r < pos + 4,
{
    let remainder = pos % 4;
    if remainder != 0 {
        pos + (4 - remainder)
    } else {
        pos
    }
}

/// The key prefix of pax extensions that carry extended attributes.
pub open spec fn pax_xattr_prefix() -> Seq<u8> {
    seq![
        83u8, 67u8, 72u8, 73u8, 76u8, 89u8, 46u8, 120u8, 97u8, 116u8, 116u8, 114u8, 46u8,
    ]
}

/// Strip the xattr prefix from a pax extension key: the rest of the key is
/// the xattr name. Keys without the prefix carry no xattr.
pub fn pax_xattr_name(key: &[u8]) -> (r: Option<Vec<u8>>)
    ensures
        match r {
            Some(name) => key@.len() >= pax_xattr_prefix().len() && key@.subrange(
                0,
                pax_xattr_prefix().len() as int,
            ) == pax_xattr_prefix() && name@ == key@.subrange(
                pax_xattr_prefix().len() as int,
                key@.len() as int,
            ),
            None => !(key@.len() >= pax_xattr_prefix().len() && key@.subrange(
                0,
                pax_xattr_prefix().len() as int,
            ) == pax_xattr_prefix()),
        },
{
    let prefix: Vec<u8> = prefix_vec();
    if !starts_with(key, prefix.as_slice()) {
        return None;
    }
    let mut name: Vec<u8> = Vec::new();
    let mut i: usize = 13;
    while i < key.len()
        invariant
            13 <= i <= key@.len(),
            name@ == key@.subrange(13, i as int),
        decreases key@.len() - i,
    {
        name.push(key[i]);
        proof {
            assert(name@ =~= key@.subrange(13, i + 1));
        }
        i = i + 1;
    }
    Some(name)
}

/// The xattr key prefix as a byte vector.
fn prefix_vec() -> (r: Vec<u8>)
    ensures
        r@ == pax_xattr_prefix(),
{
    let mut v: Vec<u8> = Vec::new();
    v.push(83);
    v.push(67);
    v.push(72);
    v.push(73);
    v.push(76);
    v.push(89);
    v.push(46);
    v.push(120);
    v.push(97);
    v.push(116);
    v.push(116);
    v.push(114);
    v.push(46);
    proof {
        assert(v@ =~= pax_xattr_prefix());
    }
    v
}

} // verus!
