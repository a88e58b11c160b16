//! Field-masked comparison. Some attributes are expected to be dynamic or
//! unsupported for certain formats, so comparisons return the set of semantic
//! fields that are equal instead of demanding full equality.

use vstd::prelude::*;

verus! {

/// A set of comparison axes: one flag per semantic field of a filesystem
/// entry.
#[derive(Clone, Copy, PartialEq, Eq, Structural, Debug)]
pub struct Fields {
    /// The complete sets of paths in two filesystems are equal.
    pub path: bool,
    /// The entry type (regular file, device node, etc).
    pub entry_type: bool,
    /// File data as it would appear to a reader.
    pub data: bool,
    /// Raw extents as the data is physically laid out.
    pub extents: bool,
    /// All file times (created, accessed, modified).
    pub time: bool,
    /// All xattr names and values.
    pub xattr: bool,
    /// File mode bits.
    pub mode: bool,
    /// Owning user and group.
    pub owner: bool,
    /// Device number of a special entry.
    pub rdev: bool,
}

impl Fields {
    /// Every flag of `o` is also set in `self`.
    pub open spec fn contains_spec(self, o: Fields) -> bool {
        &&& o.path ==> self.path
        &&& o.entry_type ==> self.entry_type
        &&& o.data ==> self.data
        &&& o.extents ==> self.extents
        &&& o.time ==> self.time
        &&& o.xattr ==> self.xattr
        &&& o.mode ==> self.mode
        &&& o.owner ==> self.owner
        &&& o.rdev ==> self.rdev
    }

    pub open spec fn union_spec(self, o: Fields) -> Fields {
        Fields {
            path: self.path || o.path,
            entry_type: self.entry_type || o.entry_type,
            data: self.data || o.data,
            extents: self.extents || o.extents,
            time: self.time || o.time,
            xattr: self.xattr || o.xattr,
            mode: self.mode || o.mode,
            owner: self.owner || o.owner,
            rdev: self.rdev || o.rdev,
        }
    }

    pub open spec fn intersection_spec(self, o: Fields) -> Fields {
        Fields {
            path: self.path && o.path,
            entry_type: self.entry_type && o.entry_type,
            data: self.data && o.data,
            extents: self.extents && o.extents,
            time: self.time && o.time,
            xattr: self.xattr && o.xattr,
            mode: self.mode && o.mode,
            owner: self.owner && o.owner,
            rdev: self.rdev && o.rdev,
        }
    }

    pub open spec fn remove_spec(self, o: Fields) -> Fields {
        Fields {
            path: self.path && !o.path,
            entry_type: self.entry_type && !o.entry_type,
            data: self.data && !o.data,
            extents: self.extents && !o.extents,
            time: self.time && !o.time,
            xattr: self.xattr && !o.xattr,
            mode: self.mode && !o.mode,
            owner: self.owner && !o.owner,
            rdev: self.rdev && !o.rdev,
        }
    }

    pub open spec fn all_spec() -> Fields {
        Fields {
            path: true,
            entry_type: true,
            data: true,
            extents: true,
            time: true,
            xattr: true,
            mode: true,
            owner: true,
            rdev: true,
        }
    }

    pub open spec fn empty_spec() -> Fields {
        Fields {
            path: false,
            entry_type: false,
            data: false,
            extents: false,
            time: false,
            xattr: false,
            mode: false,
            owner: false,
            rdev: false,
        }
    }

    /// The mask with every field set.
    pub fn all() -> (r: Fields)
        ensures
            r == Fields::all_spec(),
    {
        Fields {
            path: true,
            entry_type: true,
            data: true,
            extents: true,
            time: true,
            xattr: true,
            mode: true,
            owner: true,
            rdev: true,
        }
    }

    /// The mask with no field set.
    pub fn empty() -> (r: Fields)
        ensures
            r == Fields::empty_spec(),
    {
        Fields {
            path: false,
            entry_type: false,
            data: false,
            extents: false,
            time: false,
            xattr: false,
            mode: false,
            owner: false,
            rdev: false,
        }
    }

    /// The single-field mask for the path set.
    pub fn path_field() -> (r: Fields)
        ensures
            r == (Fields { path: true, ..Fields::empty_spec() }),
    {
        Fields { path: true, ..Fields::empty() }
    }

    /// The single-field mask for the entry type.
    pub fn type_field() -> (r: Fields)
        ensures
            r == (Fields { entry_type: true, ..Fields::empty_spec() }),
    {
        Fields { entry_type: true, ..Fields::empty() }
    }

    /// The single-field mask for readable file data.
    pub fn data_field() -> (r: Fields)
        ensures
            r == (Fields { data: true, ..Fields::empty_spec() }),
    {
        Fields { data: true, ..Fields::empty() }
    }

    /// The single-field mask for the extent layout.
    pub fn extents_field() -> (r: Fields)
        ensures
            r == (Fields { extents: true, ..Fields::empty_spec() }),
    {
        Fields { extents: true, ..Fields::empty() }
    }

    /// The single-field mask for file times.
    pub fn time_field() -> (r: Fields)
        ensures
            r == (Fields { time: true, ..Fields::empty_spec() }),
    {
        Fields { time: true, ..Fields::empty() }
    }

    /// The single-field mask for xattrs.
    pub fn xattr_field() -> (r: Fields)
        ensures
            r == (Fields { xattr: true, ..Fields::empty_spec() }),
    {
        Fields { xattr: true, ..Fields::empty() }
    }

    /// The single-field mask for the file mode.
    pub fn mode_field() -> (r: Fields)
        ensures
            r == (Fields { mode: true, ..Fields::empty_spec() }),
    {
        Fields { mode: true, ..Fields::empty() }
    }

    /// The single-field mask for the owning user and group.
    pub fn owner_field() -> (r: Fields)
        ensures
            r == (Fields { owner: true, ..Fields::empty_spec() }),
    {
        Fields { owner: true, ..Fields::empty() }
    }

    /// The single-field mask for the device number.
    pub fn rdev_field() -> (r: Fields)
        ensures
            r == (Fields { rdev: true, ..Fields::empty_spec() }),
    {
        Fields { rdev: true, ..Fields::empty() }
    }

    /// Metadata accessible with stat: type, times, mode and owner.
    pub fn stat() -> (r: Fields)
        ensures
            r == (Fields {
                entry_type: true,
                time: true,
                mode: true,
                owner: true,
                ..Fields::empty_spec()
            }),
    {
        Fields { entry_type: true, time: true, mode: true, owner: true, ..Fields::empty() }
    }

    /// Fields on a filesystem entry itself, in other words everything but
    /// the path.
    pub fn all_entry_fields() -> (r: Fields)
        ensures
            r == (Fields { path: false, ..Fields::all_spec() }),
    {
        Fields { path: false, ..Fields::all() }
    }

    pub fn union(self, o: Fields) -> (r: Fields)
        ensures
            r == self.union_spec(o),
    {
        Fields {
            path: self.path || o.path,
            entry_type: self.entry_type || o.entry_type,
            data: self.data || o.data,
            extents: self.extents || o.extents,
            time: self.time || o.time,
            xattr: self.xattr || o.xattr,
            mode: self.mode || o.mode,
            owner: self.owner || o.owner,
            rdev: self.rdev || o.rdev,
        }
    }

    pub fn intersection(self, o: Fields) -> (r: Fields)
        ensures
            r == self.intersection_spec(o),
    {
        Fields {
            path: self.path && o.path,
            entry_type: self.entry_type && o.entry_type,
            data: self.data && o.data,
            extents: self.extents && o.extents,
            time: self.time && o.time,
            xattr: self.xattr && o.xattr,
            mode: self.mode && o.mode,
            owner: self.owner && o.owner,
            rdev: self.rdev && o.rdev,
        }
    }

    /// The fields of `self` with those of `o` cleared.
    pub fn remove(self, o: Fields) -> (r: Fields)
        ensures
            r == self.remove_spec(o),
    {
        Fields {
            path: self.path && !o.path,
            entry_type: self.entry_type && !o.entry_type,
            data: self.data && !o.data,
            extents: self.extents && !o.extents,
            time: self.time && !o.time,
            xattr: self.xattr && !o.xattr,
            mode: self.mode && !o.mode,
            owner: self.owner && !o.owner,
            rdev: self.rdev && !o.rdev,
        }
    }

    pub fn contains(self, o: Fields) -> (r: bool)
        ensures
            r == self.contains_spec(o),
    {
        (!o.path || self.path) && (!o.entry_type || self.entry_type) && (!o.data || self.data)
            && (!o.extents || self.extents) && (!o.time || self.time) && (!o.xattr || self.xattr)
            && (!o.mode || self.mode) && (!o.owner || self.owner) && (!o.rdev || self.rdev)
    }

    pub fn is_all(self) -> (r: bool)
        ensures
            r == (self == Fields::all_spec()),
    {
        self.path && self.entry_type && self.data && self.extents && self.time && self.xattr
            && self.mode && self.owner && self.rdev
    }
}

/// Comparison that yields the set of equal fields. The result starts from
/// every field and has a flag cleared for each observed inequality, so a
/// caller may ignore some fields; implementations never leave a flag set
/// when that field might be unequal.
pub trait ApproxEq {
    /// What comparing the two values needs: typically well-formedness, and
    /// for file contents that they fit in memory.
    spec fn cmp_req(&self, other: &Self) -> bool;

    /// The set of fields on which the two values agree.
    spec fn cmp_spec(&self, other: &Self) -> Fields;

    /// Return all the flags for fields that are equal.
    fn cmp(&self, other: &Self) -> (r: Fields)
        requires
            self.cmp_req(other),
        ensures
            r == self.cmp_spec(other),
    ;

    /// The two values agree on every field of `fields`.
    fn approx_eq(&self, other: &Self, fields: Fields) -> (r: bool)
        requires
            self.cmp_req(other),
        ensures
            r == self.cmp_spec(other).contains_spec(fields),
    {
        self.cmp(other).contains(fields)
    }
}

} // verus!
