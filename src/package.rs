//! A package archive parsed out of its path.
use std::cmp::Ordering;
use vstd::prelude::*;
use crate::filename::{follows_convention, layout, name_of, version_of};
use crate::version::{
    cmp_segments, compare_segments, segments_view, version_segments, version_segments_of,
    Segment, SegmentView,
};

verus! {

/// One package archive: its path, the name of the package, its version string
/// `<pkgver>-<pkgrel>`, and the segments of that version.
pub struct Package {
    pub path: Vec<u8>,
    pub name: Vec<u8>,
    pub version: Vec<u8>,
    pub segments: Vec<Segment>,
}

/// Why a path is not taken as a package.
pub enum ParseError {
    /// The file name does not follow the package naming convention.
    NotAPackage(Vec<u8>),
    /// The version of the file name is not one that the version parser accepts.
    BadVersion(Vec<u8>),
}

impl Package {
    /// The segments of the version, as values.
    pub open spec fn segs(&self) -> Seq<SegmentView> {
        segments_view(self.segments@)
    }

    /// A package is what its path says.
    pub open spec fn wf(&self) -> bool {
        &&& follows_convention(self.path@)
        &&& self.name@ == name_of(self.path@)
        &&& self.version@ == version_of(self.path@)
        &&& version_segments_of(self.version@) == Some(self.segs())
    }

    /// Parses a package out of its path.
    pub fn from_path(path: &[u8]) -> (r: Result<Package, ParseError>)
        ensures
            match r {
                Ok(p) => p.wf() && p.path@ == path@,
                Err(ParseError::NotAPackage(q)) => q@ == path@ && !follows_convention(path@),
                Err(ParseError::BadVersion(q)) => {
                    &&& q@ == path@
                    &&& follows_convention(path@)
                    &&& version_segments_of(version_of(path@)) is None
                },
            },
    {
        let l = match layout(path) {
            Some(l) => l,
            None => {
                return Err(ParseError::NotAPackage(copy_range(path, 0, path.len())));
            },
        };
        assert(path@.subrange(0, path@.len() as int) =~= path@);
        let name = copy_range(path, l.name_start, l.hyphen1);
        let version = copy_range(path, l.hyphen1 + 1, l.hyphen3);
        match version_segments(version.as_slice()) {
            Some(segments) => Ok(
                Package { path: copy_range(path, 0, path.len()), name, version, segments },
            ),
            None => Err(ParseError::BadVersion(copy_range(path, 0, path.len()))),
        }
    }

    /// Orders two packages by their versions.
    pub fn compare_versions(a: &Package, b: &Package) -> (r: Ordering)
        ensures
            r == cmp_segments(a.segs(), b.segs()),
    {
        compare_segments(&a.segments, &b.segments)
    }
}

impl ParseError {
    /// The path that was not taken as a package.
    pub fn path(&self) -> (r: &Vec<u8>)
        ensures
            r == match self {
                ParseError::NotAPackage(q) => q,
                ParseError::BadVersion(q) => q,
            },
    {
        match self {
            ParseError::NotAPackage(q) => q,
            ParseError::BadVersion(q) => q,
        }
    }
}

/// The bytes of `s` in `[from, to)`.
pub fn copy_range(s: &[u8], from: usize, to: usize) -> (r: Vec<u8>)
    requires
        from <= to <= s@.len(),
    ensures
        r@ == s@.subrange(from as int, to as int),
{
    let mut r: Vec<u8> = Vec::new();
    let mut i: usize = from;
    while i < to
        invariant
            from <= i <= to <= s@.len(),
            r@ == s@.subrange(from as int, i as int),
        decreases to - i,
    {
        r.push(s[i]);
        i = i + 1;
    }
    r
}

} // verus!
