//! The file names of package archives: `<name>-<pkgver>-<pkgrel>-<arch>.pkg.tar.<compression>`.
use vstd::prelude::*;

verus! {

pub const SLASH: u8 = 47;

pub const HYPHEN: u8 = 45;

pub const DOT: u8 = 46;

/// Index of the last `c` in `s` before `end`, or -1.
pub open spec fn rfind_before(s: Seq<u8>, c: u8, end: int) -> int
    decreases end,
{
    if end <= 0 {
        -1
    } else if s[end - 1] == c {
        end - 1
    } else {
        rfind_before(s, c, end - 1)
    }
}

/// Index of the first `c` in `s` from `start` on, or the length of `s`.
pub open spec fn find_from(s: Seq<u8>, c: u8, start: int) -> int
    decreases s.len() - start,
{
    if start >= s.len() {
        s.len() as int
    } else if s[start] == c {
        start
    } else {
        find_from(s, c, start + 1)
    }
}

/// The bytes `.pkg.tar.` that follow the architecture.
pub open spec fn archive_marker() -> Seq<u8> {
    seq![46u8, 112u8, 107u8, 103u8, 46u8, 116u8, 97u8, 114u8, 46u8]
}

/// Whether a byte is an ASCII digit.
pub open spec fn is_digit(b: u8) -> bool {
    48 <= b <= 57
}

/// Whether `p` ends in `.sig`.
pub open spec fn is_signature(p: Seq<u8>) -> bool {
    p.len() >= 4 && p.subrange(p.len() - 4, p.len() as int) == seq![46u8, 115u8, 105u8, 103u8]
}

/// The path of the package that a signature file signs.
pub open spec fn signed_path(p: Seq<u8>) -> Seq<u8> {
    p.subrange(0, p.len() - 4)
}

/// The positions that split a path into name, version, release and
/// architecture: where its file name starts and its last three hyphens.
pub open spec fn name_start(p: Seq<u8>) -> int {
    rfind_before(p, SLASH, p.len() as int) + 1
}

pub open spec fn hyphen3(p: Seq<u8>) -> int {
    rfind_before(p, HYPHEN, p.len() as int)
}

pub open spec fn hyphen2(p: Seq<u8>) -> int {
    rfind_before(p, HYPHEN, hyphen3(p))
}

pub open spec fn hyphen1(p: Seq<u8>) -> int {
    rfind_before(p, HYPHEN, hyphen2(p))
}

pub open spec fn arch_end(p: Seq<u8>) -> int {
    find_from(p, DOT, hyphen3(p) + 1)
}

/// Whether the file name of `p` follows the package naming convention: a
/// non-empty name, version, numeric release and architecture, then
/// `.pkg.tar.` and a non-empty compression suffix.
pub open spec fn follows_convention(p: Seq<u8>) -> bool {
    let b = name_start(p);
    let h1 = hyphen1(p);
    let h2 = hyphen2(p);
    let h3 = hyphen3(p);
    let d = arch_end(p);
    &&& b < h1
    &&& h1 + 1 < h2
    &&& h2 + 1 < h3
    &&& (forall|i: int| h2 < i < h3 ==> is_digit(#[trigger] p[i]))
    &&& h3 + 1 < d
    &&& d + 9 < p.len()
    &&& p.subrange(d, d + 9) == archive_marker()
}

/// The package name in a path that follows the convention.
pub open spec fn name_of(p: Seq<u8>) -> Seq<u8> {
    p.subrange(name_start(p), hyphen1(p))
}

/// The version string, `<pkgver>-<pkgrel>`, in a path that follows the convention.
pub open spec fn version_of(p: Seq<u8>) -> Seq<u8> {
    p.subrange(hyphen1(p) + 1, hyphen3(p))
}

/// Finds the last `c` in `s` before `end`.
pub fn rfind_byte(s: &[u8], c: u8, end: usize) -> (r: Option<usize>)
    requires
        end <= s@.len(),
    ensures
        match r {
            Some(i) => rfind_before(s@, c, end as int) == i && i < end,
            None => rfind_before(s@, c, end as int) == -1,
        },
{
    let mut e: usize = end;
    while e > 0
        invariant
            e <= end <= s@.len(),
            rfind_before(s@, c, end as int) == rfind_before(s@, c, e as int),
        decreases e,
    {
        if s[e - 1] == c {
            return Some(e - 1);
        }
        e = e - 1;
    }
    None
}

/// Finds the first `c` in `s` from `start` on; the length of `s` if there is none.
pub fn find_byte(s: &[u8], c: u8, start: usize) -> (r: usize)
    requires
        start <= s@.len(),
    ensures
        r == find_from(s@, c, start as int),
        start <= r <= s@.len(),
{
    let mut i: usize = start;
    while i < s.len()
        invariant
            start <= i <= s@.len(),
            find_from(s@, c, start as int) == find_from(s@, c, i as int),
        decreases s@.len() - i,
    {
        if s[i] == c {
            return i;
        }
        i = i + 1;
    }
    i
}

/// Whether every byte of `s` in `[from, to)` is an ASCII digit.
fn all_digits(s: &[u8], from: usize, to: usize) -> (r: bool)
    requires
        from <= to <= s@.len(),
    ensures
        r == (forall|i: int| from < i + 1 && i < to ==> is_digit(#[trigger] s@[i])),
{
    let mut i: usize = from;
    while i < to
        invariant
            from <= i <= to <= s@.len(),
            forall|j: int| from <= j < i ==> is_digit(#[trigger] s@[j]),
        decreases to - i,
    {
        if s[i] < 48 || s[i] > 57 {
            return false;
        }
        i = i + 1;
    }
    true
}

/// Whether `.pkg.tar.` stands in `s` at `at`.
fn marker_at(s: &[u8], at: usize) -> (r: bool)
    requires
        at + 9 <= s@.len(),
    ensures
        r == (s@.subrange(at as int, at + 9) == archive_marker()),
{
    let r = s[at] == 46 && s[at + 1] == 112 && s[at + 2] == 107 && s[at + 3] == 103 && s[at
        + 4] == 46 && s[at + 5] == 116 && s[at + 6] == 97 && s[at + 7] == 114 && s[at + 8] == 46;
    if r {
        assert(s@.subrange(at as int, at + 9) =~= archive_marker());
    } else {
        assert(s@.subrange(at as int, at + 9) != archive_marker()) by {
            let m = s@.subrange(at as int, at + 9);
            if m == archive_marker() {
                assert(m[0] == 46 && m[1] == 112 && m[2] == 107 && m[3] == 103 && m[4] == 46);
                assert(m[5] == 116 && m[6] == 97 && m[7] == 114 && m[8] == 46);
            }
        }
    }
    r
}

/// Whether `p` ends in `.sig`.
pub fn is_signature_path(p: &[u8]) -> (r: bool)
    ensures
        r == is_signature(p@),
{
    let n = p.len();
    if n < 4 {
        return false;
    }
    let r = p[n - 4] == 46 && p[n - 3] == 115 && p[n - 2] == 105 && p[n - 1] == 103;
    let ghost t = p@.subrange(n - 4, n as int);
    if r {
        assert(t =~= seq![46u8, 115u8, 105u8, 103u8]);
    } else {
        assert(t != seq![46u8, 115u8, 105u8, 103u8]) by {
            if t == seq![46u8, 115u8, 105u8, 103u8] {
                assert(t[0] == 46 && t[1] == 115 && t[2] == 105 && t[3] == 103);
            }
        }
    }
    r
}

/// The positions that split a path that follows the convention.
pub struct Layout {
    pub name_start: usize,
    pub hyphen1: usize,
    pub hyphen3: usize,
}

/// Splits the file name of `p`, or says that it does not follow the convention.
pub fn layout(p: &[u8]) -> (r: Option<Layout>)
    ensures
        r is Some <==> follows_convention(p@),
        r matches Some(l) ==> {
            &&& l.name_start == name_start(p@)
            &&& l.hyphen1 == hyphen1(p@)
            &&& l.hyphen3 == hyphen3(p@)
        },
{
    let b = match rfind_byte(p, SLASH, p.len()) {
        Some(s) => s + 1,
        None => 0,
    };
    let h3 = match rfind_byte(p, HYPHEN, p.len()) {
        Some(h) => h,
        None => {
            return None;
        },
    };
    let h2 = match rfind_byte(p, HYPHEN, h3) {
        Some(h) => h,
        None => {
            return None;
        },
    };
    let h1 = match rfind_byte(p, HYPHEN, h2) {
        Some(h) => h,
        None => {
            return None;
        },
    };
    if !(b < h1 && h1 + 1 < h2 && h2 + 1 < h3) {
        return None;
    }
    if !all_digits(p, h2 + 1, h3) {
        return None;
    }
    let d = find_byte(p, DOT, h3 + 1);
    if !(h3 + 1 < d && d < p.len() && p.len() - d > 9) {
        return None;
    }
    if !marker_at(p, d) {
        return None;
    }
    Some(Layout { name_start: b, hyphen1: h1, hyphen3: h3 })
}

} // verus!
