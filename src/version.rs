//! Version strings: their segments and the order between them.
use std::cmp::Ordering;
use vstd::prelude::*;

verus! {

/// One run of a version string: a number, or a run of text.
pub enum Segment {
    Number(i32),
    Text(Vec<u8>),
}

/// What a segment holds, as a mathematical value.
pub enum SegmentView {
    Number(int),
    Text(Seq<u8>),
}

impl View for Segment {
    type V = SegmentView;

    open spec fn view(&self) -> SegmentView {
        match self {
            Segment::Number(n) => SegmentView::Number(*n as int),
            Segment::Text(t) => SegmentView::Text(t@),
        }
    }
}

/// The segments of a whole version, as values.
pub open spec fn segments_view(s: Seq<Segment>) -> Seq<SegmentView> {
    s.map_values(|x: Segment| x@)
}

/// The segments into which the version parser splits a version string, or
/// `None` where it does not accept the string.
pub uninterp spec fn version_segments_of(v: Seq<u8>) -> Option<Seq<SegmentView>>;

/// Relies on `version_compare::Version::from`, which splits a version string
/// into numeric and text parts and returns `None` where none of them is a
/// number; bytes that are not UTF-8 are not a version either.
#[verifier::external_body]
pub(crate) fn version_segments(v: &[u8]) -> (r: Option<Vec<Segment>>)
    ensures
        match r {
            Some(p) => version_segments_of(v@) == Some(segments_view(p@)),
            None => version_segments_of(v@) is None,
        },
{
    let s = std::str::from_utf8(v).ok()?;
    let parsed = version_compare::Version::from(s)?;
    Some(parsed.parts().iter().map(|p| match p {
        version_compare::Part::Number(n) => Segment::Number(*n),
        version_compare::Part::Text(t) => Segment::Text(t.as_bytes().to_vec()),
    }).collect())
}

/// Lexicographic order of two byte strings.
pub open spec fn cmp_bytes(s: Seq<u8>, t: Seq<u8>) -> Ordering
    decreases s.len(),
{
    if s.len() == 0 {
        if t.len() == 0 { Ordering::Equal } else { Ordering::Less }
    } else if t.len() == 0 {
        Ordering::Greater
    } else if s[0] < t[0] {
        Ordering::Less
    } else if s[0] > t[0] {
        Ordering::Greater
    } else {
        cmp_bytes(s.drop_first(), t.drop_first())
    }
}

/// Segment-wise order of two versions: numbers compare as numbers, text
/// lexically, and a version that extends another is the greater. A number
/// facing text makes the two incomparable, which counts as `Equal`.
pub open spec fn cmp_segments(a: Seq<SegmentView>, b: Seq<SegmentView>) -> Ordering
    decreases a.len(),
{
    if a.len() == 0 {
        if b.len() == 0 { Ordering::Equal } else { Ordering::Less }
    } else if b.len() == 0 {
        Ordering::Greater
    } else {
        match (a[0], b[0]) {
            (SegmentView::Number(x), SegmentView::Number(y)) =>
                if x < y {
                    Ordering::Less
                } else if x > y {
                    Ordering::Greater
                } else {
                    cmp_segments(a.drop_first(), b.drop_first())
                },
            (SegmentView::Text(s), SegmentView::Text(t)) =>
                if cmp_bytes(s, t) == Ordering::Equal {
                    cmp_segments(a.drop_first(), b.drop_first())
                } else {
                    cmp_bytes(s, t)
                },
            _ => Ordering::Equal,
        }
    }
}

proof fn lemma_cmp_bytes_step(s: Seq<u8>, t: Seq<u8>, i: int)
    requires
        0 <= i < s.len(),
        i < t.len(),
        s[i] == t[i],
    ensures
        cmp_bytes(s.skip(i), t.skip(i)) == cmp_bytes(s.skip(i + 1), t.skip(i + 1)),
{
    assert(s.skip(i).drop_first() =~= s.skip(i + 1));
    assert(t.skip(i).drop_first() =~= t.skip(i + 1));
}

/// Compares two byte strings lexicographically.
pub fn compare_bytes(s: &[u8], t: &[u8]) -> (r: Ordering)
    ensures
        r == cmp_bytes(s@, t@),
{
    let mut i: usize = 0;
    assert(s@.skip(0) =~= s@);
    assert(t@.skip(0) =~= t@);
    while i < s.len() && i < t.len()
        invariant
            i <= s@.len(),
            i <= t@.len(),
            cmp_bytes(s@, t@) == cmp_bytes(s@.skip(i as int), t@.skip(i as int)),
        decreases s@.len() - i,
    {
        if s[i] < t[i] {
            return Ordering::Less;
        } else if s[i] > t[i] {
            return Ordering::Greater;
        }
        proof {
            lemma_cmp_bytes_step(s@, t@, i as int);
        }
        i = i + 1;
    }
    if i < s.len() {
        Ordering::Greater
    } else if i < t.len() {
        Ordering::Less
    } else {
        Ordering::Equal
    }
}

proof fn lemma_cmp_segments_step(a: Seq<SegmentView>, b: Seq<SegmentView>, i: int)
    requires
        0 <= i < a.len(),
        i < b.len(),
    ensures
        a.skip(i).drop_first() =~= a.skip(i + 1),
        b.skip(i).drop_first() =~= b.skip(i + 1),
{
}

/// Compares two versions given by their segments.
pub fn compare_segments(a: &Vec<Segment>, b: &Vec<Segment>) -> (r: Ordering)
    ensures
        r == cmp_segments(segments_view(a@), segments_view(b@)),
{
    let ghost av = segments_view(a@);
    let ghost bv = segments_view(b@);
    let mut i: usize = 0;
    assert(av.skip(0) =~= av);
    assert(bv.skip(0) =~= bv);
    while i < a.len() && i < b.len()
        invariant
            i <= a@.len(),
            i <= b@.len(),
            av == segments_view(a@),
            bv == segments_view(b@),
            cmp_segments(av, bv) == cmp_segments(av.skip(i as int), bv.skip(i as int)),
        decreases a@.len() - i,
    {
        proof {
            lemma_cmp_segments_step(av, bv, i as int);
            assert(av.skip(i as int)[0] == a@[i as int]@);
            assert(bv.skip(i as int)[0] == b@[i as int]@);
        }
        match (&a[i], &b[i]) {
            (Segment::Number(x), Segment::Number(y)) => {
                if *x < *y {
                    return Ordering::Less;
                } else if *x > *y {
                    return Ordering::Greater;
                }
            },
            (Segment::Text(s), Segment::Text(t)) => {
                let o = compare_bytes(s.as_slice(), t.as_slice());
                assert(av.skip(i as int)[0] == SegmentView::Text(s@));
                assert(bv.skip(i as int)[0] == SegmentView::Text(t@));
                match o {
                    Ordering::Equal => {},
                    _ => {
                        return o;
                    },
                }
            },
            _ => {
                return Ordering::Equal;
            },
        }
        i = i + 1;
    }
    if i < a.len() {
        Ordering::Greater
    } else if i < b.len() {
        Ordering::Less
    } else {
        Ordering::Equal
    }
}

/// Whether every segment of a version is a number.
pub open spec fn all_numbers(a: Seq<SegmentView>) -> bool {
    forall|i: int| 0 <= i < a.len() ==> #[trigger] a[i] is Number
}

proof fn lemma_cmp_bytes_reflexive(s: Seq<u8>)
    ensures
        cmp_bytes(s, s) == Ordering::Equal,
    decreases s.len(),
{
    if s.len() > 0 {
        lemma_cmp_bytes_reflexive(s.drop_first());
    }
}

/// Every version compares `Equal` to itself.
pub proof fn lemma_compare_reflexive(a: Seq<SegmentView>)
    ensures
        cmp_segments(a, a) == Ordering::Equal,
    decreases a.len(),
{
    if a.len() > 0 {
        if let SegmentView::Text(s) = a[0] {
            lemma_cmp_bytes_reflexive(s);
        }
        lemma_compare_reflexive(a.drop_first());
    }
}

/// On versions made of numbers alone, swapping the two sides swaps `Less`
/// and `Greater`, and `Equal` means that the versions are the same.
pub proof fn lemma_compare_antisymmetric(a: Seq<SegmentView>, b: Seq<SegmentView>)
    requires
        all_numbers(a),
        all_numbers(b),
    ensures
        cmp_segments(a, b) == Ordering::Less <==> cmp_segments(b, a) == Ordering::Greater,
        cmp_segments(a, b) == Ordering::Equal <==> a == b,
    decreases a.len(),
{
    if a.len() > 0 && b.len() > 0 {
        assert(a[0] is Number && b[0] is Number);
        assert(all_numbers(a.drop_first()) && all_numbers(b.drop_first())) by {
            assert forall|i: int| 0 <= i < a.len() - 1 implies #[trigger] a.drop_first()[i] is Number by {
                assert(a[i + 1] is Number);
            }
            assert forall|i: int| 0 <= i < b.len() - 1 implies #[trigger] b.drop_first()[i] is Number by {
                assert(b[i + 1] is Number);
            }
        }
        lemma_compare_antisymmetric(a.drop_first(), b.drop_first());
        if a[0] == b[0] && a.drop_first() == b.drop_first() {
            assert(a =~= seq![a[0]] + a.drop_first());
            assert(b =~= seq![b[0]] + b.drop_first());
        }
        if a == b {
            assert(a.drop_first() == b.drop_first());
        }
    } else if a.len() == 0 && b.len() == 0 {
        assert(a =~= b);
    }
}

/// On versions made of numbers alone, `Less` is transitive.
pub proof fn lemma_compare_transitive(a: Seq<SegmentView>, b: Seq<SegmentView>, c: Seq<SegmentView>)
    requires
        all_numbers(a),
        all_numbers(b),
        all_numbers(c),
        cmp_segments(a, b) == Ordering::Less,
        cmp_segments(b, c) == Ordering::Less,
    ensures
        cmp_segments(a, c) == Ordering::Less,
    decreases a.len(),
{
    if a.len() > 0 && b.len() > 0 && c.len() > 0 {
        assert(a[0] is Number && b[0] is Number && c[0] is Number);
        if a[0] == b[0] && b[0] == c[0] {
            assert forall|i: int| 0 <= i < a.len() - 1 implies #[trigger] a.drop_first()[i] is Number by {
                assert(a[i + 1] is Number);
            }
            assert forall|i: int| 0 <= i < b.len() - 1 implies #[trigger] b.drop_first()[i] is Number by {
                assert(b[i + 1] is Number);
            }
            assert forall|i: int| 0 <= i < c.len() - 1 implies #[trigger] c.drop_first()[i] is Number by {
                assert(c[i + 1] is Number);
            }
            lemma_compare_transitive(a.drop_first(), b.drop_first(), c.drop_first());
        }
    }
}


/// Swapping the two sides of a byte comparison swaps `Less` and `Greater`.
pub proof fn lemma_cmp_bytes_antisymmetric(s: Seq<u8>, t: Seq<u8>)
    ensures
        cmp_bytes(s, t) == Ordering::Less <==> cmp_bytes(t, s) == Ordering::Greater,
        cmp_bytes(s, t) == Ordering::Equal <==> cmp_bytes(t, s) == Ordering::Equal,
    decreases s.len(),
{
    if s.len() > 0 && t.len() > 0 && s[0] == t[0] {
        lemma_cmp_bytes_antisymmetric(s.drop_first(), t.drop_first());
    }
}

/// Byte comparison never says `Greater` twice in a row the wrong way:
/// `s <= t` and `t <= u` give `s <= u`.
pub proof fn lemma_cmp_bytes_transitive(s: Seq<u8>, t: Seq<u8>, u: Seq<u8>)
    requires
        cmp_bytes(s, t) != Ordering::Greater,
        cmp_bytes(t, u) != Ordering::Greater,
    ensures
        cmp_bytes(s, u) != Ordering::Greater,
    decreases s.len(),
{
    if s.len() > 0 && t.len() > 0 && u.len() > 0 && s[0] == t[0] && t[0] == u[0] {
        lemma_cmp_bytes_transitive(s.drop_first(), t.drop_first(), u.drop_first());
    }
}

/// Byte strings that compare `Equal` are the same.
pub proof fn lemma_cmp_bytes_equal(s: Seq<u8>, t: Seq<u8>)
    ensures
        cmp_bytes(s, t) == Ordering::Equal <==> s == t,
    decreases s.len(),
{
    lemma_cmp_bytes_reflexive(s);
    if s.len() > 0 && t.len() > 0 && s[0] == t[0] {
        lemma_cmp_bytes_equal(s.drop_first(), t.drop_first());
        if s.drop_first() == t.drop_first() {
            assert(s =~= seq![s[0]] + s.drop_first());
            assert(t =~= seq![t[0]] + t.drop_first());
        }
    } else if s.len() == 0 && t.len() == 0 {
        assert(s =~= t);
    }
}

/// `Less` is transitive on all versions: only `Equal`, which also stands
/// for incomparable versions, is not.
pub proof fn lemma_compare_less_transitive(
    a: Seq<SegmentView>,
    b: Seq<SegmentView>,
    c: Seq<SegmentView>,
)
    requires
        cmp_segments(a, b) == Ordering::Less,
        cmp_segments(b, c) == Ordering::Less,
    ensures
        cmp_segments(a, c) == Ordering::Less,
    decreases a.len(),
{
    if a.len() > 0 && b.len() > 0 && c.len() > 0 {
        match (a[0], b[0], c[0]) {
            (SegmentView::Number(x), SegmentView::Number(y), SegmentView::Number(z)) => {
                if x == y && y == z {
                    lemma_compare_less_transitive(a.drop_first(), b.drop_first(), c.drop_first());
                }
            },
            (SegmentView::Text(x), SegmentView::Text(y), SegmentView::Text(z)) => {
                lemma_cmp_bytes_equal(x, y);
                lemma_cmp_bytes_equal(y, z);
                lemma_cmp_bytes_equal(x, z);
                if x == y && y == z {
                    lemma_compare_less_transitive(a.drop_first(), b.drop_first(), c.drop_first());
                } else {
                    lemma_cmp_bytes_transitive(x, y, z);
                    lemma_cmp_bytes_antisymmetric(x, y);
                    lemma_cmp_bytes_antisymmetric(y, z);
                }
            },
            _ => {},
        }
    }
}

/// Swapping the two sides of any comparison swaps `Less` and `Greater`.
pub proof fn lemma_compare_flip(a: Seq<SegmentView>, b: Seq<SegmentView>)
    ensures
        cmp_segments(a, b) == Ordering::Less <==> cmp_segments(b, a) == Ordering::Greater,
    decreases a.len(),
{
    if a.len() > 0 && b.len() > 0 {
        match (a[0], b[0]) {
            (SegmentView::Number(x), SegmentView::Number(y)) => {
                lemma_compare_flip(a.drop_first(), b.drop_first());
            },
            (SegmentView::Text(x), SegmentView::Text(y)) => {
                lemma_cmp_bytes_antisymmetric(x, y);
                lemma_compare_flip(a.drop_first(), b.drop_first());
            },
            _ => {},
        }
    }
}

} // verus!
