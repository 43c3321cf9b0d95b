//! Settling the groups whose candidates could not be ordered.
use std::cmp::Ordering;
use vstd::multiset::Multiset;
use vstd::prelude::*;
use crate::filename::is_digit;
use crate::options::AutoConfirmLevel;
use crate::package::{copy_range, Package};
use crate::resolve::{paths_ms, PackageGroup};
use crate::version::{
    cmp_bytes, compare_bytes, lemma_cmp_bytes_antisymmetric, lemma_cmp_bytes_transitive,
};

verus! {

/// What the operator decided for one group.
#[derive(PartialEq, Eq, Structural, Clone, Copy, Debug)]
pub enum Choice {
    /// Keep every candidate.
    KeepAll,
    /// Keep the candidate at this index, remove the others.
    Keep(usize),
    /// Leave every candidate alone, neither kept nor removed.
    IgnoreAll,
}

/// Whether the versions of `s` come in descending byte order.
pub open spec fn sorted_desc(s: Seq<Package>) -> bool {
    forall|i: int, j: int|
        0 <= i < j < s.len() ==> cmp_bytes(#[trigger] s[j].version@, #[trigger] s[i].version@)
            != Ordering::Greater
}

proof fn lemma_paths_ms_insert(s: Seq<Package>, k: int, x: Package)
    requires
        0 <= k <= s.len(),
    ensures
        paths_ms(s.insert(k, x)) == paths_ms(s).insert(x.path@),
    decreases s.len(),
{
    if k == s.len() {
        assert(s.insert(k, x).drop_last() =~= s);
    } else {
        lemma_paths_ms_insert(s.drop_last(), k, x);
        assert(s.insert(k, x).drop_last() =~= s.drop_last().insert(k, x));
        assert(s.insert(k, x).last() == s.last());
        assert(paths_ms(s.insert(k, x)) =~= paths_ms(s).insert(x.path@));
    }
}

/// Puts `x` into the sorted `v` before the first version that is smaller.
fn insert_sorted(v: &mut Vec<Package>, x: Package)
    requires
        sorted_desc(old(v)@),
    ensures
        sorted_desc(final(v)@),
        exists|k: int| 0 <= k <= old(v)@.len() && final(v)@ == old(v)@.insert(k, x),
{
    let mut k: usize = 0;
    let mut stop = false;
    while k < v.len() && !stop
        invariant
            k <= v@.len(),
            sorted_desc(v@),
            forall|i: int| 0 <= i < k ==> cmp_bytes(x.version@, #[trigger] v@[i].version@)
                != Ordering::Greater,
            stop ==> k < v@.len() && cmp_bytes(x.version@, v@[k as int].version@)
                == Ordering::Greater,
        decreases v@.len() - k + (if stop { 0int } else { 1int }),
    {
        match compare_bytes(x.version.as_slice(), v[k].version.as_slice()) {
            Ordering::Greater => {
                stop = true;
            },
            _ => {
                k = k + 1;
            },
        }
    }
    let ghost v0 = v@;
    proof {
        if k < v0.len() {
            lemma_cmp_bytes_antisymmetric(x.version@, v0[k as int].version@);
            assert forall|j: int| k <= j < v0.len() implies cmp_bytes(
                #[trigger] v0[j].version@,
                x.version@,
            ) != Ordering::Greater by {
                if j > k {
                    lemma_cmp_bytes_transitive(
                        v0[j].version@,
                        v0[k as int].version@,
                        x.version@,
                    );
                }
            }
        }
    }
    v.insert(k, x);
    proof {
        let n = v@;
        assert forall|i: int, j: int| 0 <= i < j < n.len() implies cmp_bytes(
            #[trigger] n[j].version@,
            #[trigger] n[i].version@,
        ) != Ordering::Greater by {
            if i == k {
                assert(n[j] == v0[j - 1]);
            } else if j == k {
                assert(n[i] == v0[i]);
                lemma_cmp_bytes_antisymmetric(x.version@, v0[i].version@);
            } else {
                let a = if i < k { i } else { i - 1 };
                let b = if j < k { j } else { j - 1 };
                assert(n[i] == v0[a] && n[j] == v0[b]);
            }
        }
    }
}

/// The candidates of a group, best and ambiguous alike, by version string in
/// descending byte order: the order in which they are shown and numbered.
pub fn candidates(group: PackageGroup) -> (r: Vec<Package>)
    ensures
        sorted_desc(r@),
        paths_ms(r@) == group.paths(),
        r@.len() == group.ambiguous@.len() + 1,
        forall|i: int|
            0 <= i < r@.len() ==> #[trigger] r@[i] == group.best || group.ambiguous@.contains(
                r@[i],
            ),
{
    let PackageGroup { best, ambiguous } = group;
    let ghost amb = ambiguous@;
    let mut src = ambiguous;
    src.push(best);
    let ghost all = src@;
    assert(all.drop_last() =~= amb);
    let mut r: Vec<Package> = Vec::new();
    while src.len() > 0
        invariant
            all == amb.push(group.best),
            src@ == all.take(src@.len() as int),
            src@.len() <= all.len(),
            sorted_desc(r@),
            r@.len() + src@.len() == all.len(),
            paths_ms(r@).add(paths_ms(src@)) == paths_ms(all),
            forall|i: int| 0 <= i < r@.len() ==> all.contains(#[trigger] r@[i]),
        decreases src@.len(),
    {
        let x = src.pop().unwrap();
        let ghost r0 = r@;
        proof {
            assert(src@ =~= all.take(src@.len() as int));
            assert(all[src@.len() as int] == x);
        }
        insert_sorted(&mut r, x);
        proof {
            let k = choose|k: int| 0 <= k <= r0.len() && r@ == r0.insert(k, x);
            lemma_paths_ms_insert(r0, k, x);
            assert forall|i: int| 0 <= i < r@.len() implies all.contains(#[trigger] r@[i]) by {
                if i < k {
                    assert(r@[i] == r0[i]);
                } else if i > k {
                    assert(r@[i] == r0[i - 1]);
                } else {
                    assert(all[src@.len() as int] == x);
                }
            }
        }
    }
    proof {
        assert(paths_ms(src@) =~= Multiset::empty());
        assert forall|i: int| 0 <= i < r@.len() implies #[trigger] r@[i] == group.best
            || group.ambiguous@.contains(r@[i]) by {
            let k = choose|k: int| 0 <= k < all.len() && all[k] == r@[i];
            if k < amb.len() {
                assert(amb[k] == r@[i]);
            }
        }
    }
    r
}


/// The number that a string of decimal digits writes.
pub open spec fn decimal_value(s: Seq<u8>) -> nat
    decreases s.len(),
{
    if s.len() == 0 {
        0
    } else {
        decimal_value(s.drop_last()) * 10 + (s.last() - 48) as nat
    }
}

/// What an answer line, without its line terminator, means when `count`
/// candidates are listed: empty is the first, `i` ignores the group, an index
/// below `count`, with or without a leading `+`, keeps that candidate, and
/// anything else is asked again.
pub open spec fn answer_of(s: Seq<u8>, count: nat) -> Option<Choice> {
    let digits = answer_digits(s);
    if s.len() == 0 {
        Some(Choice::Keep(0))
    } else if s == seq![105u8] {
        Some(Choice::IgnoreAll)
    } else if (forall|i: int| 0 <= i < digits.len() ==> is_digit(#[trigger] digits[i]))
        && decimal_value(digits) < count {
        Some(Choice::Keep(decimal_value(digits) as usize))
    } else {
        None
    }
}

/// The digits of an answer: all of it, or what follows a leading `+`.
pub open spec fn answer_digits(s: Seq<u8>) -> Seq<u8> {
    if s.len() > 1 && s[0] == 43 {
        s.drop_first()
    } else {
        s
    }
}

/// Reads the decimal number that `s` holds from `start` on, if it is below `count`.
fn read_index(s: &[u8], start: usize, count: usize) -> (r: Option<usize>)
    requires
        start <= s@.len(),
    ensures
        ({
            let d = s@.skip(start as int);
            r == if (forall|i: int| 0 <= i < d.len() ==> is_digit(#[trigger] d[i]))
                && decimal_value(d) < count {
                Some(decimal_value(d) as usize)
            } else {
                None::<usize>
            }
        }),
{
    let ghost d = s@.skip(start as int);
    let mut v: usize = 0;
    let mut big = count == 0;
    let mut i: usize = 0;
    assert(d.take(0) =~= Seq::<u8>::empty());
    while i < s.len() - start
        invariant
            start <= s@.len(),
            start + i <= s@.len(),
            d == s@.skip(start as int),
            forall|j: int| 0 <= j < i ==> is_digit(#[trigger] d[j]),
            big ==> decimal_value(d.take(i as int)) >= count,
            !big ==> v == decimal_value(d.take(i as int)) && v < count,
        decreases s@.len() - start - i,
    {
        let c = s[start + i];
        assert(d[i as int] == c);
        if c < 48 || c > 57 {
            assert(!is_digit(d[i as int]));
            return None;
        }
        let dg = (c - 48) as usize;
        let ghost pre = d.take(i as int);
        assert(d.take(i + 1).drop_last() =~= pre);
        assert(decimal_value(d.take(i + 1)) == decimal_value(pre) * 10 + dg);
        if !big {
            if v <= (usize::MAX - dg) / 10 {
                assert(v * 10 + dg <= usize::MAX) by (nonlinear_arith)
                    requires
                        v <= (usize::MAX - dg) / 10,
                        dg <= 9,
                ;
                let nv = v * 10 + dg;
                if nv >= count {
                    big = true;
                } else {
                    v = nv;
                }
            } else {
                assert(v * 10 + dg > usize::MAX) by (nonlinear_arith)
                    requires
                        v > (usize::MAX - dg) / 10,
                        dg <= 9,
                ;
                big = true;
            }
        } else {
            assert(decimal_value(pre) * 10 + dg >= decimal_value(pre)) by (nonlinear_arith);
        }
        i = i + 1;
    }
    assert(d.take(i as int) =~= d);
    if big {
        None
    } else {
        Some(v)
    }
}

/// Reads the operator's answer to the question which candidate to keep.
pub fn parse_answer(line: &[u8], count: usize) -> (r: Option<Choice>)
    ensures
        r == answer_of(line@, count as nat),
{
    if line.len() == 0 {
        return Some(Choice::Keep(0));
    }
    if line.len() == 1 && line[0] == 105 {
        assert(line@ =~= seq![105u8]);
        return Some(Choice::IgnoreAll);
    }
    assert(line@ != seq![105u8]) by {
        if line@ == seq![105u8] {
            assert(line@.len() == 1 && line@[0] == 105);
        }
    }
    let start: usize = if line.len() > 1 && line[0] == 43 {
        1
    } else {
        0
    };
    assert(line@.skip(start as int) =~= answer_digits(line@));
    match read_index(line, start, count) {
        Some(k) => Some(Choice::Keep(k)),
        None => None,
    }
}

/// Where the candidates of one group go.
pub struct Settlement {
    pub kept: Vec<Vec<u8>>,
    pub removed: Vec<Vec<u8>>,
    pub ignored: Vec<Vec<u8>>,
}

/// The paths of a sequence of packages, in order.
pub open spec fn path_seq(s: Seq<Package>) -> Seq<Seq<u8>> {
    s.map_values(|p: Package| p.path@)
}

/// The values of byte strings.
pub open spec fn byte_views(s: Seq<Vec<u8>>) -> Seq<Seq<u8>> {
    s.map_values(|v: Vec<u8>| v@)
}

/// The paths of `cands`, in order, but the one at `skip`.
fn paths_but(cands: &Vec<Package>, skip: Option<usize>) -> (r: Vec<Vec<u8>>)
    ensures
        byte_views(r@) == match skip {
            Some(k) => if k < cands@.len() {
                path_seq(cands@).remove(k as int)
            } else {
                path_seq(cands@)
            },
            None => path_seq(cands@),
        },
{
    let ghost ps = path_seq(cands@);
    let ghost target = match skip {
        Some(k) => if k < cands@.len() {
            ps.remove(k as int)
        } else {
            ps
        },
        None => ps,
    };
    let mut r: Vec<Vec<u8>> = Vec::new();
    let mut i: usize = 0;
    while i < cands.len()
        invariant
            i <= cands@.len(),
            ps == path_seq(cands@),
            byte_views(r@) == match skip {
                Some(k) => if k < i {
                    ps.take(i as int).remove(k as int)
                } else {
                    ps.take(i as int)
                },
                None => ps.take(i as int),
            },
        decreases cands@.len() - i,
    {
        let ghost r0 = byte_views(r@);
        let is_skipped = match skip {
            Some(k) => k == i,
            None => false,
        };
        if !is_skipped {
            let p = copy_range(cands[i].path.as_slice(), 0, cands[i].path.len());
            r.push(p);
            proof {
                assert(cands@[i as int].path@.subrange(0, cands@[i as int].path@.len() as int)
                    =~= cands@[i as int].path@);
                assert(byte_views(r@) =~= r0.push(ps[i as int]));
            }
        }
        proof {
            match skip {
                Some(k) => {
                    if k < i {
                        assert(ps.take(i + 1).remove(k as int) =~= ps.take(i as int).remove(
                            k as int,
                        ).push(ps[i as int]));
                    } else if k == i {
                        assert(ps.take(i + 1).remove(k as int) =~= ps.take(i as int));
                    } else {
                        assert(ps.take(i + 1) =~= ps.take(i as int).push(ps[i as int]));
                    }
                },
                None => {
                    assert(ps.take(i + 1) =~= ps.take(i as int).push(ps[i as int]));
                },
            }
        }
        i = i + 1;
    }
    assert(ps.take(i as int) =~= ps);
    r
}

/// Settles the sorted candidates of one group. Below the level at which the
/// operator settles ambiguities, and for a group of one, all are kept;
/// otherwise the operator's choice decides: the chosen one is kept and the
/// others removed, or all are kept, or all are ignored.
pub fn settle(cands: &Vec<Package>, level: AutoConfirmLevel, choice: Choice) -> (r: Settlement)
    requires
        choice matches Choice::Keep(k) ==> k < cands@.len(),
    ensures
        ({
            let ps = path_seq(cands@);
            let asked = cands@.len() > 1 && (level == AutoConfirmLevel::Ambiguities || level
                == AutoConfirmLevel::Everything);
            if !asked || choice == Choice::KeepAll {
                &&& byte_views(r.kept@) == ps
                &&& r.removed@.len() == 0
                &&& r.ignored@.len() == 0
            } else if let Choice::Keep(k) = choice {
                &&& byte_views(r.kept@) == seq![ps[k as int]]
                &&& byte_views(r.removed@) == ps.remove(k as int)
                &&& r.ignored@.len() == 0
            } else {
                &&& r.kept@.len() == 0
                &&& r.removed@.len() == 0
                &&& byte_views(r.ignored@) == ps
            }
        }),
{
    let asked = cands.len() > 1 && level.is_at_least_ambiguities();
    if !asked {
        return Settlement { kept: paths_but(cands, None), removed: Vec::new(), ignored: Vec::new() };
    }
    match choice {
        Choice::KeepAll => Settlement {
            kept: paths_but(cands, None),
            removed: Vec::new(),
            ignored: Vec::new(),
        },
        Choice::Keep(k) => {
            let p = copy_range(cands[k].path.as_slice(), 0, cands[k].path.len());
            let ghost pv = p@;
            let kept = vec![p];
            proof {
                assert(cands@[k as int].path@.subrange(0, cands@[k as int].path@.len() as int)
                    =~= cands@[k as int].path@);
                assert(byte_views(kept@) =~= seq![path_seq(cands@)[k as int]]);
            }
            Settlement { kept, removed: paths_but(cands, Some(k)), ignored: Vec::new() }
        },
        Choice::IgnoreAll => Settlement {
            kept: Vec::new(),
            removed: Vec::new(),
            ignored: paths_but(cands, None),
        },
    }
}

} // verus!
