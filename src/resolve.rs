//! Grouping packages by name, keeping the best version of each.
use std::cmp::Ordering;
use vstd::multiset::Multiset;
use vstd::prelude::*;
use crate::filename::{follows_convention, is_signature, is_signature_path, name_of, version_of};
use crate::package::{copy_range, Package};
use crate::version::{
    all_numbers, cmp_segments, lemma_compare_antisymmetric, lemma_compare_flip,
    lemma_compare_less_transitive, lemma_compare_reflexive, lemma_compare_transitive, version_segments_of, SegmentView,
};

verus! {

/// The candidates of one package name: the best version seen so far, and
/// those that could not be ordered below it.
pub struct PackageGroup {
    pub best: Package,
    pub ambiguous: Vec<Package>,
}

/// The paths of a sequence of packages, counted.
pub open spec fn paths_ms(s: Seq<Package>) -> Multiset<Seq<u8>>
    decreases s.len(),
{
    if s.len() == 0 {
        Multiset::empty()
    } else {
        paths_ms(s.drop_last()).insert(s.last().path@)
    }
}

/// Whether `q` is dropped for good when `p` has become the best version: it
/// is older, and not every version is to be reviewed.
pub open spec fn loses_to(q: Package, p: Package, review_all: bool) -> bool {
    cmp_segments(q.segs(), p.segs()) == Ordering::Less && !review_all
}

impl PackageGroup {
    /// The paths of all candidates of the group.
    pub open spec fn paths(&self) -> Multiset<Seq<u8>> {
        paths_ms(self.ambiguous@).insert(self.best.path@)
    }

    /// Every candidate is a parsed package of the group's name.
    pub open spec fn wf(&self) -> bool {
        &&& self.best.wf()
        &&& forall|i: int|
            0 <= i < self.ambiguous@.len() ==> (#[trigger] self.ambiguous@[i]).wf()
                && self.ambiguous@[i].name@ == self.best.name@
    }

    /// A group holding one package.
    pub fn new(p: Package) -> (r: PackageGroup)
        ensures
            r.best == p,
            r.ambiguous@ == Seq::<Package>::empty(),
    {
        PackageGroup { best: p, ambiguous: Vec::new() }
    }

    /// The paths of the ambiguous candidates whose version compares `Greater`
    /// than the best one: the order-violating candidates, which a promotion
    /// left ambiguous rather than dropping or promoting them.
    pub fn outranking(&self) -> (r: Vec<Vec<u8>>)
        ensures
            views(r@) == self.ambiguous@.filter(
                |q: Package| cmp_segments(q.segs(), self.best.segs()) == Ordering::Greater,
            ).map_values(|q: Package| q.path@),
    {
        let ghost f = |q: Package| cmp_segments(q.segs(), self.best.segs()) == Ordering::Greater;
        let ghost amb = self.ambiguous@;
        let mut r: Vec<Vec<u8>> = Vec::new();
        let mut i: usize = 0;
        assert(amb.take(0) =~= Seq::<Package>::empty());
        while i < self.ambiguous.len()
            invariant
                i <= amb.len(),
                amb == self.ambiguous@,
                f == (|q: Package| cmp_segments(q.segs(), self.best.segs()) == Ordering::Greater),
                views(r@) == amb.take(i as int).filter(f).map_values(|q: Package| q.path@),
            decreases amb.len() - i,
        {
            let ghost r0 = views(r@);
            assert(amb.take(i + 1).drop_last() =~= amb.take(i as int));
            reveal(Seq::filter);
            let q = &self.ambiguous[i];
            match Package::compare_versions(q, &self.best) {
                Ordering::Greater => {
                    r.push(copy_range(q.path.as_slice(), 0, q.path.len()));
                    assert(q.path@.subrange(0, q.path@.len() as int) =~= q.path@);
                    assert(amb.take(i + 1).filter(f) =~= amb.take(i as int).filter(f).push(*q));
                    assert(views(r@) =~= r0.push(q.path@));
                    assert(views(r@) =~= amb.take(i + 1).filter(f).map_values(|q: Package| q.path@));
                },
                _ => {
                    assert(amb.take(i + 1).filter(f) =~= amb.take(i as int).filter(f));
                },
            }
            i = i + 1;
        }
        assert(amb.take(i as int) =~= amb);
        r
    }

    /// Whether some candidate could not be ordered below the best one.
    pub fn has_ambs(&self) -> (r: bool)
        ensures
            r == (self.ambiguous@.len() > 0),
    {
        self.ambiguous.len() > 0
    }
}

/// Adds package `p` to a group. A newer `p` becomes the best version, and the
/// former best and ambiguous candidates are compared with it again: an older
/// one is dropped, any other stays ambiguous. An older `p` is dropped, an
/// equal one is ambiguous. Under `review_all` nothing is dropped. Returns the
/// new group and the dropped packages.
pub fn resolve_insert(group: PackageGroup, p: Package, review_all: bool) -> (r: (
    PackageGroup,
    Vec<Package>,
))
    ensures
        ({
            let (g, dropped) = r;
            match cmp_segments(p.segs(), group.best.segs()) {
                Ordering::Greater => {
                    &&& g.best == p
                    &&& paths_ms(g.ambiguous@).add(paths_ms(dropped@)) == group.paths()
                    &&& forall|i: int|
                        0 <= i < g.ambiguous@.len() ==> {
                            &&& !loses_to(#[trigger] g.ambiguous@[i], p, review_all)
                            &&& (g.ambiguous@[i] == group.best || group.ambiguous@.contains(
                                g.ambiguous@[i],
                            ))
                        }
                    &&& forall|i: int|
                        0 <= i < dropped@.len() ==> {
                            &&& loses_to(#[trigger] dropped@[i], p, review_all)
                            &&& (dropped@[i] == group.best || group.ambiguous@.contains(
                                dropped@[i],
                            ))
                        }
                },
                Ordering::Less => {
                    &&& g.best == group.best
                    &&& if review_all {
                        g.ambiguous@ == group.ambiguous@.push(p) && dropped@.len() == 0
                    } else {
                        g.ambiguous@ == group.ambiguous@ && dropped@ == seq![p]
                    }
                },
                Ordering::Equal => {
                    &&& g.best == group.best
                    &&& g.ambiguous@ == group.ambiguous@.push(p)
                    &&& dropped@.len() == 0
                },
            }
        }),
{
    let PackageGroup { best, ambiguous } = group;
    let ghost old_amb = ambiguous@;
    let ghost old_best = best;
    match Package::compare_versions(&p, &best) {
        Ordering::Greater => {
            let mut amb: Vec<Package> = Vec::new();
            let mut dropped: Vec<Package> = Vec::new();
            let mut rest = ambiguous;
            rest.push(best);
            let ghost all = rest@;
            assert(paths_ms(all) == paths_ms(old_amb).insert(old_best.path@)) by {
                assert(all.drop_last() =~= old_amb);
            }
            while rest.len() > 0
                invariant
                    all.len() == old_amb.len() + 1,
                    all == old_amb.push(old_best),
                    rest@ == all.take(rest@.len() as int),
                    rest@.len() <= all.len(),
                    paths_ms(amb@).add(paths_ms(dropped@)).add(paths_ms(rest@)) == paths_ms(all),
                    forall|i: int|
                        0 <= i < amb@.len() ==> {
                            &&& !loses_to(#[trigger] amb@[i], p, review_all)
                            &&& all.contains(amb@[i])
                        },
                    forall|i: int|
                        0 <= i < dropped@.len() ==> {
                            &&& loses_to(#[trigger] dropped@[i], p, review_all)
                            &&& all.contains(dropped@[i])
                        },
                decreases rest@.len(),
            {
                let q = rest.pop().unwrap();
                proof {
                    assert(rest@ =~= all.take(rest@.len() as int));
                    assert(all[rest@.len() as int] == q);
                }
                let o = Package::compare_versions(&q, &p);
                let lose = match o {
                    Ordering::Less => !review_all,
                    _ => false,
                };
                let ghost d0 = dropped@;
                let ghost a0 = amb@;
                if lose {
                    dropped.push(q);
                    proof {
                        assert(dropped@.drop_last() =~= d0);
                    }
                } else {
                    amb.push(q);
                    proof {
                        assert(amb@.drop_last() =~= a0);
                    }
                }
            }
            proof {
                assert forall|i: int| 0 <= i < amb@.len() implies (amb@[i] == old_best
                    || old_amb.contains(amb@[i])) by {
                    let k = choose|k: int| 0 <= k < all.len() && all[k] == amb@[i];
                    if k < old_amb.len() {
                        assert(old_amb[k] == amb@[i]);
                    }
                }
                assert forall|i: int| 0 <= i < dropped@.len() implies (dropped@[i] == old_best
                    || old_amb.contains(dropped@[i])) by {
                    let k = choose|k: int| 0 <= k < all.len() && all[k] == dropped@[i];
                    if k < old_amb.len() {
                        assert(old_amb[k] == dropped@[i]);
                    }
                }
            }
            (PackageGroup { best: p, ambiguous: amb }, dropped)
        },
        Ordering::Less => {
            if review_all {
                let mut amb = ambiguous;
                amb.push(p);
                (PackageGroup { best, ambiguous: amb }, Vec::new())
            } else {
                (PackageGroup { best, ambiguous }, vec![p])
            }
        },
        Ordering::Equal => {
            let mut amb = ambiguous;
            amb.push(p);
            (PackageGroup { best, ambiguous: amb }, Vec::new())
        },
    }
}


/// Whether a path is taken as a package: it is no signature file, follows
/// the naming convention, and its version parses.
pub open spec fn parses(p: Seq<u8>) -> bool {
    &&& !is_signature(p)
    &&& follows_convention(p)
    &&& version_segments_of(version_of(p)) is Some
}

/// The segments of the version of a path that parses.
pub open spec fn segs_of(p: Seq<u8>) -> Seq<SegmentView> {
    version_segments_of(version_of(p))->Some_0
}

/// The paths among `s` that are taken as packages, counted.
pub open spec fn package_paths(s: Seq<Seq<u8>>) -> Multiset<Seq<u8>>
    decreases s.len(),
{
    if s.len() == 0 {
        Multiset::empty()
    } else if parses(s.last()) {
        package_paths(s.drop_last()).insert(s.last())
    } else {
        package_paths(s.drop_last())
    }
}

/// The paths among `s`, in order, that are neither signature files nor packages.
pub open spec fn unparsed_paths(s: Seq<Seq<u8>>) -> Seq<Seq<u8>>
    decreases s.len(),
{
    if s.len() == 0 {
        Seq::empty()
    } else if !is_signature(s.last()) && !parses(s.last()) {
        unparsed_paths(s.drop_last()).push(s.last())
    } else {
        unparsed_paths(s.drop_last())
    }
}

/// The signature files among `s`, in order.
pub open spec fn signature_paths(s: Seq<Seq<u8>>) -> Seq<Seq<u8>>
    decreases s.len(),
{
    if s.len() == 0 {
        Seq::empty()
    } else if is_signature(s.last()) {
        signature_paths(s.drop_last()).push(s.last())
    } else {
        signature_paths(s.drop_last())
    }
}

/// The paths of all candidates of all groups, counted.
pub open spec fn groups_ms(gs: Seq<PackageGroup>) -> Multiset<Seq<u8>>
    decreases gs.len(),
{
    if gs.len() == 0 {
        Multiset::empty()
    } else {
        groups_ms(gs.drop_last()).add(gs.last().paths())
    }
}

/// Byte strings, counted.
pub open spec fn bytes_ms(s: Seq<Vec<u8>>) -> Multiset<Seq<u8>>
    decreases s.len(),
{
    if s.len() == 0 {
        Multiset::empty()
    } else {
        bytes_ms(s.drop_last()).insert(s.last()@)
    }
}

/// The values of byte strings.
pub open spec fn views(s: Seq<Vec<u8>>) -> Seq<Seq<u8>> {
    s.map_values(|v: Vec<u8>| v@)
}

/// Whether two entries of `s` are the same path.
pub open spec fn has_duplicate(s: Seq<Seq<u8>>) -> bool {
    exists|i: int, j: int| 0 <= i < j < s.len() && s[i] == s[j]
}

/// No two packages of one name among `s` have versions that compare
/// `Equal`, and all their versions are made of numbers.
pub open spec fn no_ties(s: Seq<Seq<u8>>) -> bool {
    forall|i: int, j: int|
        #![trigger s[i], s[j]]
        0 <= i < s.len() && 0 <= j < s.len() && i != j && parses(s[i]) && parses(s[j])
            && name_of(s[i]) == name_of(s[j]) ==> {
            &&& all_numbers(segs_of(s[i]))
            &&& cmp_segments(segs_of(s[i]), segs_of(s[j])) != Ordering::Equal
        }
}

/// What sorting the paths of a directory gives before any operator decision.
pub struct Resolution {
    /// One group per package name.
    pub groups: Vec<PackageGroup>,
    /// Packages that a newer version of the same name supersedes.
    pub removed: Vec<Vec<u8>>,
    /// Paths that are not packages.
    pub ignored: Vec<Vec<u8>>,
    /// Signature files, to be matched to their packages at the end.
    pub signatures: Vec<Vec<u8>>,
}

/// The error of a run that met one path twice.
pub enum ResolveError {
    DuplicatePath(Vec<u8>),
}

proof fn lemma_groups_ms_remove(gs: Seq<PackageGroup>, j: int)
    requires
        0 <= j < gs.len(),
    ensures
        groups_ms(gs) == groups_ms(gs.remove(j)).add(gs[j].paths()),
    decreases gs.len(),
{
    if j == gs.len() - 1 {
        assert(gs.remove(j) =~= gs.drop_last());
    } else {
        lemma_groups_ms_remove(gs.drop_last(), j);
        assert(gs.remove(j).drop_last() =~= gs.drop_last().remove(j));
        assert(gs.remove(j).last() == gs.last());
        assert(groups_ms(gs) =~= groups_ms(gs.remove(j)).add(gs[j].paths()));
    }
}

proof fn lemma_groups_ms_contains(gs: Seq<PackageGroup>, j: int)
    requires
        0 <= j < gs.len(),
    ensures
        groups_ms(gs).contains(gs[j].best.path@),
{
    lemma_groups_ms_remove(gs, j);
}

proof fn lemma_package_paths_contains(s: Seq<Seq<u8>>, x: Seq<u8>)
    requires
        package_paths(s).contains(x),
    ensures
        exists|k: int| 0 <= k < s.len() && s[k] == x && parses(x),
    decreases s.len(),
{
    if s.len() > 0 {
        if parses(s.last()) && s.last() == x {
            assert(s[s.len() - 1] == x);
        } else {
            lemma_package_paths_contains(s.drop_last(), x);
            let k = choose|k: int| 0 <= k < s.len() - 1 && s.drop_last()[k] == x && parses(x);
            assert(s[k] == x);
        }
    }
}

proof fn lemma_package_paths_count(s: Seq<Seq<u8>>, k: int)
    requires
        0 <= k < s.len(),
        parses(s[k]),
        !has_duplicate(s),
    ensures
        package_paths(s).count(s[k]) == 1,
    decreases s.len(),
{
    let x = s[k];
    let init = s.drop_last();
    assert(!has_duplicate(init)) by {
        if has_duplicate(init) {
            let (i, j) = choose|i: int, j: int| 0 <= i < j < init.len() && init[i] == init[j];
            assert(s[i] == s[j]);
        }
    }
    if k == s.len() - 1 {
        if package_paths(init).count(x) > 0 {
            lemma_package_paths_contains(init, x);
            let i = choose|i: int| 0 <= i < init.len() && init[i] == x && parses(x);
            assert(s[i] == s[k]);
        }
    } else {
        assert(init[k] == x);
        lemma_package_paths_count(init, k);
        assert(s.last() != x) by {
            assert(s[s.len() - 1] == s.last());
        }
    }
}

proof fn lemma_groups_ms_bests(gs: Seq<PackageGroup>, x: Seq<u8>)
    requires
        forall|a: int| 0 <= a < gs.len() ==> (#[trigger] gs[a]).ambiguous@.len() == 0,
    ensures
        groups_ms(gs).count(x) > 0 <==> exists|a: int| 0 <= a < gs.len() && (#[trigger] gs[a]).best.path@ == x,
    decreases gs.len(),
{
    if gs.len() > 0 {
        let init = gs.drop_last();
        assert forall|a: int| 0 <= a < init.len() implies (#[trigger] init[a]).ambiguous@.len() == 0 by {
            assert(init[a] == gs[a]);
        }
        lemma_groups_ms_bests(init, x);
        let g = gs.last();
        assert(gs[gs.len() - 1] == g);
        assert(g.ambiguous@ =~= Seq::<Package>::empty());
        assert(paths_ms(g.ambiguous@) =~= Multiset::empty());
        if exists|a: int| 0 <= a < gs.len() && (#[trigger] gs[a]).best.path@ == x {
            let a = choose|a: int| 0 <= a < gs.len() && (#[trigger] gs[a]).best.path@ == x;
            if a < init.len() {
                assert(init[a] == gs[a]);
            }
        }
        if exists|a: int| 0 <= a < init.len() && (#[trigger] init[a]).best.path@ == x {
            let a = choose|a: int| 0 <= a < init.len() && (#[trigger] init[a]).best.path@ == x;
            assert(gs[a] == init[a]);
        }
    }
}

/// Without ties and without a review of every version, exactly one package
/// of each name survives the fold, the best of its group, whose version no
/// package of its name exceeds; every other package is removed.
pub proof fn lemma_one_survivor_per_name(all: Seq<Seq<u8>>, gs: Seq<PackageGroup>, rs: Seq<Vec<u8>>)
    requires
        !has_duplicate(all),
        groups_ms(gs).add(bytes_ms(rs)) == package_paths(all),
        forall|a: int| 0 <= a < gs.len() ==> (#[trigger] gs[a]).ambiguous@.len() == 0,
    ensures
        forall|k: int|
            0 <= k < all.len() && parses(#[trigger] all[k]) ==> (bytes_ms(rs).count(all[k]) == 0
                <==> exists|a: int| 0 <= a < gs.len() && (#[trigger] gs[a]).best.path@ == all[k]),
        forall|k: int|
            0 <= k < all.len() && parses(#[trigger] all[k]) ==> bytes_ms(rs).count(all[k]) <= 1,
{
    assert forall|k: int| 0 <= k < all.len() && parses(#[trigger] all[k]) implies (bytes_ms(
        rs,
    ).count(all[k]) == 0 <==> exists|a: int|
        0 <= a < gs.len() && (#[trigger] gs[a]).best.path@ == all[k]) && bytes_ms(rs).count(all[k])
        <= 1 by {
        lemma_package_paths_count(all, k);
        lemma_groups_ms_bests(gs, all[k]);
        assert(groups_ms(gs).count(all[k]) + bytes_ms(rs).count(all[k]) == 1);
    }
}

/// Whether two byte strings are the same.
pub fn same_bytes(a: &[u8], b: &[u8]) -> (r: bool)
    ensures
        r == (a@ == b@),
{
    if a.len() != b.len() {
        return false;
    }
    let mut i: usize = 0;
    while i < a.len()
        invariant
            i <= a@.len() == b@.len(),
            a@.take(i as int) == b@.take(i as int),
        decreases a@.len() - i,
    {
        if a[i] != b[i] {
            return false;
        }
        assert(a@.take(i + 1) =~= a@.take(i as int).push(a@[i as int]));
        assert(b@.take(i + 1) =~= b@.take(i as int).push(b@[i as int]));
        i = i + 1;
    }
    assert(a@ =~= a@.take(i as int));
    assert(b@ =~= b@.take(i as int));
    true
}

/// Finds a path that occurs twice.
pub fn find_duplicate(paths: &Vec<Vec<u8>>) -> (r: Option<usize>)
    ensures
        r is Some <==> has_duplicate(views(paths@)),
        r matches Some(i) ==> i < paths@.len(),
{
    let ghost v = views(paths@);
    let mut j: usize = 0;
    while j < paths.len()
        invariant
            j <= paths@.len(),
            v == views(paths@),
            forall|a: int, b: int| 0 <= a < b < j ==> v[a] != v[b],
        decreases paths@.len() - j,
    {
        let mut i: usize = 0;
        while i < j
            invariant
                i <= j < paths@.len(),
                v == views(paths@),
                forall|a: int| 0 <= a < i ==> v[a] != v[j as int],
            decreases j - i,
        {
            if same_bytes(paths[i].as_slice(), paths[j].as_slice()) {
                assert(v[i as int] == v[j as int]);
                return Some(i);
            }
            i = i + 1;
        }
        j = j + 1;
    }
    None
}

/// Finds the group of a package name.
fn find_group(groups: &Vec<PackageGroup>, name: &Vec<u8>) -> (r: Option<usize>)
    ensures
        match r {
            Some(j) => j < groups@.len() && groups@[j as int].best.name@ == name@,
            None => forall|j: int| 0 <= j < groups@.len() ==> groups@[j].best.name@ != name@,
        },
{
    let mut j: usize = 0;
    while j < groups.len()
        invariant
            j <= groups@.len(),
            forall|k: int| 0 <= k < j ==> groups@[k].best.name@ != name@,
        decreases groups@.len() - j,
    {
        if same_bytes(groups[j].best.name.as_slice(), name.as_slice()) {
            return Some(j);
        }
        j = j + 1;
    }
    None
}


/// Every group is well formed, and no two groups share a name.
pub open spec fn groups_wf(gs: Seq<PackageGroup>) -> bool {
    &&& forall|a: int| 0 <= a < gs.len() ==> (#[trigger] gs[a]).wf()
    &&& forall|a: int, b: int|
        0 <= a < b < gs.len() ==> (#[trigger] gs[a]).best.name@ != (#[trigger] gs[b]).best.name@
}

/// No two packages among the first `n` paths share a name.
pub open spec fn unique_names(all: Seq<Seq<u8>>, n: int) -> bool {
    forall|k: int, l: int|
        0 <= k < l < n && parses(#[trigger] all[k]) && parses(#[trigger] all[l]) ==> name_of(
            all[k],
        ) != name_of(all[l])
}

/// Every package among the first `n` paths has the group of its name.
pub open spec fn names_covered(all: Seq<Seq<u8>>, n: int, gs: Seq<PackageGroup>) -> bool {
    forall|k: int|
        0 <= k < n && parses(#[trigger] all[k]) ==> exists|a: int|
            0 <= a < gs.len() && (#[trigger] gs[a]).best.name@ == name_of(all[k])
}

/// No package among the first `n` paths has a version greater than the best
/// of its group.
pub open spec fn best_is_greatest(all: Seq<Seq<u8>>, n: int, gs: Seq<PackageGroup>) -> bool {
    forall|k: int, a: int|
        0 <= k < n && 0 <= a < gs.len() && parses(#[trigger] all[k]) && name_of(all[k]) == (
        #[trigger] gs[a]).best.name@ ==> cmp_segments(segs_of(all[k]), gs[a].best.segs())
            != Ordering::Greater
}

/// Every removed path is a package that compares `Less` than the best
/// version of its group.
pub open spec fn removed_lose(rs: Seq<Vec<u8>>, gs: Seq<PackageGroup>) -> bool {
    forall|k: int|
        0 <= k < rs.len() ==> exists|a: int|
            0 <= a < gs.len() && (#[trigger] gs[a]).best.name@ == name_of((#[trigger] rs[k])@)
                && cmp_segments(segs_of(rs[k]@), gs[a].best.segs()) == Ordering::Less
}

/// No package among `all` is removed unless its version compares `Less`
/// than the best of its group: one that compares `Equal` to it, or that
/// outranks it, stays a candidate.
pub open spec fn removed_only_if_older(
    all: Seq<Seq<u8>>,
    rs: Seq<Vec<u8>>,
    gs: Seq<PackageGroup>,
) -> bool {
    forall|k: int, a: int|
        0 <= k < all.len() && 0 <= a < gs.len() && name_of(#[trigger] all[k]) == (
        #[trigger] gs[a]).best.name@ && cmp_segments(segs_of(all[k]), gs[a].best.segs())
            != Ordering::Less ==> !views(rs).contains(all[k])
}

proof fn lemma_removed_only_if_older(all: Seq<Seq<u8>>, rs: Seq<Vec<u8>>, gs: Seq<PackageGroup>)
    requires
        removed_lose(rs, gs),
        groups_wf(gs),
    ensures
        removed_only_if_older(all, rs, gs),
{
    assert forall|k: int, a: int|
        0 <= k < all.len() && 0 <= a < gs.len() && name_of(#[trigger] all[k]) == (
        #[trigger] gs[a]).best.name@ && cmp_segments(segs_of(all[k]), gs[a].best.segs())
            != Ordering::Less implies !views(rs).contains(all[k]) by {
        if views(rs).contains(all[k]) {
            let m = choose|m: int| 0 <= m < views(rs).len() && views(rs)[m] == all[k];
            assert(rs[m]@ == all[k]);
            let b = choose|b: int|
                0 <= b < gs.len() && (#[trigger] gs[b]).best.name@ == name_of((#[trigger] rs[m])@)
                    && cmp_segments(segs_of(rs[m]@), gs[b].best.segs()) == Ordering::Less;
            if a < b {
                assert(gs[a].best.name@ != gs[b].best.name@);
            } else if b < a {
                assert(gs[b].best.name@ != gs[a].best.name@);
            }
        }
    }
}

/// Appends the paths of `dropped` to `removed`.
fn push_paths(removed: &mut Vec<Vec<u8>>, dropped: &Vec<Package>)
    ensures
        bytes_ms(final(removed)@) == bytes_ms(old(removed)@).add(paths_ms(dropped@)),
        final(removed)@.len() == old(removed)@.len() + dropped@.len(),
        forall|k: int| 0 <= k < old(removed)@.len() ==> #[trigger] final(removed)@[k] == old(removed)@[k],
        forall|k: int|
            0 <= k < dropped@.len() ==> #[trigger] final(removed)@[old(removed)@.len() + k]@
                == dropped@[k].path@,
{
    let ghost r0 = removed@;
    let mut k: usize = 0;
    while k < dropped.len()
        invariant
            k <= dropped@.len(),
            bytes_ms(removed@) == bytes_ms(r0).add(paths_ms(dropped@.take(k as int))),
            removed@.len() == r0.len() + k,
            forall|m: int| 0 <= m < r0.len() ==> #[trigger] removed@[m] == r0[m],
            forall|m: int| 0 <= m < k ==> #[trigger] removed@[r0.len() + m]@ == dropped@[m].path@,
        decreases dropped@.len() - k,
    {
        let ghost before = removed@;
        let q = copy_range(dropped[k].path.as_slice(), 0, dropped[k].path.len());
        removed.push(q);
        proof {
            assert(dropped[k as int].path@.subrange(0, dropped[k as int].path@.len() as int)
                =~= dropped[k as int].path@);
            assert(removed@.drop_last() =~= before);
            assert(dropped@.take(k + 1).drop_last() =~= dropped@.take(k as int));
            assert(bytes_ms(removed@) =~= bytes_ms(r0).add(paths_ms(dropped@.take(k + 1))));
        }
        k = k + 1;
    }
    assert(dropped@.take(k as int) =~= dropped@);
}

proof fn lemma_insert_paths(
    g: PackageGroup,
    p: Package,
    review_all: bool,
    g2: PackageGroup,
    dropped: Seq<Package>,
)
    requires
        match cmp_segments(p.segs(), g.best.segs()) {
            Ordering::Greater => {
                &&& g2.best == p
                &&& paths_ms(g2.ambiguous@).add(paths_ms(dropped)) == g.paths()
            },
            Ordering::Less => {
                &&& g2.best == g.best
                &&& if review_all {
                    g2.ambiguous@ == g.ambiguous@.push(p) && dropped.len() == 0
                } else {
                    g2.ambiguous@ == g.ambiguous@ && dropped == seq![p]
                }
            },
            Ordering::Equal => {
                &&& g2.best == g.best
                &&& g2.ambiguous@ == g.ambiguous@.push(p)
                &&& dropped.len() == 0
            },
        },
    ensures
        g2.paths().add(paths_ms(dropped)) == g.paths().insert(p.path@),
{
    let a2 = g2.ambiguous@;
    match cmp_segments(p.segs(), g.best.segs()) {
        Ordering::Greater => {
            assert(g2.paths().add(paths_ms(dropped)) =~= g.paths().insert(p.path@));
        },
        _ => {
            if review_all || cmp_segments(p.segs(), g.best.segs()) == Ordering::Equal {
                assert(a2.drop_last() =~= g.ambiguous@);
                assert(paths_ms(a2) == paths_ms(g.ambiguous@).insert(p.path@));
                assert(paths_ms(dropped) =~= Multiset::empty());
            } else {
                assert(dropped.drop_last() =~= Seq::<Package>::empty());
                assert(paths_ms(dropped.drop_last()) =~= Multiset::empty());
                assert(dropped.last() == p);
                assert(paths_ms(dropped) =~= Multiset::empty().insert(p.path@));
            }
            assert(g2.paths().add(paths_ms(dropped)) =~= g.paths().insert(p.path@));
        },
    }
}

/// Folds `pkg` into group `j`, which has its name, and adds what is dropped to `removed`.
fn insert_into(
    groups: &mut Vec<PackageGroup>,
    removed: &mut Vec<Vec<u8>>,
    j: usize,
    pkg: Package,
    review_all: bool,
)
    requires
        j < old(groups)@.len(),
        groups_wf(old(groups)@),
        pkg.wf(),
        old(groups)@[j as int].best.name@ == pkg.name@,
        removed_lose(old(removed)@, old(groups)@),
    ensures
        groups_wf(final(groups)@),
        removed_lose(final(removed)@, final(groups)@),
        review_all ==> final(removed)@ == old(removed)@,
        groups_ms(final(groups)@).add(bytes_ms(final(removed)@)) == groups_ms(old(groups)@).add(
            bytes_ms(old(removed)@),
        ).insert(pkg.path@),
        ({
            let g = old(groups)@[j as int];
            (!review_all && (forall|a: int|
                0 <= a < old(groups)@.len() ==> (#[trigger] old(groups)@[a]).ambiguous@.len() == 0)
                && all_numbers(pkg.segs()) && all_numbers(g.best.segs()) && cmp_segments(
                pkg.segs(),
                g.best.segs(),
            ) != Ordering::Equal) ==> forall|a: int|
                0 <= a < final(groups)@.len() ==> (#[trigger] final(groups)@[a]).ambiguous@.len()
                    == 0
        }),
        final(groups)@.len() == old(groups)@.len(),
        forall|a: int|
            0 <= a < final(groups)@.len() && a != j ==> #[trigger] final(groups)@[a] == old(
                groups,
            )@[a],
        final(groups)@[j as int].best == if cmp_segments(
            pkg.segs(),
            old(groups)@[j as int].best.segs(),
        ) == Ordering::Greater {
            pkg
        } else {
            old(groups)@[j as int].best
        },
{
    let ghost gs0 = groups@;
    let ghost r0 = removed@;
    let ghost g = groups@[j as int];
    let ghost p = pkg;
    proof {
        lemma_groups_ms_remove(gs0, j as int);
        if all_numbers(g.best.segs()) && all_numbers(pkg.segs()) {
            lemma_compare_antisymmetric(g.best.segs(), pkg.segs());
        }
    }
    let group = groups.remove(j);
    let (g2, dropped) = resolve_insert(group, pkg, review_all);
    proof {
        lemma_insert_paths(g, p, review_all, g2, dropped@);
    }
    groups.insert(j, g2);
    push_paths(removed, &dropped);
    proof {
        assert(groups@ =~= gs0.update(j as int, g2));
        assert(groups@.remove(j as int) =~= gs0.remove(j as int));
        lemma_groups_ms_remove(groups@, j as int);
        assert forall|b: int| 0 <= b < g2.ambiguous@.len() implies (#[trigger] g2.ambiguous@[b]).wf()
            && g2.ambiguous@[b].name@ == g2.best.name@ by {
            let q = g2.ambiguous@[b];
            if q != p && q != g.best {
                if cmp_segments(p.segs(), g.best.segs()) == Ordering::Greater {
                    assert(g.ambiguous@.contains(q));
                } else {
                    assert(q == g2.ambiguous@[b]);
                }
                if g.ambiguous@.contains(q) {
                    let c = choose|c: int| 0 <= c < g.ambiguous@.len() && g.ambiguous@[c] == q;
                    assert(g.ambiguous@[c].wf());
                } else {
                    assert(g2.ambiguous@.len() == g.ambiguous@.len() || g2.ambiguous@.len()
                        == g.ambiguous@.len() + 1);
                    assert(g.ambiguous@[b].wf());
                }
            }
        }
        assert(g2.wf());
        assert(groups@[j as int] == g2);
        lemma_compare_flip(g.best.segs(), p.segs());
        assert forall|k: int| 0 <= k < removed@.len() implies exists|a: int|
            0 <= a < groups@.len() && (#[trigger] groups@[a]).best.name@ == name_of(
                (#[trigger] removed@[k])@,
            ) && cmp_segments(segs_of(removed@[k]@), groups@[a].best.segs()) == Ordering::Less by {
            if k < r0.len() {
                assert(removed@[k] == r0[k]);
                let a = choose|a: int|
                    0 <= a < gs0.len() && (#[trigger] gs0[a]).best.name@ == name_of(r0[k]@)
                        && cmp_segments(segs_of(r0[k]@), gs0[a].best.segs()) == Ordering::Less;
                if a != j {
                    assert(groups@[a] == gs0[a]);
                } else {
                    assert(groups@[a].best.name@ == name_of(r0[k]@));
                    if cmp_segments(p.segs(), g.best.segs()) == Ordering::Greater {
                        lemma_compare_less_transitive(segs_of(r0[k]@), g.best.segs(), p.segs());
                    }
                }
            } else {
                let m = k - r0.len();
                let q = dropped@[m];
                assert(removed@[r0.len() + m]@ == q.path@);
                if cmp_segments(p.segs(), g.best.segs()) == Ordering::Greater {
                    assert(loses_to(q, p, review_all));
                    if q != g.best {
                        let c = choose|c: int| 0 <= c < g.ambiguous@.len() && g.ambiguous@[c] == q;
                        assert(g.ambiguous@[c].wf());
                    }
                    assert(q.wf());
                    assert(segs_of(q.path@) == q.segs());
                    assert(groups@[j as int].best == p);
                    assert(groups@[j as int].best.name@ == name_of(removed@[k]@));
                    assert(cmp_segments(segs_of(removed@[k]@), groups@[j as int].best.segs()) == Ordering::Less);
                } else {
                    assert(q == p);
                    assert(segs_of(q.path@) == q.segs());
                    assert(groups@[j as int].best == g.best);
                    assert(groups@[j as int].best.name@ == name_of(removed@[k]@));
                    assert(cmp_segments(segs_of(removed@[k]@), groups@[j as int].best.segs()) == Ordering::Less);
                }
            }
        }
        if review_all {
            if dropped@.len() > 0 {
                assert(!loses_to(dropped@[0], p, review_all));
            }
            assert(removed@ =~= r0);
        }
        let rest = groups_ms(gs0.remove(j as int));
        assert(groups_ms(groups@) == rest.add(g2.paths()));
        assert(groups_ms(gs0) == rest.add(g.paths()));
        assert(bytes_ms(removed@) == bytes_ms(r0).add(paths_ms(dropped@)));
        assert(g2.paths().add(paths_ms(dropped@)) == g.paths().insert(p.path@));
        let lhs = groups_ms(groups@).add(bytes_ms(removed@));
        let rhs = groups_ms(gs0).add(bytes_ms(r0)).insert(p.path@);
        assert forall|v: Seq<u8>| #[trigger] lhs.count(v) == rhs.count(v) by {
            assert(g2.paths().add(paths_ms(dropped@)).count(v) == g.paths().insert(p.path@).count(
                v,
            ));
        }
        assert(lhs =~= rhs);
    }
}

proof fn lemma_found_step(
    all: Seq<Seq<u8>>,
    i: int,
    gs0: Seq<PackageGroup>,
    gs1: Seq<PackageGroup>,
    j: int,
    p: Package,
    nt: bool,
)
    requires
        0 <= i < all.len(),
        0 <= j < gs0.len(),
        !has_duplicate(all),
        nt ==> no_ties(all),
        p.wf(),
        p.path@ == all[i],
        parses(all[i]),
        groups_wf(gs0),
        gs0[j].best.name@ == p.name@,
        package_paths(all.take(i)).contains(gs0[j].best.path@),
        names_covered(all, i, gs0),
        nt ==> best_is_greatest(all, i, gs0),
        gs1.len() == gs0.len(),
        forall|a: int| 0 <= a < gs1.len() && a != j ==> #[trigger] gs1[a] == gs0[a],
        gs1[j].best == if cmp_segments(p.segs(), gs0[j].best.segs()) == Ordering::Greater {
            p
        } else {
            gs0[j].best
        },
    ensures
        names_covered(all, i + 1, gs1),
        nt ==> best_is_greatest(all, i + 1, gs1),
{
    let b = gs0[j].best;
    assert(gs0[j].wf());
    assert(gs1[j].best.name@ == b.name@);
    assert forall|k: int| 0 <= k < i + 1 && parses(#[trigger] all[k]) implies exists|a: int|
        0 <= a < gs1.len() && (#[trigger] gs1[a]).best.name@ == name_of(all[k]) by {
        if k == i {
            assert(gs1[j].best.name@ == name_of(all[k]));
        } else {
            let a = choose|a: int| 0 <= a < gs0.len() && (#[trigger] gs0[a]).best.name@ == name_of(all[k]);
            if a == j {
                assert(gs1[j].best.name@ == name_of(all[k]));
            } else {
                assert(gs1[a] == gs0[a]);
            }
        }
    }
    if nt {
        lemma_package_paths_contains(all.take(i), b.path@);
        let kb = choose|kb: int| 0 <= kb < all.take(i).len() && all.take(i)[kb] == b.path@ && parses(b.path@);
        assert(all[kb] == b.path@);
        assert(kb != i);
        assert(all_numbers(segs_of(all[i])) && all_numbers(segs_of(all[kb])) && cmp_segments(segs_of(all[i]), segs_of(all[kb])) != Ordering::Equal);
        lemma_compare_antisymmetric(p.segs(), b.segs());
        lemma_compare_reflexive(p.segs());
        assert forall|k: int, a: int|
            0 <= k < i + 1 && 0 <= a < gs1.len() && parses(#[trigger] all[k]) && name_of(all[k]) == (
            #[trigger] gs1[a]).best.name@ implies cmp_segments(segs_of(all[k]), gs1[a].best.segs())
                != Ordering::Greater by {
            if a != j {
                assert(gs1[a] == gs0[a]);
                if k == i {
                    assert(gs0[a].best.name@ != gs0[j].best.name@) by {
                        if a < j {
                            assert(gs0[a].best.name@ != gs0[j].best.name@);
                        } else {
                            assert(gs0[j].best.name@ != gs0[a].best.name@);
                        }
                    }
                }
            } else if k == i {
            } else {
                assert(name_of(all[k]) == b.name@);
                assert(cmp_segments(segs_of(all[k]), b.segs()) != Ordering::Greater);
                if cmp_segments(p.segs(), b.segs()) == Ordering::Greater {
                    assert(all_numbers(segs_of(all[k])));
                    lemma_compare_antisymmetric(segs_of(all[k]), b.segs());
                    if cmp_segments(segs_of(all[k]), b.segs()) == Ordering::Less {
                        lemma_compare_transitive(segs_of(all[k]), b.segs(), p.segs());
                    }
                }
            }
        }
    }
}

proof fn lemma_new_group_step(
    all: Seq<Seq<u8>>,
    i: int,
    gs0: Seq<PackageGroup>,
    gs1: Seq<PackageGroup>,
    p: Package,
    nt: bool,
)
    requires
        0 <= i < all.len(),
        p.wf(),
        p.path@ == all[i],
        forall|a: int| 0 <= a < gs0.len() ==> gs0[a].best.name@ != p.name@,
        gs1 == gs0.push(PackageGroup { best: p, ambiguous: gs1.last().ambiguous }),
        names_covered(all, i, gs0),
        nt ==> best_is_greatest(all, i, gs0),
    ensures
        names_covered(all, i + 1, gs1),
        nt ==> best_is_greatest(all, i + 1, gs1),
{
    let n = gs0.len() as int;
    assert(gs1[n].best == p);
    assert forall|k: int| 0 <= k < i + 1 && parses(#[trigger] all[k]) implies exists|a: int|
        0 <= a < gs1.len() && (#[trigger] gs1[a]).best.name@ == name_of(all[k]) by {
        if k == i {
            assert(gs1[n].best.name@ == name_of(all[k]));
        } else {
            let a = choose|a: int| 0 <= a < gs0.len() && (#[trigger] gs0[a]).best.name@ == name_of(all[k]);
            assert(gs1[a] == gs0[a]);
        }
    }
    if nt {
        lemma_compare_reflexive(p.segs());
        assert forall|k: int, a: int|
            0 <= k < i + 1 && 0 <= a < gs1.len() && parses(#[trigger] all[k]) && name_of(all[k]) == (
            #[trigger] gs1[a]).best.name@ implies cmp_segments(segs_of(all[k]), gs1[a].best.segs())
                != Ordering::Greater by {
            if a < n {
                assert(gs1[a] == gs0[a]);
            } else if k < i {
                let c = choose|c: int| 0 <= c < gs0.len() && (#[trigger] gs0[c]).best.name@ == name_of(all[k]);
                assert(gs0[c].best.name@ != p.name@);
            }
        }
    }
}

/// Sorts the paths of a directory: signature files are set aside, paths that
/// are not packages are ignored, and each package is folded into the group of
/// its name by `resolve_insert`. Fails on a path that occurs twice.
#[verifier::rlimit(60)]
pub fn resolve_paths(paths: &Vec<Vec<u8>>, review_all: bool) -> (r: Result<Resolution, ResolveError>)
    ensures
        match r {
            Err(ResolveError::DuplicatePath(p)) => has_duplicate(views(paths@))
                && views(paths@).contains(p@),
            Ok(res) => {
                &&& !has_duplicate(views(paths@))
                &&& groups_wf(res.groups@)
                &&& groups_ms(res.groups@).add(bytes_ms(res.removed@)) == package_paths(
                    views(paths@),
                )
                &&& views(res.ignored@) == unparsed_paths(views(paths@))
                &&& views(res.signatures@) == signature_paths(views(paths@))
                &&& names_covered(views(paths@), paths@.len() as int, res.groups@)
                &&& removed_lose(res.removed@, res.groups@)
                &&& removed_only_if_older(views(paths@), res.removed@, res.groups@)
                &&& review_all ==> res.removed@.len() == 0
                &&& unique_names(views(paths@), paths@.len() as int) ==> {
                    &&& res.removed@.len() == 0
                    &&& forall|a: int|
                        0 <= a < res.groups@.len() ==> (#[trigger] res.groups@[a]).ambiguous@.len()
                            == 0
                }
                &&& (!review_all && no_ties(views(paths@))) ==> {
                    &&& forall|a: int|
                        0 <= a < res.groups@.len() ==> (#[trigger] res.groups@[a]).ambiguous@.len()
                            == 0
                    &&& best_is_greatest(views(paths@), paths@.len() as int, res.groups@)
                }
            },
        },
{
    let ghost all = views(paths@);
    match find_duplicate(paths) {
        Some(i) => {
            let p = copy_range(paths[i].as_slice(), 0, paths[i].len());
            assert(paths@[i as int]@.subrange(0, paths@[i as int]@.len() as int)
                =~= paths@[i as int]@);
            assert(all[i as int] == p@);
            return Err(ResolveError::DuplicatePath(p));
        },
        None => {},
    }
    let mut groups: Vec<PackageGroup> = Vec::new();
    let mut removed: Vec<Vec<u8>> = Vec::new();
    let mut ignored: Vec<Vec<u8>> = Vec::new();
    let mut signatures: Vec<Vec<u8>> = Vec::new();
    let ghost nt = !review_all && no_ties(all);
    let mut i: usize = 0;
    assert(all.take(0) =~= Seq::<Seq<u8>>::empty());
    assert(views(ignored@) =~= Seq::<Seq<u8>>::empty());
    assert(views(signatures@) =~= Seq::<Seq<u8>>::empty());
    while i < paths.len()
        invariant
            i <= paths@.len(),
            all == views(paths@),
            !has_duplicate(all),
            nt == (!review_all && no_ties(all)),
            groups_wf(groups@),
            groups_ms(groups@).add(bytes_ms(removed@)) == package_paths(all.take(i as int)),
            views(ignored@) == unparsed_paths(all.take(i as int)),
            views(signatures@) == signature_paths(all.take(i as int)),
            nt ==> forall|a: int|
                0 <= a < groups@.len() ==> (#[trigger] groups@[a]).ambiguous@.len() == 0,
            names_covered(all, i as int, groups@),
            removed_lose(removed@, groups@),
            review_all ==> removed@.len() == 0,
            nt ==> best_is_greatest(all, i as int, groups@),
            unique_names(all, i as int) ==> removed@.len() == 0 && forall|a: int|
                0 <= a < groups@.len() ==> (#[trigger] groups@[a]).ambiguous@.len() == 0,
        decreases paths@.len() - i,
    {
        let ghost x = all[i as int];
        let ghost pre = all.take(i as int);
        assert(all.take(i + 1).drop_last() =~= pre);
        assert(all.take(i + 1).last() == x);
        let path = paths[i].as_slice();
        assert(path@ == x);
        assert(path@.subrange(0, path@.len() as int) =~= path@);
        if is_signature_path(path) {
            let ghost s0 = signatures@;
            signatures.push(copy_range(path, 0, path.len()));
            assert(views(signatures@) =~= views(s0).push(x));
        } else {
            match Package::from_path(path) {
                Err(e) => {
                    let ghost g0 = ignored@;
                    ignored.push(copy_range(path, 0, path.len()));
                    assert(views(ignored@) =~= views(g0).push(x));
                },
                Ok(pkg) => {
                    assert(parses(x));
                    match find_group(&groups, &pkg.name) {
                        Some(j) => {
                            proof {
                                lemma_groups_ms_contains(groups@, j as int);
                                assert(package_paths(pre).contains(groups@[j as int].best.path@));
                                let g = groups@[j as int];
                                assert(g.wf());
                                lemma_package_paths_contains(pre, g.best.path@);
                                let kb = choose|kb: int|
                                    0 <= kb < pre.len() && pre[kb] == g.best.path@ && parses(
                                        g.best.path@,
                                    );
                                assert(all[kb] == g.best.path@);
                                assert(!unique_names(all, i + 1)) by {
                                    assert(name_of(all[kb]) == name_of(all[i as int]));
                                }
                                if nt {
                                    let g = groups@[j as int];
                                    assert(g.wf());
                                    assert(name_of(x) == pkg.name@);
                                    let bp = g.best.path@;
                                    lemma_package_paths_contains(pre, bp);
                                    let k = choose|k: int|
                                        0 <= k < pre.len() && pre[k] == bp && parses(bp);
                                    assert(all[k] == bp);
                                    assert(k != i);
                                    assert(all_numbers(segs_of(all[k])) && cmp_segments(
                                        segs_of(x),
                                        segs_of(all[k]),
                                    ) != Ordering::Equal);
                                }
                            }
                            let ghost gs0 = groups@;
                            let ghost p = pkg;
                            insert_into(&mut groups, &mut removed, j, pkg, review_all);
                            proof {
                                lemma_found_step(all, i as int, gs0, groups@, j as int, p, nt);
                            }
                        },
                        None => {
                            let ghost gs0 = groups@;
                            let ghost p = pkg;
                            groups.push(PackageGroup::new(pkg));
                            proof {
                                lemma_new_group_step(all, i as int, gs0, groups@, p, nt);
                                assert forall|k: int| 0 <= k < removed@.len() implies exists|a: int|
                                    0 <= a < groups@.len() && (#[trigger] groups@[a]).best.name@
                                        == name_of((#[trigger] removed@[k])@) && cmp_segments(
                                        segs_of(removed@[k]@),
                                        groups@[a].best.segs(),
                                    ) == Ordering::Less by {
                                    let a = choose|a: int|
                                        0 <= a < gs0.len() && (#[trigger] gs0[a]).best.name@
                                            == name_of(removed@[k]@) && cmp_segments(
                                            segs_of(removed@[k]@),
                                            gs0[a].best.segs(),
                                        ) == Ordering::Less;
                                    assert(groups@[a] == gs0[a]);
                                }
                                assert(groups@.drop_last() =~= gs0);
                                assert(paths_ms(Seq::<Package>::empty()) == Multiset::<Seq<u8>>::empty());
                            }
                        },
                    }
                },
            }
        }
        proof {
            if unique_names(all, i + 1) {
                assert(unique_names(all, i as int));
            }
        }
        i = i + 1;
    }
    assert(all.take(i as int) =~= all);
    proof {
        lemma_removed_only_if_older(all, removed@, groups@);
    }
    Ok(Resolution { groups, removed, ignored, signatures })
}

} // verus!
