//! The final partition of a run: signature files follow their packages, and
//! the lists come sorted.
use std::cmp::Ordering;
use vstd::multiset::Multiset;
use vstd::prelude::*;
use crate::filename::{is_signature, signed_path};
use crate::mediate::byte_views;
use crate::package::copy_range;
use crate::resolve::{bytes_ms, same_bytes};
use crate::version::{
    cmp_bytes, compare_bytes, lemma_cmp_bytes_antisymmetric, lemma_cmp_bytes_transitive,
};

verus! {

/// The signature files among `sigs`, in order, whose package is removed.
pub open spec fn sigs_removed(sigs: Seq<Seq<u8>>, removed: Seq<Seq<u8>>) -> Seq<Seq<u8>>
    decreases sigs.len(),
{
    if sigs.len() == 0 {
        Seq::empty()
    } else if removed.contains(signed_path(sigs.last())) {
        sigs_removed(sigs.drop_last(), removed).push(sigs.last())
    } else {
        sigs_removed(sigs.drop_last(), removed)
    }
}

/// The signature files among `sigs`, in order, whose package is neither
/// removed nor kept.
pub open spec fn sigs_ignored(sigs: Seq<Seq<u8>>, removed: Seq<Seq<u8>>, kept: Seq<Seq<u8>>) -> Seq<
    Seq<u8>,
>
    decreases sigs.len(),
{
    if sigs.len() == 0 {
        Seq::empty()
    } else if !removed.contains(signed_path(sigs.last())) && !kept.contains(
        signed_path(sigs.last()),
    ) {
        sigs_ignored(sigs.drop_last(), removed, kept).push(sigs.last())
    } else {
        sigs_ignored(sigs.drop_last(), removed, kept)
    }
}

/// A signature file is removed only with its package, and one that is
/// neither removed nor ignored stays beside a kept package.
pub proof fn lemma_signature_follows_base(
    sigs: Seq<Seq<u8>>,
    removed: Seq<Seq<u8>>,
    kept: Seq<Seq<u8>>,
)
    ensures
        forall|x: Seq<u8>| #[trigger]
            sigs_removed(sigs, removed).contains(x) ==> sigs.contains(x) && removed.contains(
                signed_path(x),
            ),
        forall|x: Seq<u8>| #[trigger]
            sigs_ignored(sigs, removed, kept).contains(x) ==> sigs.contains(x)
                && !removed.contains(signed_path(x)) && !kept.contains(signed_path(x)),
        forall|x: Seq<u8>|
            #![trigger sigs.contains(x)]
            sigs.contains(x) && !sigs_removed(sigs, removed).contains(x) && !sigs_ignored(
                sigs,
                removed,
                kept,
            ).contains(x) ==> kept.contains(signed_path(x)),
    decreases sigs.len(),
{
    if sigs.len() > 0 {
        let init = sigs.drop_last();
        lemma_signature_follows_base(init, removed, kept);
        assert forall|x: Seq<u8>| init.contains(x) implies sigs.contains(x) by {
            let k = choose|k: int| 0 <= k < init.len() && init[k] == x;
            assert(sigs[k] == x);
        }
        assert forall|x: Seq<u8>| sigs.contains(x) implies init.contains(x) || x == sigs.last() by {
            let k = choose|k: int| 0 <= k < sigs.len() && sigs[k] == x;
            if k < init.len() {
                assert(init[k] == x);
            }
        }
        let last = sigs.last();
        assert(sigs[sigs.len() - 1] == last);
        if removed.contains(signed_path(last)) {
            assert(sigs_removed(sigs, removed).contains(last)) by {
                let s = sigs_removed(sigs, removed);
                assert(s[s.len() - 1] == last);
            }
        } else if !kept.contains(signed_path(last)) {
            assert(sigs_ignored(sigs, removed, kept).contains(last)) by {
                let s = sigs_ignored(sigs, removed, kept);
                assert(s[s.len() - 1] == last);
            }
        }
        let sr = sigs_removed(sigs, removed);
        let si = sigs_ignored(sigs, removed, kept);
        let ir = sigs_removed(init, removed);
        let ii = sigs_ignored(init, removed, kept);
        assert forall|x: Seq<u8>| sr.contains(x) implies ir.contains(x) || x == last by {
            let k = choose|k: int| 0 <= k < sr.len() && sr[k] == x;
            if k < ir.len() {
                assert(ir[k] == x);
            }
        }
        assert forall|x: Seq<u8>| si.contains(x) implies ii.contains(x) || x == last by {
            let k = choose|k: int| 0 <= k < si.len() && si[k] == x;
            if k < ii.len() {
                assert(ii[k] == x);
            }
        }
        assert forall|x: Seq<u8>| ir.contains(x) implies sr.contains(x) by {
            let k = choose|k: int| 0 <= k < ir.len() && ir[k] == x;
            assert(sr[k] == x);
        }
        assert forall|x: Seq<u8>| ii.contains(x) implies si.contains(x) by {
            let k = choose|k: int| 0 <= k < ii.len() && ii[k] == x;
            assert(si[k] == x);
        }
    }
}

/// Whether `p` is among `s`.
fn contains_bytes(s: &Vec<Vec<u8>>, p: &[u8]) -> (r: bool)
    ensures
        r == byte_views(s@).contains(p@),
{
    let mut i: usize = 0;
    while i < s.len()
        invariant
            i <= s@.len(),
            forall|j: int| 0 <= j < i ==> s@[j]@ != p@,
        decreases s@.len() - i,
    {
        if same_bytes(s[i].as_slice(), p) {
            assert(byte_views(s@)[i as int] == p@);
            return true;
        }
        i = i + 1;
    }
    assert(!byte_views(s@).contains(p@)) by {
        if byte_views(s@).contains(p@) {
            let k = choose|k: int| 0 <= k < s@.len() && byte_views(s@)[k] == p@;
            assert(s@[k]@ == p@);
        }
    }
    false
}

/// The final partition of a run.
pub struct Outcome {
    pub kept: Vec<Vec<u8>>,
    pub removed: Vec<Vec<u8>>,
    pub ignored: Vec<Vec<u8>>,
}

/// Matches each signature file to the package it signs: it is removed with a
/// removed package, ignored where its package is neither removed nor kept,
/// and otherwise left in place beside its kept package.
pub fn associate_signatures(
    signatures: &Vec<Vec<u8>>,
    kept: Vec<Vec<u8>>,
    removed: Vec<Vec<u8>>,
    ignored: Vec<Vec<u8>>,
) -> (r: Outcome)
    requires
        forall|i: int| 0 <= i < signatures@.len() ==> is_signature(#[trigger] signatures@[i]@),
    ensures
        byte_views(r.kept@) == byte_views(kept@),
        byte_views(r.removed@) == byte_views(removed@) + sigs_removed(
            byte_views(signatures@),
            byte_views(removed@),
        ),
        byte_views(r.ignored@) == byte_views(ignored@) + sigs_ignored(
            byte_views(signatures@),
            byte_views(removed@),
            byte_views(kept@),
        ),
{
    let ghost sv = byte_views(signatures@);
    let ghost rv = byte_views(removed@);
    let ghost kv = byte_views(kept@);
    let ghost iv = byte_views(ignored@);
    let mut out_removed: Vec<Vec<u8>> = Vec::new();
    let mut out_ignored: Vec<Vec<u8>> = Vec::new();
    let mut i: usize = 0;
    assert(sv.take(0) =~= Seq::<Seq<u8>>::empty());
    while i < signatures.len()
        invariant
            i <= signatures@.len(),
            sv == byte_views(signatures@),
            rv == byte_views(removed@),
            kv == byte_views(kept@),
            forall|j: int| 0 <= j < signatures@.len() ==> is_signature(#[trigger] signatures@[j]@),
            byte_views(out_removed@) == sigs_removed(sv.take(i as int), rv),
            byte_views(out_ignored@) == sigs_ignored(sv.take(i as int), rv, kv),
        decreases signatures@.len() - i,
    {
        let s = signatures[i].as_slice();
        assert(is_signature(s@));
        let base = copy_range(s, 0, s.len() - 4);
        assert(base@ == signed_path(sv[i as int]));
        assert(sv.take(i + 1).drop_last() =~= sv.take(i as int));
        assert(sv.take(i + 1).last() == sv[i as int]);
        assert(s@.subrange(0, s@.len() as int) =~= s@);
        let ghost r0 = byte_views(out_removed@);
        let ghost g0 = byte_views(out_ignored@);
        if contains_bytes(&removed, base.as_slice()) {
            out_removed.push(copy_range(s, 0, s.len()));
            assert(byte_views(out_removed@) =~= r0.push(sv[i as int]));
        } else if !contains_bytes(&kept, base.as_slice()) {
            out_ignored.push(copy_range(s, 0, s.len()));
            assert(byte_views(out_ignored@) =~= g0.push(sv[i as int]));
        }
        i = i + 1;
    }
    assert(sv.take(i as int) =~= sv);
    let ghost ro = byte_views(out_removed@);
    let ghost io = byte_views(out_ignored@);
    let mut all_removed = removed;
    let mut all_ignored = ignored;
    all_removed.append(&mut out_removed);
    all_ignored.append(&mut out_ignored);
    assert(byte_views(all_removed@) =~= rv + ro);
    assert(byte_views(all_ignored@) =~= iv + io);
    Outcome { kept, removed: all_removed, ignored: all_ignored }
}


/// Whether `s` comes in ascending byte order.
pub open spec fn sorted_asc(s: Seq<Vec<u8>>) -> bool {
    forall|i: int, j: int|
        0 <= i < j < s.len() ==> cmp_bytes(#[trigger] s[i]@, #[trigger] s[j]@)
            != Ordering::Greater
}

proof fn lemma_bytes_ms_insert(s: Seq<Vec<u8>>, k: int, x: Vec<u8>)
    requires
        0 <= k <= s.len(),
    ensures
        bytes_ms(s.insert(k, x)) == bytes_ms(s).insert(x@),
    decreases s.len(),
{
    if k == s.len() {
        assert(s.insert(k, x).drop_last() =~= s);
    } else {
        lemma_bytes_ms_insert(s.drop_last(), k, x);
        assert(s.insert(k, x).drop_last() =~= s.drop_last().insert(k, x));
        assert(s.insert(k, x).last() == s.last());
        assert(bytes_ms(s.insert(k, x)) =~= bytes_ms(s).insert(x@));
    }
}

/// Puts `x` into the sorted `v` before the first path that is greater.
fn insert_path(v: &mut Vec<Vec<u8>>, x: Vec<u8>)
    requires
        sorted_asc(old(v)@),
    ensures
        sorted_asc(final(v)@),
        exists|k: int| 0 <= k <= old(v)@.len() && final(v)@ == old(v)@.insert(k, x),
{
    let mut k: usize = 0;
    let mut stop = false;
    while k < v.len() && !stop
        invariant
            k <= v@.len(),
            sorted_asc(v@),
            forall|i: int| 0 <= i < k ==> cmp_bytes(#[trigger] v@[i]@, x@) != Ordering::Greater,
            stop ==> k < v@.len() && cmp_bytes(v@[k as int]@, x@) == Ordering::Greater,
        decreases v@.len() - k + (if stop { 0int } else { 1int }),
    {
        match compare_bytes(v[k].as_slice(), x.as_slice()) {
            Ordering::Greater => {
                stop = true;
            },
            _ => {
                k = k + 1;
            },
        }
    }
    let ghost v0 = v@;
    proof {
        if k < v0.len() {
            lemma_cmp_bytes_antisymmetric(v0[k as int]@, x@);
            assert forall|j: int| k <= j < v0.len() implies cmp_bytes(
                x@,
                #[trigger] v0[j]@,
            ) != Ordering::Greater by {
                if j > k {
                    lemma_cmp_bytes_transitive(x@, v0[k as int]@, v0[j]@);
                }
            }
        }
    }
    v.insert(k, x);
    proof {
        let n = v@;
        assert forall|i: int, j: int| 0 <= i < j < n.len() implies cmp_bytes(
            #[trigger] n[i]@,
            #[trigger] n[j]@,
        ) != Ordering::Greater by {
            if i == k {
                assert(n[j] == v0[j - 1]);
            } else if j == k {
                assert(n[i] == v0[i]);
            } else {
                let a = if i < k { i } else { i - 1 };
                let b = if j < k { j } else { j - 1 };
                assert(n[i] == v0[a] && n[j] == v0[b]);
            }
        }
    }
}

/// Sorts paths in ascending byte order.
pub fn sort_paths(v: Vec<Vec<u8>>) -> (r: Vec<Vec<u8>>)
    ensures
        sorted_asc(r@),
        bytes_ms(r@) == bytes_ms(v@),
{
    let ghost all = v@;
    let mut src = v;
    let mut r: Vec<Vec<u8>> = Vec::new();
    while src.len() > 0
        invariant
            src@ == all.take(src@.len() as int),
            src@.len() <= all.len(),
            sorted_asc(r@),
            bytes_ms(r@).add(bytes_ms(src@)) == bytes_ms(all),
        decreases src@.len(),
    {
        let x = src.pop().unwrap();
        let ghost r0 = r@;
        proof {
            assert(src@ =~= all.take(src@.len() as int));
        }
        insert_path(&mut r, x);
        proof {
            let k = choose|k: int| 0 <= k <= r0.len() && r@ == r0.insert(k, x);
            lemma_bytes_ms_insert(r0, k, x);
        }
    }
    assert(bytes_ms(src@) =~= Multiset::empty());
    assert(all.take(0) =~= src@);
    r
}

/// Ends a run: matches the signature files to their packages, then sorts the
/// removed and the ignored paths.
pub fn finish(
    signatures: &Vec<Vec<u8>>,
    kept: Vec<Vec<u8>>,
    removed: Vec<Vec<u8>>,
    ignored: Vec<Vec<u8>>,
) -> (r: Outcome)
    requires
        forall|i: int| 0 <= i < signatures@.len() ==> is_signature(#[trigger] signatures@[i]@),
    ensures
        byte_views(r.kept@) == byte_views(kept@),
        sorted_asc(r.removed@),
        sorted_asc(r.ignored@),
        bytes_ms(r.removed@) == bytes_ms(removed@).add(
            sigs_removed(byte_views(signatures@), byte_views(removed@)).to_multiset(),
        ),
        bytes_ms(r.ignored@) == bytes_ms(ignored@).add(
            sigs_ignored(
                byte_views(signatures@),
                byte_views(removed@),
                byte_views(kept@),
            ).to_multiset(),
        ),
{
    let ghost rv = removed@;
    let ghost iv = ignored@;
    let o = associate_signatures(signatures, kept, removed, ignored);
    proof {
        assert(byte_views(o.removed@).len() == o.removed@.len());
        assert(byte_views(rv).len() == rv.len());
        assert(byte_views(o.removed@).take(rv.len() as int) =~= byte_views(rv));
        assert(byte_views(o.removed@).skip(rv.len() as int) =~= sigs_removed(
            byte_views(signatures@),
            byte_views(rv),
        ));
        assert(byte_views(o.ignored@).len() == o.ignored@.len());
        assert(byte_views(iv).len() == iv.len());
        assert(byte_views(o.ignored@).take(iv.len() as int) =~= byte_views(iv));
        assert(byte_views(o.ignored@).skip(iv.len() as int) =~= sigs_ignored(
            byte_views(signatures@),
            byte_views(rv),
            byte_views(o.kept@),
        ));
        lemma_bytes_ms_views(rv, o.removed@);
        lemma_bytes_ms_views(iv, o.ignored@);
    }
    Outcome { kept: o.kept, removed: sort_paths(o.removed), ignored: sort_paths(o.ignored) }
}

/// The count of byte strings that extend `a` is that of `a` and of what is appended.
proof fn lemma_bytes_ms_views(a: Seq<Vec<u8>>, b: Seq<Vec<u8>>)
    requires
        a.len() <= b.len(),
        byte_views(b).take(a.len() as int) == byte_views(a),
    ensures
        bytes_ms(b) == bytes_ms(a).add(byte_views(b).skip(a.len() as int).to_multiset()),
    decreases b.len(),
{
    let bv = byte_views(b);
    if b.len() == a.len() {
        assert(bv.skip(a.len() as int) =~= Seq::<Seq<u8>>::empty());
        lemma_bytes_ms_same(a, b);
        assert(bv.skip(a.len() as int).to_multiset() =~= Multiset::empty()) by {
            bv.skip(a.len() as int).to_multiset_ensures();
        }
    } else {
        let b0 = b.drop_last();
        assert(byte_views(b0) =~= bv.drop_last());
        assert(byte_views(b0).take(a.len() as int) =~= byte_views(a));
        lemma_bytes_ms_views(a, b0);
        let t0 = byte_views(b0).skip(a.len() as int);
        let t = bv.skip(a.len() as int);
        assert(t =~= t0.push(b.last()@));
        t0.to_multiset_ensures();
        assert(bytes_ms(b) =~= bytes_ms(a).add(t.to_multiset()));
    }
}

/// Byte strings with the same values are counted alike.
proof fn lemma_bytes_ms_same(a: Seq<Vec<u8>>, b: Seq<Vec<u8>>)
    requires
        a.len() == b.len(),
        byte_views(b).take(a.len() as int) == byte_views(a),
    ensures
        bytes_ms(a) == bytes_ms(b),
    decreases a.len(),
{
    if a.len() > 0 {
        assert(byte_views(a)[a.len() - 1] == a.last()@);
        assert(byte_views(b).take(a.len() as int)[a.len() - 1] == b.last()@);
        assert(byte_views(b.drop_last()).take(a.len() - 1) =~= byte_views(a.drop_last())) by {
            assert forall|i: int| 0 <= i < a.len() - 1 implies byte_views(b.drop_last())[i]
                == byte_views(a.drop_last())[i] by {
                assert(byte_views(b).take(a.len() as int)[i] == byte_views(a)[i]);
            }
        }
        lemma_bytes_ms_same(a.drop_last(), b.drop_last());
    }
}

} // verus!
