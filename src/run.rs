//! A whole run, from the resolved groups and the operator's choices to the
//! final partition.
use vstd::multiset::Multiset;
use vstd::prelude::*;
use vstd::seq_lib::lemma_multiset_commutative;
use crate::filename::is_signature;
use crate::mediate::{byte_views, path_seq, settle, Choice};
use crate::options::AutoConfirmLevel;
use crate::outcome::{finish, sigs_ignored, sigs_removed, sorted_asc, Outcome};
use crate::package::Package;
use crate::resolve::bytes_ms;

verus! {

/// Whether the operator settles a group of `n` candidates at `level`.
pub open spec fn asked(n: nat, level: AutoConfirmLevel) -> bool {
    n > 1 && (level == AutoConfirmLevel::Ambiguities || level == AutoConfirmLevel::Everything)
}

/// The kept paths of one group with paths `ps`.
pub open spec fn kept_of(ps: Seq<Seq<u8>>, level: AutoConfirmLevel, choice: Choice) -> Seq<Seq<u8>> {
    if !asked(ps.len(), level) || choice == Choice::KeepAll {
        ps
    } else if let Choice::Keep(k) = choice {
        seq![ps[k as int]]
    } else {
        Seq::empty()
    }
}

/// The removed paths of one group with paths `ps`.
pub open spec fn removed_of(ps: Seq<Seq<u8>>, level: AutoConfirmLevel, choice: Choice) -> Seq<
    Seq<u8>,
> {
    if !asked(ps.len(), level) || choice == Choice::KeepAll {
        Seq::empty()
    } else if let Choice::Keep(k) = choice {
        ps.remove(k as int)
    } else {
        Seq::empty()
    }
}

/// The ignored paths of one group with paths `ps`.
pub open spec fn ignored_of(ps: Seq<Seq<u8>>, level: AutoConfirmLevel, choice: Choice) -> Seq<
    Seq<u8>,
> {
    if !asked(ps.len(), level) || choice == Choice::KeepAll {
        Seq::empty()
    } else if let Choice::Keep(k) = choice {
        Seq::empty()
    } else {
        ps
    }
}

/// The kept paths of all groups, group after group.
pub open spec fn all_kept(cs: Seq<Seq<Seq<u8>>>, level: AutoConfirmLevel, ch: Seq<Choice>) -> Seq<
    Seq<u8>,
>
    decreases cs.len(),
{
    if cs.len() == 0 || ch.len() < cs.len() {
        Seq::empty()
    } else {
        all_kept(cs.drop_last(), level, ch) + kept_of(cs.last(), level, ch[cs.len() - 1])
    }
}

/// The removed paths of all groups, group after group.
pub open spec fn all_removed(cs: Seq<Seq<Seq<u8>>>, level: AutoConfirmLevel, ch: Seq<Choice>) -> Seq<
    Seq<u8>,
>
    decreases cs.len(),
{
    if cs.len() == 0 || ch.len() < cs.len() {
        Seq::empty()
    } else {
        all_removed(cs.drop_last(), level, ch) + removed_of(cs.last(), level, ch[cs.len() - 1])
    }
}

/// The ignored paths of all groups, group after group.
pub open spec fn all_ignored(cs: Seq<Seq<Seq<u8>>>, level: AutoConfirmLevel, ch: Seq<Choice>) -> Seq<
    Seq<u8>,
>
    decreases cs.len(),
{
    if cs.len() == 0 || ch.len() < cs.len() {
        Seq::empty()
    } else {
        all_ignored(cs.drop_last(), level, ch) + ignored_of(cs.last(), level, ch[cs.len() - 1])
    }
}

/// The paths of each candidate list.
pub open spec fn group_paths(cands: Seq<Vec<Package>>) -> Seq<Seq<Seq<u8>>> {
    cands.map_values(|c: Vec<Package>| path_seq(c@))
}

proof fn lemma_bytes_ms_views(v: Seq<Vec<u8>>)
    ensures
        bytes_ms(v) == byte_views(v).to_multiset(),
    decreases v.len(),
{
    if v.len() > 0 {
        lemma_bytes_ms_views(v.drop_last());
        assert(byte_views(v) =~= byte_views(v.drop_last()).push(v.last()@));
        byte_views(v.drop_last()).to_multiset_ensures();
    } else {
        assert(byte_views(v) =~= Seq::<Seq<u8>>::empty());
        byte_views(v).to_multiset_ensures();
        assert(byte_views(v).to_multiset() =~= Multiset::empty());
    }
}

/// Ends a run: settles the sorted candidates of each group with the
/// operator's choice for it, adds what the groups keep, remove and ignore to
/// what the fold already removed and ignored, and then matches the signature
/// files and sorts the lists.
pub fn settle_all(
    cands: &Vec<Vec<Package>>,
    level: AutoConfirmLevel,
    choices: &Vec<Choice>,
    signatures: &Vec<Vec<u8>>,
    removed: Vec<Vec<u8>>,
    ignored: Vec<Vec<u8>>,
) -> (r: Outcome)
    requires
        choices@.len() == cands@.len(),
        forall|i: int|
            0 <= i < cands@.len() ==> (#[trigger] choices@[i] matches Choice::Keep(k) ==> k
                < cands@[i]@.len()),
        forall|i: int| 0 <= i < signatures@.len() ==> is_signature(#[trigger] signatures@[i]@),
    ensures
        ({
            let cs = group_paths(cands@);
            let kept = all_kept(cs, level, choices@);
            let rem = byte_views(removed@) + all_removed(cs, level, choices@);
            let ign = byte_views(ignored@) + all_ignored(cs, level, choices@);
            let sv = byte_views(signatures@);
            &&& byte_views(r.kept@) == kept
            &&& sorted_asc(r.removed@)
            &&& sorted_asc(r.ignored@)
            &&& bytes_ms(r.removed@) == (rem + sigs_removed(sv, rem)).to_multiset()
            &&& bytes_ms(r.ignored@) == (ign + sigs_ignored(sv, rem, kept)).to_multiset()
        }),
{
    let ghost cs = group_paths(cands@);
    let ghost r0 = byte_views(removed@);
    let ghost i0 = byte_views(ignored@);
    let mut kept: Vec<Vec<u8>> = Vec::new();
    let mut rem = removed;
    let mut ign = ignored;
    let mut i: usize = 0;
    assert(byte_views(kept@) =~= Seq::<Seq<u8>>::empty());
    assert(r0 + all_removed(cs.take(0), level, choices@) =~= r0);
    assert(i0 + all_ignored(cs.take(0), level, choices@) =~= i0);
    while i < cands.len()
        invariant
            i <= cands@.len() == choices@.len(),
            cs == group_paths(cands@),
            forall|j: int|
                0 <= j < cands@.len() ==> (#[trigger] choices@[j] matches Choice::Keep(k) ==> k
                    < cands@[j]@.len()),
            byte_views(kept@) == all_kept(cs.take(i as int), level, choices@),
            byte_views(rem@) == r0 + all_removed(cs.take(i as int), level, choices@),
            byte_views(ign@) == i0 + all_ignored(cs.take(i as int), level, choices@),
        decreases cands@.len() - i,
    {
        let c = &cands[i];
        let choice = choices[i];
        assert(choices@[i as int] == choice);
        let s = settle(c, level, choice);
        let ghost k0 = byte_views(kept@);
        let ghost m0 = byte_views(rem@);
        let ghost g0 = byte_views(ign@);
        let mut sk = s.kept;
        let mut sr = s.removed;
        let mut si = s.ignored;
        let ghost skv = byte_views(sk@);
        let ghost srv = byte_views(sr@);
        let ghost siv = byte_views(si@);
        kept.append(&mut sk);
        rem.append(&mut sr);
        ign.append(&mut si);
        proof {
            let t = cs.take(i + 1);
            assert(t.drop_last() =~= cs.take(i as int));
            assert(t.last() == path_seq(c@));
            assert(t.len() == i + 1);
            let ps = path_seq(c@);
            if srv.len() == 0 {
                assert(srv =~= Seq::<Seq<u8>>::empty());
            }
            if siv.len() == 0 {
                assert(siv =~= Seq::<Seq<u8>>::empty());
            }
            if skv.len() == 0 {
                assert(skv =~= Seq::<Seq<u8>>::empty());
            }
            assert(skv == kept_of(ps, level, choice));
            assert(srv == removed_of(ps, level, choice));
            assert(siv == ignored_of(ps, level, choice));
            assert(byte_views(kept@) =~= k0 + skv);
            assert(byte_views(rem@) =~= m0 + srv);
            assert(byte_views(ign@) =~= g0 + siv);
            assert(byte_views(rem@) =~= r0 + all_removed(t, level, choices@));
            assert(byte_views(ign@) =~= i0 + all_ignored(t, level, choices@));
        }
        i = i + 1;
    }
    assert(cs.take(i as int) =~= cs);
    let ghost kv = byte_views(kept@);
    let ghost rv = byte_views(rem@);
    let ghost iv = byte_views(ign@);
    let ghost sv = byte_views(signatures@);
    let ghost rem_s = rem@;
    let ghost ign_s = ign@;
    let out = finish(signatures, kept, rem, ign);
    proof {
        lemma_bytes_ms_views(rem_s);
        lemma_bytes_ms_views(ign_s);
        lemma_multiset_commutative(rv, sigs_removed(sv, rv));
        lemma_multiset_commutative(iv, sigs_ignored(sv, rv, kv));
    }
    out
}

} // verus!
