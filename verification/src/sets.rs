//! The set reconciler.
//!
//! `next_match_set_action` compares the observed addon set with the
//! desired one and returns one membership fix: an `Add` of some
//! desired-but-absent element while any exists, otherwise a `Remove`
//! of some present-but-undesired element, otherwise `None`. Which
//! element of the difference is picked is not part of the contract;
//! every valid pick shrinks the symmetric difference by exactly one.

use vstd::prelude::*;

use crate::actions::{SetAction, SetEdit};

verus! {

/// The element a membership edit speaks of.
pub open spec fn set_edit_element<A>(e: SetEdit<A>) -> A {
    match e {
        SetEdit::Add(x) => x,
        SetEdit::Remove(x) => x,
    }
}

/// Holds when the edit repairs a genuine membership difference
/// between the observed set `from` and the desired set `to`.
pub open spec fn set_edit_fixes<A>(from: Set<A>, to: Set<A>, e: SetEdit<A>) -> bool {
    match e {
        SetEdit::Add(x) => to.contains(x) && !from.contains(x),
        SetEdit::Remove(x) => from.contains(x) && !to.contains(x),
    }
}

/// The next membership fix: an addition while anything desired is
/// missing, then a removal while anything undesired is present, then
/// nothing. The element picked among several candidates is arbitrary.
pub open spec fn next_set_edit<A>(from: Set<A>, to: Set<A>) -> Option<SetEdit<A>> {
    if exists|x: A| to.contains(x) && !from.contains(x) {
        Some(SetEdit::Add(choose|x: A| to.contains(x) && !from.contains(x)))
    } else if exists|x: A| from.contains(x) && !to.contains(x) {
        Some(SetEdit::Remove(choose|x: A| from.contains(x) && !to.contains(x)))
    } else {
        None
    }
}

/// The effect of one membership edit: the simulated counterpart of
/// applying the action against the remote system.
pub open spec fn apply_set_edit<A>(s: Set<A>, e: SetEdit<A>) -> Set<A> {
    match e {
        SetEdit::Add(x) => s.insert(x),
        SetEdit::Remove(x) => s.remove(x),
    }
}

/// The symmetric difference: everything on which the two sets disagree.
pub open spec fn sym_diff<A>(a: Set<A>, b: Set<A>) -> Set<A> {
    a.difference(b).union(b.difference(a))
}

/// Holds when repeatedly deciding a membership fix and simulating its
/// effect turns `from` into `to` within `fuel` rounds.
pub open spec fn set_converges_in<A>(from: Set<A>, to: Set<A>, fuel: nat) -> bool
    decreases fuel,
{
    match next_set_edit(from, to) {
        None => from == to,
        Some(e) => fuel > 0 && set_converges_in(apply_set_edit(from, e), to, (fuel - 1) as nat),
    }
}

/// What a decision means: `None` comes back exactly on equal sets, a
/// returned edit fixes a genuine difference, and a removal is only
/// decided once nothing is left to add.
pub proof fn lemma_next_set_edit_characterises<A>(from: Set<A>, to: Set<A>)
    ensures
        match next_set_edit(from, to) {
            None => from == to,
            Some(e) => set_edit_fixes(from, to, e) && (e is Remove ==> to.subset_of(from)),
        },
        from == to ==> next_set_edit(from, to) is None,
{
    if next_set_edit(from, to) is None {
        assert(from =~= to);
    }
}

/// Every edit that fixes a difference shrinks the symmetric
/// difference by exactly its element.
pub proof fn lemma_set_progress<A>(from: Set<A>, to: Set<A>, e: SetEdit<A>)
    requires
        set_edit_fixes(from, to, e),
    ensures
        sym_diff(apply_set_edit(from, e), to) =~= sym_diff(from, to).remove(set_edit_element(e)),
        sym_diff(from, to).contains(set_edit_element(e)),
{
}

/// Convergence of the set reconciler: for any finite sets, repeatedly
/// deciding a membership fix and simulating its effect reaches the
/// desired set in at most as many rounds as the two sets disagree on
/// elements.
pub proof fn lemma_set_converges<A>(from: Set<A>, to: Set<A>)
    requires
        from.finite(),
        to.finite(),
    ensures
        set_converges_in(from, to, sym_diff(from, to).len()),
    decreases sym_diff(from, to).len(),
{
    let d = sym_diff(from, to);
    assert(d.finite());
    lemma_next_set_edit_characterises(from, to);
    match next_set_edit(from, to) {
        None => {},
        Some(e) => {
            lemma_set_progress(from, to, e);
            let x = set_edit_element(e);
            let stepped = apply_set_edit(from, e);
            assert(d.remove(x).len() + 1 == d.len());
            assert(stepped.finite());
            assert(sym_diff(stepped, to).len() == d.len() - 1);
            lemma_set_converges(stepped, to);
        },
    }
}

/// Deciding over a set that already equals the desired one yields no
/// action: the reconciler is idempotent at convergence.
pub proof fn lemma_set_idempotent<A>(s: Set<A>)
    ensures
        next_set_edit(s, s) is None,
{
    lemma_next_set_edit_characterises(s, s);
}

/// Whether some element of `v` reads as `x`, taking the vector as a
/// plain set of identifiers.
fn vec_contains(v: &Vec<String>, x: &String) -> (r: bool)
    ensures
        r == v.deep_view().to_set().contains(x@),
{
    let mut j: usize = 0;
    while j < v.len()
        invariant
            j <= v.len(),
            forall|k: int| 0 <= k < j ==> v.deep_view()[k] != x@,
        decreases v.len() - j,
    {
        if v[j] == *x {
            proof {
                assert(v.deep_view()[j as int] == x@);
                assert(v.deep_view().contains(x@));
            }
            return true;
        }
        j += 1;
    }
    proof {
        assert(!v.deep_view().contains(x@));
    }
    false
}

/// Decides one membership fix that moves the observed set `from`
/// closer to the desired set `to`, or `None` when the two are equal as
/// sets. An addition is preferred: a removal only comes back once
/// everything desired is present. Both vectors are read as sets;
/// their order and any duplicates carry no meaning.
pub fn next_match_set_action(from: &Vec<String>, to: &Vec<String>) -> (r: Option<SetAction>)
    ensures
        match r {
            None => from.deep_view().to_set() == to.deep_view().to_set(),
            Some(a) => set_edit_fixes(from.deep_view().to_set(), to.deep_view().to_set(), a@) && (
            a@ is Remove ==> to.deep_view().to_set().subset_of(from.deep_view().to_set())),
        },
{
    let ghost fs = from.deep_view().to_set();
    let ghost ts = to.deep_view().to_set();
    let mut i: usize = 0;
    while i < to.len()
        invariant
            i <= to.len(),
            fs == from.deep_view().to_set(),
            ts == to.deep_view().to_set(),
            forall|k: int| 0 <= k < i ==> fs.contains(to.deep_view()[k]),
        decreases to.len() - i,
    {
        if !vec_contains(from, &to[i]) {
            proof {
                assert(to.deep_view()[i as int] == to@[i as int]@);
                assert(to.deep_view().contains(to.deep_view()[i as int]));
            }
            return Some(SetAction::Add(to[i].clone()));
        }
        i += 1;
    }
    proof {
        assert forall|x: Seq<char>| ts.contains(x) implies fs.contains(x) by {
            assert(to.deep_view().contains(x));
            let k = choose|k: int|
                0 <= k < to.deep_view().len() && to.deep_view()[k] == x;
            assert(fs.contains(to.deep_view()[k]));
        }
    }
    let mut j: usize = 0;
    while j < from.len()
        invariant
            j <= from.len(),
            fs == from.deep_view().to_set(),
            ts == to.deep_view().to_set(),
            ts.subset_of(fs),
            forall|k: int| 0 <= k < j ==> ts.contains(from.deep_view()[k]),
        decreases from.len() - j,
    {
        if !vec_contains(to, &from[j]) {
            proof {
                assert(from.deep_view()[j as int] == from@[j as int]@);
                assert(from.deep_view().contains(from.deep_view()[j as int]));
            }
            return Some(SetAction::Remove(from[j].clone()));
        }
        j += 1;
    }
    proof {
        assert forall|x: Seq<char>| fs.contains(x) implies ts.contains(x) by {
            assert(from.deep_view().contains(x));
            let k = choose|k: int|
                0 <= k < from.deep_view().len() && from.deep_view()[k] == x;
            assert(ts.contains(from.deep_view()[k]));
        }
        assert(fs =~= ts);
    }
    None
}

/// Applies one membership fix to an in-memory copy of the observed
/// set, held as a vector of identifiers: the deterministic fake of
/// the remote target that a simulated convergence run drives. Its
/// effect on the set the vector holds is exactly `apply_set_edit`: an
/// addition appends the value, a removal drops every occurrence.
pub fn apply_set_action(current: &mut Vec<String>, action: &SetAction)
    ensures
        final(current).deep_view().to_set() == apply_set_edit(
            old(current).deep_view().to_set(),
            action@,
        ),
{
    match action {
        SetAction::Add(x) => {
            let ghost dv0 = current.deep_view();
            current.push(x.clone());
            proof {
                assert(current.deep_view() =~= dv0.push(x@));
                let dv = current.deep_view();
                assert forall|y: Seq<char>| dv.to_set().contains(y) implies dv0.to_set().insert(
                    x@,
                ).contains(y) by {
                    let m = choose|m: int| 0 <= m < dv.len() && dv[m] == y;
                    if m < dv0.len() {
                        assert(dv0[m] == y);
                    }
                }
                assert forall|y: Seq<char>|
                    dv0.to_set().insert(x@).contains(y) implies dv.to_set().contains(y) by {
                    if y == x@ {
                        assert(dv[dv0.len() as int] == y);
                    } else {
                        let m = choose|m: int| 0 <= m < dv0.len() && dv0[m] == y;
                        assert(dv[m] == y);
                    }
                }
                assert(dv.to_set() =~= dv0.to_set().insert(x@));
            }
        },
        SetAction::Remove(x) => {
            let ghost dv0 = current.deep_view();
            let mut kept: Vec<String> = Vec::new();
            let mut j: usize = 0;
            while j < current.len()
                invariant
                    j <= current.len(),
                    dv0 == current.deep_view(),
                    forall|m: int|
                        0 <= m < kept.deep_view().len() ==> #[trigger] kept.deep_view()[m] != x@
                            && dv0.contains(kept.deep_view()[m]),
                    forall|m: int|
                        0 <= m < j ==> dv0[m] == x@ || kept.deep_view().contains(#[trigger] dv0[m]),
                decreases current.len() - j,
            {
                let ghost kdv = kept.deep_view();
                if current[j] == *x {
                    proof {
                        assert(dv0[j as int] == x@);
                    }
                } else {
                    let c = current[j].clone();
                    kept.push(c);
                    proof {
                        assert(kept.deep_view() =~= kdv.push(dv0[j as int]));
                        assert(kept.deep_view()[kdv.len() as int] == dv0[j as int]);
                        assert forall|m: int| 0 <= m < j + 1 implies dv0[m] == x@
                            || kept.deep_view().contains(#[trigger] dv0[m]) by {
                            if m < j && dv0[m] != x@ {
                                let w = choose|w: int| 0 <= w < kdv.len() && kdv[w] == dv0[m];
                                assert(kept.deep_view()[w] == dv0[m]);
                            }
                        }
                    }
                }
                j += 1;
            }
            *current = kept;
            proof {
                let dv = current.deep_view();
                assert forall|y: Seq<char>| dv.to_set().contains(y) implies dv0.to_set().remove(
                    x@,
                ).contains(y) by {
                    let m = choose|m: int| 0 <= m < dv.len() && dv[m] == y;
                    assert(dv[m] != x@ && dv0.contains(dv[m]));
                }
                assert forall|y: Seq<char>|
                    dv0.to_set().remove(x@).contains(y) implies dv.to_set().contains(y) by {
                    let m = choose|m: int| 0 <= m < dv0.len() && dv0[m] == y;
                    assert(dv0[m] == x@ || dv.contains(dv0[m]));
                }
                assert(dv.to_set() =~= dv0.to_set().remove(x@));
            }
        },
    }
}

} // verus!
