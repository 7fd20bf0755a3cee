//! The ordered-sequence reconciler.
//!
//! `next_match_action` walks the observed and the desired sequence
//! positionally and returns the single next edit that brings the
//! observed one a step closer, or `None` once they are equal. The rule
//! is deliberately greedy, not a minimal-edit-distance diff: a
//! mismatched head is always cleared by `Remove` before any insertion
//! is considered, because that is the observable behaviour a driver
//! relies on.

use vstd::prelude::*;

use crate::actions::{ListAction, SeqEdit};

verus! {

/// Moves an edit's position by `d`.
pub open spec fn shift_edit<A>(e: SeqEdit<A>, d: int) -> SeqEdit<A> {
    match e {
        SeqEdit::Remove(i) => SeqEdit::Remove(i + d),
        SeqEdit::Insert(i, v) => SeqEdit::Insert(i + d, v),
    }
}

/// Moves an optional edit's position by `d`.
pub open spec fn shift_edit_opt<A>(e: Option<SeqEdit<A>>, d: int) -> Option<SeqEdit<A>> {
    match e {
        None => None,
        Some(e) => Some(shift_edit(e, d)),
    }
}

/// The next edit that moves `from` one step closer to `to`:
/// - equal sequences need nothing;
/// - differing heads are resolved by removing `from`'s head;
/// - a head that `to` lacks is removed, one that `from` lacks is
///   inserted;
/// - matching heads are kept, and the tails' edit is shifted up by one.
pub open spec fn next_seq_edit<A>(from: Seq<A>, to: Seq<A>) -> Option<SeqEdit<A>>
    decreases from.len() + to.len(),
{
    if from.len() == 0 && to.len() == 0 {
        None
    } else if from.len() > 0 && to.len() > 0 && from[0] != to[0] {
        Some(SeqEdit::Remove(0))
    } else if from.len() > 0 && to.len() == 0 {
        Some(SeqEdit::Remove(0))
    } else if from.len() == 0 {
        Some(SeqEdit::Insert(0, to[0]))
    } else {
        shift_edit_opt(next_seq_edit(from.drop_first(), to.drop_first()), 1)
    }
}

/// Shifting by `d` then by `e` is shifting by `d + e`, and shifting by
/// zero changes nothing.
proof fn lemma_shift_edit_opt_compose<A>(o: Option<SeqEdit<A>>, d: int, e: int)
    ensures
        shift_edit_opt(shift_edit_opt(o, d), e) == shift_edit_opt(o, d + e),
        shift_edit_opt(o, 0) == o,
{
    match o {
        None => {},
        Some(a) => {
            match a {
                SeqEdit::Remove(_) => {},
                SeqEdit::Insert(_, _) => {},
            }
        },
    }
}

/// When the first `i` elements agree, the decision for the whole
/// sequences is the decision for the parts after them, shifted by `i`.
proof fn lemma_next_edit_after_prefix<A>(from: Seq<A>, to: Seq<A>, i: int)
    requires
        0 <= i <= from.len(),
        i <= to.len(),
        forall|j: int| 0 <= j < i ==> from[j] == to[j],
    ensures
        next_seq_edit(from, to) == shift_edit_opt(next_seq_edit(from.skip(i), to.skip(i)), i),
    decreases i,
{
    if i == 0 {
        assert(from.skip(0) =~= from);
        assert(to.skip(0) =~= to);
        lemma_shift_edit_opt_compose(next_seq_edit(from, to), 0, 0);
    } else {
        let df = from.drop_first();
        let dt = to.drop_first();
        assert(forall|j: int| 0 <= j < i - 1 ==> df[j] == dt[j]);
        lemma_next_edit_after_prefix(df, dt, i - 1);
        assert(df.skip(i - 1) =~= from.skip(i));
        assert(dt.skip(i - 1) =~= to.skip(i));
        lemma_shift_edit_opt_compose(next_seq_edit(from.skip(i), to.skip(i)), i - 1, 1);
    }
}

/// The greedy mismatched-head rule: whenever both sequences have a
/// head and the heads differ, the decision is to remove the observed
/// head — never to insert in front of it.
pub proof fn lemma_mismatched_head_removes<A>(from: Seq<A>, to: Seq<A>)
    requires
        from.len() > 0,
        to.len() > 0,
        from[0] != to[0],
    ensures
        next_seq_edit(from, to) == Some(SeqEdit::<A>::Remove(0)),
{
}

/// The effect of one edit on a sequence: the simulated counterpart of
/// applying the action against the remote system. An out-of-range
/// position leaves the sequence unchanged; the decided edits are
/// always in range (`lemma_next_edit_in_range`).
pub open spec fn apply_seq_edit<A>(s: Seq<A>, e: SeqEdit<A>) -> Seq<A> {
    match e {
        SeqEdit::Remove(i) => if 0 <= i < s.len() {
            s.remove(i)
        } else {
            s
        },
        SeqEdit::Insert(i, v) => if 0 <= i <= s.len() {
            s.insert(i, v)
        } else {
            s
        },
    }
}

/// Every decided edit speaks of a position inside the observed
/// sequence, and an insertion carries exactly the desired element at
/// that position.
pub proof fn lemma_next_edit_in_range<A>(from: Seq<A>, to: Seq<A>)
    ensures
        match next_seq_edit(from, to) {
            Some(SeqEdit::Remove(i)) => 0 <= i < from.len(),
            Some(SeqEdit::Insert(i, v)) => 0 <= i <= from.len() && i < to.len() && v == to[i],
            None => true,
        },
    decreases from.len() + to.len(),
{
    if from.len() > 0 && to.len() > 0 && from[0] == to[0] {
        lemma_next_edit_in_range(from.drop_first(), to.drop_first());
    }
}

/// A decision falls only on unequal sequences: `None` comes back
/// exactly when the observed sequence already equals the desired one.
pub proof fn lemma_next_edit_none_iff_converged<A>(from: Seq<A>, to: Seq<A>)
    ensures
        next_seq_edit(from, to) is None <==> from == to,
    decreases from.len() + to.len(),
{
    if from.len() == 0 && to.len() == 0 {
        assert(from =~= to);
    } else if from.len() > 0 && to.len() > 0 && from[0] == to[0] {
        lemma_next_edit_none_iff_converged(from.drop_first(), to.drop_first());
        if from.drop_first() == to.drop_first() {
            assert forall|j: int| 0 <= j < from.len() implies from[j] == to[j] by {
                if j > 0 {
                    assert(from[j] == from.drop_first()[j - 1]);
                    assert(to[j] == to.drop_first()[j - 1]);
                }
            }
            assert(from =~= to);
        }
        if from == to {
            assert(from.drop_first() =~= to.drop_first());
        }
    }
}

/// Deciding over a sequence that already equals the desired one yields
/// no action: the reconciler is idempotent at convergence.
pub proof fn lemma_ordered_idempotent<A>(l: Seq<A>)
    ensures
        next_seq_edit(l, l) is None,
{
    lemma_next_edit_none_iff_converged(l, l);
}

/// The number of decide-apply rounds that bring `from` to `to`.
pub open spec fn convergence_distance<A>(from: Seq<A>, to: Seq<A>) -> nat
    decreases from.len() + to.len(),
{
    if from.len() == 0 && to.len() == 0 {
        0
    } else if from.len() > 0 && to.len() > 0 && from[0] == to[0] {
        convergence_distance(from.drop_first(), to.drop_first())
    } else if from.len() > 0 {
        1 + convergence_distance(from.drop_first(), to)
    } else {
        1 + convergence_distance(from, to.drop_first())
    }
}

/// Holds when repeatedly deciding an edit and simulating its effect
/// turns `from` into `to` within `fuel` rounds.
pub open spec fn converges_in<A>(from: Seq<A>, to: Seq<A>, fuel: nat) -> bool
    decreases fuel,
{
    match next_seq_edit(from, to) {
        None => from == to,
        Some(e) => fuel > 0 && converges_in(apply_seq_edit(from, e), to, (fuel - 1) as nat),
    }
}

/// Convergence within some fuel is convergence within any larger fuel.
pub proof fn lemma_converges_in_mono<A>(from: Seq<A>, to: Seq<A>, n1: nat, n2: nat)
    requires
        converges_in(from, to, n1),
        n1 <= n2,
    ensures
        converges_in(from, to, n2),
    decreases n1,
{
    match next_seq_edit(from, to) {
        None => {},
        Some(e) => {
            lemma_converges_in_mono(apply_seq_edit(from, e), to, (n1 - 1) as nat, (n2 - 1) as nat);
        },
    }
}

/// A convergence run is stable under a shared head: whatever rounds
/// turn `from` into `to` also turn `x :: from` into `x :: to`.
proof fn lemma_converges_in_cons<A>(x: A, from: Seq<A>, to: Seq<A>, n: nat)
    requires
        converges_in(from, to, n),
    ensures
        converges_in(seq![x] + from, seq![x] + to, n),
    decreases n,
{
    let cf = seq![x] + from;
    let ct = seq![x] + to;
    assert(cf.drop_first() =~= from);
    assert(ct.drop_first() =~= to);
    match next_seq_edit(from, to) {
        None => {
            lemma_next_edit_none_iff_converged(from, to);
            assert(cf =~= ct);
            lemma_next_edit_none_iff_converged(cf, ct);
        },
        Some(e) => {
            lemma_next_edit_in_range(from, to);
            assert(next_seq_edit(cf, ct) == Some(shift_edit(e, 1)));
            match e {
                SeqEdit::Remove(i) => {
                    assert(apply_seq_edit(cf, shift_edit(e, 1)) =~= seq![x] + apply_seq_edit(
                        from,
                        e,
                    ));
                },
                SeqEdit::Insert(i, v) => {
                    assert(apply_seq_edit(cf, shift_edit(e, 1)) =~= seq![x] + apply_seq_edit(
                        from,
                        e,
                    ));
                },
            }
            lemma_converges_in_cons(x, apply_seq_edit(from, e), to, (n - 1) as nat);
        },
    }
}

/// Decide-and-apply turns `from` into `to` in exactly the rounds that
/// `convergence_distance` counts.
pub proof fn lemma_converges_in_distance<A>(from: Seq<A>, to: Seq<A>)
    ensures
        converges_in(from, to, convergence_distance(from, to)),
    decreases from.len() + to.len(),
{
    if from.len() == 0 && to.len() == 0 {
        assert(from =~= to);
    } else if from.len() > 0 && to.len() > 0 && from[0] == to[0] {
        let df = from.drop_first();
        let dt = to.drop_first();
        lemma_converges_in_distance(df, dt);
        lemma_converges_in_cons(from[0], df, dt, convergence_distance(df, dt));
        assert(seq![from[0]] + df =~= from);
        assert(seq![from[0]] + dt =~= to);
    } else if from.len() > 0 {
        // a mismatched or surplus head is removed
        let df = from.drop_first();
        lemma_converges_in_distance(df, to);
        assert(next_seq_edit(from, to) == Some(SeqEdit::<A>::Remove(0)));
        assert(apply_seq_edit(from, SeqEdit::<A>::Remove(0)) =~= df);
        lemma_converges_in_mono(df, to, convergence_distance(df, to), convergence_distance(df, to));
    } else {
        // the missing head of `to` is inserted
        let dt = to.drop_first();
        lemma_converges_in_distance(from, dt);
        assert(next_seq_edit(from, to) == Some(SeqEdit::Insert(0, to[0])));
        let stepped = apply_seq_edit(from, SeqEdit::Insert(0, to[0]));
        assert(stepped =~= seq![to[0]] + from);
        lemma_converges_in_cons(to[0], from, dt, convergence_distance(from, dt));
        assert(seq![to[0]] + dt =~= to);
    }
}

/// The distance never exceeds the two lengths together.
pub proof fn lemma_distance_bound<A>(from: Seq<A>, to: Seq<A>)
    ensures
        convergence_distance(from, to) <= from.len() + to.len(),
    decreases from.len() + to.len(),
{
    if from.len() == 0 && to.len() == 0 {
    } else if from.len() > 0 && to.len() > 0 && from[0] == to[0] {
        lemma_distance_bound(from.drop_first(), to.drop_first());
    } else if from.len() > 0 {
        lemma_distance_bound(from.drop_first(), to);
    } else {
        lemma_distance_bound(from, to.drop_first());
    }
}

/// Convergence of the ordered reconciler: for any finite sequences,
/// repeatedly deciding an edit and simulating its effect reaches the
/// desired sequence in at most `from.len() + to.len()` rounds.
pub proof fn lemma_ordered_converges<A>(from: Seq<A>, to: Seq<A>)
    ensures
        converges_in(from, to, (from.len() + to.len()) as nat),
{
    lemma_converges_in_distance(from, to);
    lemma_distance_bound(from, to);
    lemma_converges_in_mono(
        from,
        to,
        convergence_distance(from, to),
        (from.len() + to.len()) as nat,
    );
}

/// Decides the single next edit that moves `from` closer to `to`, or
/// `None` when the two sequences are already equal. The returned
/// position is a zero-based index into `from` as observed now; it is
/// stale as soon as any action is applied.
pub fn next_match_action(from: &Vec<String>, to: &Vec<String>) -> (r: Option<ListAction>)
    ensures
        match r {
            Some(a) => next_seq_edit(from.deep_view(), to.deep_view()) == Some(a@),
            None => next_seq_edit(from.deep_view(), to.deep_view()) is None,
        },
{
    let ghost fdv = from.deep_view();
    let ghost tdv = to.deep_view();
    let fl = from.len();
    let tl = to.len();
    let n = if fl < tl {
        fl
    } else {
        tl
    };
    let mut i: usize = 0;
    while i < n && from[i] == to[i]
        invariant
            i <= n,
            n <= fl == fdv.len(),
            n <= tl == tdv.len(),
            n == fl || n == tl,
            fdv == from.deep_view(),
            tdv == to.deep_view(),
            forall|j: int| 0 <= j < i ==> fdv[j] == tdv[j],
        decreases n - i,
    {
        assert(fdv[i as int] == from@[i as int]@);
        assert(tdv[i as int] == to@[i as int]@);
        i += 1;
    }
    proof {
        lemma_next_edit_after_prefix(fdv, tdv, i as int);
    }
    let ghost fs = fdv.skip(i as int);
    let ghost ts = tdv.skip(i as int);
    if i < fl && i < tl {
        // the loop stopped on a mismatch before either end
        assert(fdv[i as int] != tdv[i as int]);
        assert(fs[0] == fdv[i as int] && ts[0] == tdv[i as int]);
        assert(next_seq_edit(fs, ts) == Some(SeqEdit::<Seq<char>>::Remove(0)));
        Some(ListAction::Remove(i))
    } else if i < fl {
        // the desired sequence is exhausted
        assert(ts.len() == 0 && fs.len() > 0);
        assert(next_seq_edit(fs, ts) == Some(SeqEdit::<Seq<char>>::Remove(0)));
        Some(ListAction::Remove(i))
    } else if i < tl {
        // the observed sequence is exhausted
        assert(fs.len() == 0 && ts.len() > 0);
        assert(ts[0] == tdv[i as int]);
        assert(next_seq_edit(fs, ts) == Some(SeqEdit::Insert(0, tdv[i as int])));
        let v = to[i].clone();
        Some(ListAction::Insert(i, v))
    } else {
        assert(fs.len() == 0 && ts.len() == 0);
        None
    }
}

/// Applies one decided edit to an in-memory copy of the observed
/// sequence: the deterministic fake of the remote target that a
/// simulated convergence run drives. Its effect is exactly
/// `apply_seq_edit` on the view; an out-of-range position — which no
/// decision produces — changes nothing.
pub fn apply_list_action(current: &mut Vec<String>, action: &ListAction)
    ensures
        final(current).deep_view() == apply_seq_edit(old(current).deep_view(), action@),
{
    let ghost dv0 = current.deep_view();
    match action {
        ListAction::Remove(i) => {
            if *i < current.len() {
                let ghost seq0 = current@;
                current.remove(*i);
                proof {
                    seq0.remove_ensures(*i as int);
                    dv0.remove_ensures(*i as int);
                    assert(current.deep_view() =~= dv0.remove(*i as int));
                }
            }
        },
        ListAction::Insert(i, v) => {
            if *i <= current.len() {
                let ghost seq0 = current@;
                let c = v.clone();
                current.insert(*i, c);
                proof {
                    seq0.insert_ensures(*i as int, c);
                    dv0.insert_ensures(*i as int, v@);
                    assert(current.deep_view() =~= dv0.insert(*i as int, v@));
                }
            }
        },
    }
}

} // verus!
