//! Mathematical model of instant-runoff tabulation.
//!
//! The state of a tabulation is a pair: the multiset of ballots that were
//! cast (`live`) and the set of candidates not yet eliminated (`active`).
//! Each ballot is counted for the first candidate on it that is still
//! active; a ballot with no active candidate left is exhausted and counts
//! for nobody. `winners_from` plays the rounds out: majority, full tie, or
//! elimination of everyone tied for the fewest votes.

use vstd::multiset::Multiset;
use vstd::prelude::*;
use vstd::set_lib::lemma_len_subset;

verus! {

/// Position of the first candidate on `ballot` that is in `active`,
/// or `None` when no candidate on the ballot is active.
pub open spec fn first_active_index(ballot: Seq<u64>, active: Set<u64>) -> Option<int>
    decreases ballot.len(),
{
    if ballot.len() == 0 {
        None
    } else if active.contains(ballot[0]) {
        Some(0int)
    } else {
        match first_active_index(ballot.drop_first(), active) {
            Some(i) => Some(i + 1),
            None => None,
        }
    }
}

/// The candidate a ballot is currently counted for: its first still-active
/// preference, or `None` when the ballot is exhausted.
pub open spec fn assigned(ballot: Seq<u64>, active: Set<u64>) -> Option<u64> {
    match first_active_index(ballot, active) {
        Some(i) => Some(ballot[i]),
        None => None,
    }
}

/// The ballots among `live` currently counted for candidate `c`.
pub open spec fn ballots_for(live: Multiset<Seq<u64>>, active: Set<u64>, c: u64) -> Multiset<
    Seq<u64>,
> {
    live.filter(|b: Seq<u64>| assigned(b, active) == Some(c))
}

/// Candidate `c`'s current vote count.
pub open spec fn vote_count(live: Multiset<Seq<u64>>, active: Set<u64>, c: u64) -> nat {
    ballots_for(live, active, c).len()
}

/// The number of ballots still counted for some active candidate.
pub open spec fn live_count(live: Multiset<Seq<u64>>, active: Set<u64>) -> nat {
    live.filter(|b: Seq<u64>| assigned(b, active) is Some).len()
}

/// Candidate `c` holds a remaining majority: strictly more than half of the
/// ballots still being counted. An exact half is not a majority.
pub open spec fn has_majority(live: Multiset<Seq<u64>>, active: Set<u64>, c: u64) -> bool {
    active.contains(c) && 2 * vote_count(live, active, c) > live_count(live, active)
}

/// Every active candidate holds the same vote count.
pub open spec fn all_tied(live: Multiset<Seq<u64>>, active: Set<u64>) -> bool {
    forall|c: u64, d: u64|
        active.contains(c) && active.contains(d) ==> vote_count(live, active, c) == vote_count(
            live,
            active,
            d,
        )
}

/// The candidates that survive one elimination round: everyone not tied for
/// the fewest votes. All worst-tied candidates leave together.
pub open spec fn survivors(live: Multiset<Seq<u64>>, active: Set<u64>) -> Set<u64> {
    active.filter(
        |c: u64|
            exists|d: u64|
                active.contains(d) && vote_count(live, active, d) < vote_count(live, active, c),
    )
}

/// The winners of the tabulation that starts from `active`: a single
/// majority holder, all remaining candidates when they are fully tied,
/// and otherwise whatever the next round decides after the candidates with
/// the fewest votes are eliminated.
pub open spec fn winners_from(live: Multiset<Seq<u64>>, active: Set<u64>) -> Set<u64>
    decreases active.len(),
    when active.finite()
    via winners_from_decreases
{
    if active.is_empty() {
        Set::empty()
    } else if exists|c: u64| has_majority(live, active, c) {
        active.filter(|c: u64| 2 * vote_count(live, active, c) > live_count(live, active))
    } else if all_tied(live, active) {
        active
    } else {
        winners_from(live, survivors(live, active))
    }
}

/// The candidates with at least one first-preference ballot. Only they ever
/// hold ballots, so only they can ever win.
pub open spec fn initial_active(live: Multiset<Seq<u64>>) -> Set<u64> {
    Set::new(|c: u64| exists|b: Seq<u64>| live.contains(b) && b.len() > 0 && b[0] == c)
}

/// The winner set of the election over the given ballots.
pub open spec fn spec_winners(ballots: Seq<Seq<u64>>) -> Set<u64> {
    winners_from(ballots.to_multiset(), initial_active(ballots.to_multiset()))
}

/// How many ballots name `c` as their first preference.
pub open spec fn first_choice_tally(ballots: Seq<Seq<u64>>, c: u64) -> nat {
    ballots.filter(|b: Seq<u64>| b.len() > 0 && b[0] == c).len()
}

/// How many ballots name any candidate at all.
pub open spec fn cast_count(ballots: Seq<Seq<u64>>) -> nat {
    ballots.filter(|b: Seq<u64>| b.len() > 0).len()
}

/// No candidate's first-preference tally exceeds the number of nonempty
/// ballots.
pub proof fn lemma_tally_le_cast(ballots: Seq<Seq<u64>>, c: u64)
    ensures
        first_choice_tally(ballots, c) <= cast_count(ballots),
    decreases ballots.len(),
{
    reveal(Seq::filter);
    if ballots.len() > 0 {
        lemma_tally_le_cast(ballots.drop_last(), c);
    }
}

/// What `first_active_index` finds: an active candidate, with no active
/// candidate anywhere before it; or nothing, when no entry is active.
pub proof fn lemma_first_active_index_props(ballot: Seq<u64>, active: Set<u64>)
    ensures
        match first_active_index(ballot, active) {
            Some(i) => 0 <= i < ballot.len() && active.contains(ballot[i]) && (forall|j: int|
                0 <= j < i ==> !active.contains(ballot[j])),
            None => forall|j: int| 0 <= j < ballot.len() ==> !active.contains(ballot[j]),
        },
    decreases ballot.len(),
{
    if ballot.len() == 0 {
    } else if active.contains(ballot[0]) {
    } else {
        let tail = ballot.drop_first();
        lemma_first_active_index_props(tail, active);
        match first_active_index(tail, active) {
            Some(i) => {
                assert(ballot[i + 1] == tail[i]);
                assert forall|j: int| 0 <= j < i + 1 implies !active.contains(ballot[j]) by {
                    if j > 0 {
                        assert(ballot[j] == tail[j - 1]);
                    }
                }
            },
            None => {
                assert forall|j: int| 0 <= j < ballot.len() implies !active.contains(
                    ballot[j],
                ) by {
                    if j > 0 {
                        assert(ballot[j] == tail[j - 1]);
                    }
                }
            },
        }
    }
}

/// A position that holds an active candidate, with none active before it,
/// is the position that `first_active_index` finds.
pub proof fn lemma_first_active_index_at(ballot: Seq<u64>, active: Set<u64>, i: int)
    requires
        0 <= i < ballot.len(),
        active.contains(ballot[i]),
        forall|j: int| 0 <= j < i ==> !active.contains(ballot[j]),
    ensures
        first_active_index(ballot, active) == Some(i),
    decreases ballot.len(),
{
    if i == 0 {
    } else {
        assert(!active.contains(ballot[0]));
        assert(forall|j: int| 0 <= j < ballot.len() - 1 ==> ballot.drop_first()[j] == ballot[j + 1]);
        lemma_first_active_index_at(ballot.drop_first(), active, i - 1);
    }
}

/// A ballot is only ever counted for an active candidate.
pub proof fn lemma_assigned_is_active(ballot: Seq<u64>, active: Set<u64>)
    ensures
        match assigned(ballot, active) {
            Some(c) => active.contains(c),
            None => true,
        },
{
    lemma_first_active_index_props(ballot, active);
}

/// Shrinking the active set cannot resurrect an exhausted ballot, and a
/// ballot whose candidate survives stays with that candidate.
pub proof fn lemma_assigned_shrink(ballot: Seq<u64>, big: Set<u64>, small: Set<u64>)
    requires
        small.subset_of(big),
    ensures
        assigned(ballot, big) is None ==> assigned(ballot, small) is None,
        forall|c: u64|
            assigned(ballot, big) == Some(c) && small.contains(c) ==> assigned(ballot, small)
                == Some(c),
{
    lemma_first_active_index_props(ballot, big);
    match first_active_index(ballot, big) {
        Some(i) => {
            if small.contains(ballot[i]) {
                lemma_first_active_index_at(ballot, small, i);
            }
        },
        None => {
            lemma_first_active_index_props(ballot, small);
            if first_active_index(ballot, small) is Some {
                let i = first_active_index(ballot, small)->Some_0;
                assert(!big.contains(ballot[i]));
            }
        },
    }
}

/// Filtering after inserting one element: the element joins the filtered
/// multiset exactly when it satisfies the predicate.
pub proof fn lemma_multiset_filter_insert<V>(m: Multiset<V>, p: spec_fn(V) -> bool, v: V)
    ensures
        p(v) ==> m.insert(v).filter(p) =~= m.filter(p).insert(v),
        !p(v) ==> m.insert(v).filter(p) =~= m.filter(p),
{
    broadcast use vstd::multiset::group_multiset_axioms;

}

/// A multiset that is pointwise contained in another is no larger.
pub proof fn lemma_multiset_subset_len<V>(a: Multiset<V>, b: Multiset<V>)
    requires
        a.subset_of(b),
    ensures
        a.len() <= b.len(),
{
    broadcast use vstd::multiset::group_multiset_axioms;

    assert(b =~= a.add(b.sub(a)));
    assert(b.len() == a.len() + b.sub(a).len());
}

/// Concatenating sequences adds their multisets.
pub proof fn lemma_to_multiset_add<V>(a: Seq<V>, b: Seq<V>)
    ensures
        (a + b).to_multiset() =~= a.to_multiset().add(b.to_multiset()),
    decreases b.len(),
{
    broadcast use vstd::multiset::group_multiset_axioms;
    broadcast use vstd::seq_lib::group_to_multiset_ensures;

    if b.len() == 0 {
        assert(a + b =~= a);
        assert(b.to_multiset().len() == 0);
        assert(b.to_multiset() =~= Multiset::<V>::empty());
    } else {
        lemma_to_multiset_add(a, b.drop_last());
        assert(a + b =~= (a + b.drop_last()).push(b.last()));
        assert(b =~= b.drop_last().push(b.last()));
    }
}

/// Filtering a sequence and then taking its multiset is the same as
/// filtering the multiset.
pub proof fn lemma_seq_filter_to_multiset<V>(s: Seq<V>, p: spec_fn(V) -> bool)
    ensures
        s.filter(p).to_multiset() =~= s.to_multiset().filter(p),
    decreases s.len(),
{
    broadcast use vstd::multiset::group_multiset_axioms;
    broadcast use vstd::seq_lib::group_to_multiset_ensures;

    reveal(Seq::filter);
    if s.len() == 0 {
        assert(s.to_multiset().len() == 0);
        assert(s.to_multiset() =~= Multiset::<V>::empty());
        assert(s.filter(p).to_multiset().len() == 0);
    } else {
        let prefix = s.drop_last();
        lemma_seq_filter_to_multiset(prefix, p);
        assert(s =~= prefix.push(s.last()));
        assert(s.to_multiset() =~= prefix.to_multiset().insert(s.last()));
        lemma_multiset_filter_insert(prefix.to_multiset(), p, s.last());
        if p(s.last()) {
            assert(s.filter(p) == prefix.filter(p).push(s.last()));
        }
    }
}

/// Two distinct candidates' vote counts never add up to more than the
/// number of ballots being counted.
pub proof fn lemma_counts_pair(live: Multiset<Seq<u64>>, active: Set<u64>, c: u64, d: u64)
    requires
        c != d,
    ensures
        vote_count(live, active, c) + vote_count(live, active, d) <= live_count(live, active),
{
    broadcast use vstd::multiset::group_multiset_axioms;

    let pc = |b: Seq<u64>| assigned(b, active) == Some(c);
    let pd = |b: Seq<u64>| assigned(b, active) == Some(d);
    let both = |b: Seq<u64>| assigned(b, active) == Some(c) || assigned(b, active) == Some(d);
    assert(live.filter(both) =~= live.filter(pc).add(live.filter(pd)));
    let psome = |b: Seq<u64>| assigned(b, active) is Some;
    assert(live.filter(both).subset_of(live.filter(psome)));
    lemma_multiset_subset_len(live.filter(both), live.filter(psome));
}

/// Only one candidate can hold a remaining majority.
pub proof fn lemma_majority_unique(live: Multiset<Seq<u64>>, active: Set<u64>, c: u64, d: u64)
    requires
        has_majority(live, active, c),
        has_majority(live, active, d),
    ensures
        c == d,
{
    if c != d {
        lemma_counts_pair(live, active, c, d);
    }
}

/// Candidate `c` belongs to `s` and minimises `f` over it.
pub open spec fn minimises_over(s: Set<u64>, f: spec_fn(u64) -> nat, c: u64) -> bool {
    s.contains(c) && (forall|d: u64| s.contains(d) ==> f(c) <= #[trigger] f(d))
}

/// A finite nonempty set of candidates has a member on which `f` is least.
pub proof fn lemma_set_min_exists(s: Set<u64>, f: spec_fn(u64) -> nat)
    requires
        s.finite(),
        !s.is_empty(),
    ensures
        exists|c: u64| minimises_over(s, f, c),
    decreases s.len(),
{
    let x = s.choose();
    assert(s.contains(x));
    let rest = s.remove(x);
    if rest.is_empty() {
        assert forall|d: u64| s.contains(d) implies f(x) <= #[trigger] f(d) by {
            if d != x {
                assert(rest.contains(d));
            }
        }
        assert(minimises_over(s, f, x));
    } else {
        lemma_set_min_exists(rest, f);
        let m = choose|c: u64| minimises_over(rest, f, c);
        if f(x) <= f(m) {
            assert forall|d: u64| s.contains(d) implies f(x) <= #[trigger] f(d) by {
                if d != x {
                    assert(rest.contains(d));
                }
            }
            assert(minimises_over(s, f, x));
        } else {
            assert forall|d: u64| s.contains(d) implies f(m) <= #[trigger] f(d) by {
                if d != x {
                    assert(rest.contains(d));
                }
            }
            assert(minimises_over(s, f, m));
        }
    }
}

/// When the active candidates are not fully tied, at least one of them is
/// tied for last, so an elimination round removes somebody: the survivor
/// set is a strictly smaller subset.
pub proof fn lemma_survivors_strict(live: Multiset<Seq<u64>>, active: Set<u64>)
    requires
        active.finite(),
        !active.is_empty(),
        !all_tied(live, active),
    ensures
        survivors(live, active).subset_of(active),
        survivors(live, active).finite(),
        survivors(live, active).len() < active.len(),
{
    let surv = survivors(live, active);
    assert(surv.subset_of(active));
    let f = |d: u64| vote_count(live, active, d);
    lemma_set_min_exists(active, f);
    let m = choose|c: u64| minimises_over(active, f, c);
    assert(!surv.contains(m)) by {
        if surv.contains(m) {
            let d = choose|d: u64|
                active.contains(d) && vote_count(live, active, d) < vote_count(live, active, m);
            assert(f(m) <= f(d));
        }
    }
    assert(surv.subset_of(active.remove(m)));
    lemma_len_subset(surv, active.remove(m));
    assert(active.remove(m).len() == active.len() - 1);
}

#[via_fn]
proof fn winners_from_decreases(live: Multiset<Seq<u64>>, active: Set<u64>) {
    if active.finite() && !active.is_empty() && !(exists|c: u64| has_majority(live, active, c))
        && !all_tied(live, active) {
        lemma_survivors_strict(live, active);
    }
}

/// Whoever wins was active when the tabulation started.
pub proof fn lemma_winners_from_subset(live: Multiset<Seq<u64>>, active: Set<u64>)
    requires
        active.finite(),
    ensures
        winners_from(live, active).subset_of(active),
        winners_from(live, active).finite(),
    decreases active.len(),
{
    if active.is_empty() {
    } else if exists|c: u64| has_majority(live, active, c) {
        vstd::set_lib::lemma_set_subset_finite(active, winners_from(live, active));
    } else if all_tied(live, active) {
    } else {
        lemma_survivors_strict(live, active);
        lemma_winners_from_subset(live, survivors(live, active));
    }
}

/// Only candidates with a first-preference ballot are ever active, and
/// there are finitely many of them.
pub proof fn lemma_initial_active_finite(live: Multiset<Seq<u64>>)
    ensures
        initial_active(live).finite(),
{
    broadcast use vstd::multiset::group_multiset_axioms;

    let firsts = live.dom().map(|b: Seq<u64>| b[0]);
    live.dom().lemma_map_finite(|b: Seq<u64>| b[0]);
    assert forall|c: u64| initial_active(live).contains(c) implies firsts.contains(c) by {
        let b = choose|b: Seq<u64>| live.contains(b) && b.len() > 0 && b[0] == c;
        assert(live.dom().contains(b));
    }
    assert(initial_active(live).subset_of(firsts));
    vstd::set_lib::lemma_set_subset_finite(firsts, initial_active(live));
}

/// At the start every ballot is counted for its first preference, and the
/// empty ballot for nobody.
pub proof fn lemma_initial_assignment(live: Multiset<Seq<u64>>)
    ensures
        forall|b: Seq<u64>|
            live.contains(b) && b.len() > 0 ==> #[trigger] assigned(b, initial_active(live))
                == Some(b[0]),
        forall|b: Seq<u64>| b.len() == 0 ==> #[trigger] assigned(b, initial_active(live)) is None,
{
    assert forall|b: Seq<u64>| live.contains(b) && b.len() > 0 implies #[trigger] assigned(
        b,
        initial_active(live),
    ) == Some(b[0]) by {
        assert(initial_active(live).contains(b[0]));
    }
}

/// In the first round the model's counts are just the first-preference
/// tallies, and the live count is the number of nonempty ballots.
pub proof fn lemma_initial_counts(ballots: Seq<Seq<u64>>)
    ensures
        forall|c: u64| #[trigger]
            vote_count(ballots.to_multiset(), initial_active(ballots.to_multiset()), c)
                == first_choice_tally(ballots, c),
        live_count(ballots.to_multiset(), initial_active(ballots.to_multiset())) == cast_count(
            ballots,
        ),
{
    broadcast use vstd::multiset::group_multiset_axioms;
    broadcast use vstd::seq_lib::group_to_multiset_ensures;

    let live = ballots.to_multiset();
    let act = initial_active(live);
    lemma_initial_assignment(live);
    assert forall|c: u64| #[trigger] vote_count(live, act, c) == first_choice_tally(ballots, c) by {
        let p = |b: Seq<u64>| b.len() > 0 && b[0] == c;
        lemma_seq_filter_to_multiset(ballots, p);
        assert(ballots_for(live, act, c) =~= live.filter(p));
    }
    let q = |b: Seq<u64>| b.len() > 0;
    lemma_seq_filter_to_multiset(ballots, q);
    assert(live.filter(|b: Seq<u64>| assigned(b, act) is Some) =~= live.filter(q));
}

} // verus!
