//! Proved properties of the tabulation.
//!
//! Each proof function here states, over the model in `crate::model`, a law
//! that holds of every election: the shape of the winner set, the handling
//! of empty and exhausted ballots, first-round majorities and full ties,
//! the irrelevance of ballot order, and that an exact half is no majority.

use crate::model::{
    all_tied, assigned, ballots_for, cast_count, first_choice_tally, has_majority, initial_active,
    lemma_assigned_is_active, lemma_assigned_shrink, lemma_counts_pair, lemma_initial_active_finite,
    lemma_initial_counts, lemma_majority_unique, lemma_multiset_filter_insert,
    lemma_survivors_strict, lemma_winners_from_subset, live_count, spec_winners, survivors,
    vote_count, winners_from,
};
use vstd::multiset::Multiset;
use vstd::prelude::*;

verus! {

broadcast use vstd::multiset::group_multiset_axioms, vstd::seq_lib::group_to_multiset_ensures;

/// The winner set is always finite, and whenever it holds two or more
/// candidates they are tied with one another: counted over the winner set
/// itself as the remaining candidates, all winners hold the same vote
/// count. An empty or singleton result satisfies this trivially, so the
/// result is always empty, a single winner, or an all-tied group.
pub proof fn lemma_winners_tied_at_end(ballots: Seq<Seq<u64>>)
    ensures
        spec_winners(ballots).finite(),
        forall|c: u64, d: u64|
            spec_winners(ballots).contains(c) && spec_winners(ballots).contains(d) ==> vote_count(
                ballots.to_multiset(),
                spec_winners(ballots),
                c,
            ) == vote_count(ballots.to_multiset(), spec_winners(ballots), d),
{
    lemma_initial_active_finite(ballots.to_multiset());
    lemma_winners_from_tied(ballots.to_multiset(), initial_active(ballots.to_multiset()));
}

proof fn lemma_winners_from_tied(live: Multiset<Seq<u64>>, active: Set<u64>)
    requires
        active.finite(),
    ensures
        winners_from(live, active).finite(),
        forall|c: u64, d: u64|
            winners_from(live, active).contains(c) && winners_from(live, active).contains(d)
                ==> vote_count(live, winners_from(live, active), c) == vote_count(
                live,
                winners_from(live, active),
                d,
            ),
    decreases active.len(),
{
    let w = winners_from(live, active);
    if active.is_empty() {
    } else if exists|c: u64| has_majority(live, active, c) {
        let m = choose|c: u64| has_majority(live, active, c);
        assert forall|c: u64| w.contains(c) implies c == m by {
            assert(has_majority(live, active, c));
            lemma_majority_unique(live, active, c, m);
        }
        assert(w =~= set![m]) by {
            assert(has_majority(live, active, m));
            assert(w.contains(m));
        }
    } else if all_tied(live, active) {
    } else {
        lemma_survivors_strict(live, active);
        lemma_winners_from_tied(live, survivors(live, active));
    }
}

/// No ballots, or none that names a candidate, elects nobody.
pub proof fn lemma_empty_ballots_no_winner(ballots: Seq<Seq<u64>>)
    requires
        forall|i: int| 0 <= i < ballots.len() ==> ballots[i].len() == 0,
    ensures
        spec_winners(ballots) == Set::<u64>::empty(),
{
    let live = ballots.to_multiset();
    assert(initial_active(live) =~= Set::<u64>::empty()) by {
        assert forall|c: u64| !initial_active(live).contains(c) by {
            if initial_active(live).contains(c) {
                let b = choose|b: Seq<u64>| live.contains(b) && b.len() > 0 && b[0] == c;
                assert(ballots.contains(b));
                let i = choose|i: int| 0 <= i < ballots.len() && ballots[i] == b;
            }
        }
    }
    assert(initial_active(live).is_empty());
}

/// A candidate who takes strictly more than half of the first preferences
/// is the sole winner, declared in the very first round.
pub proof fn lemma_first_preference_majority_wins(ballots: Seq<Seq<u64>>, c: u64)
    requires
        2 * first_choice_tally(ballots, c) > cast_count(ballots),
    ensures
        spec_winners(ballots) == set![c],
{
    let live = ballots.to_multiset();
    let act = initial_active(live);
    lemma_initial_active_finite(live);
    lemma_initial_counts(ballots);
    assert(vote_count(live, act, c) == first_choice_tally(ballots, c));
    assert(live_count(live, act) == cast_count(ballots));
    assert(first_choice_tally(ballots, c) > 0) by {
        crate::model::lemma_tally_le_cast(ballots, c);
    }
    assert(act.contains(c)) by {
        let bf = ballots_for(live, act, c);
        assert(bf.len() != 0);
        let b = bf.choose();
        assert(bf.count(b) > 0);
        assert(assigned(b, act) == Some(c));
        lemma_assigned_is_active(b, act);
    }
    assert(has_majority(live, act, c));
    assert(!act.is_empty());
    let winset = act.filter(|e: u64| 2 * vote_count(live, act, e) > live_count(live, act));
    assert(winners_from(live, act) == winset);
    assert(winset =~= set![c]) by {
        assert forall|e: u64| winset.contains(e) implies e == c by {
            assert(has_majority(live, act, e));
            lemma_majority_unique(live, act, e, c);
        }
        assert(winset.contains(c));
    }
}

/// A remaining majority always wins: from any state of the tabulation, a
/// candidate counted on strictly more than half of the ballots still being
/// counted is the sole winner of everything that follows.
pub proof fn lemma_remaining_majority_wins(live: Multiset<Seq<u64>>, active: Set<u64>, c: u64)
    requires
        active.finite(),
        has_majority(live, active, c),
    ensures
        winners_from(live, active) == set![c],
{
    assert(!active.is_empty());
    let winset = active.filter(|e: u64| 2 * vote_count(live, active, e) > live_count(live, active));
    assert(winners_from(live, active) == winset);
    assert(winset =~= set![c]) by {
        assert forall|e: u64| winset.contains(e) implies e == c by {
            assert(has_majority(live, active, e));
            lemma_majority_unique(live, active, e, c);
        }
        assert(winset.contains(c));
    }
}

/// Only a candidate named as somebody's first preference can win: a
/// candidate who appears on ballots but never first receives no bucket and
/// is never elected.
pub proof fn lemma_winners_had_first_preferences(ballots: Seq<Seq<u64>>)
    ensures
        forall|c: u64|
            spec_winners(ballots).contains(c) ==> exists|i: int|
                0 <= i < ballots.len() && ballots[i].len() > 0 && (#[trigger] ballots[i])[0] == c,
{
    let live = ballots.to_multiset();
    let act = initial_active(live);
    lemma_initial_active_finite(live);
    lemma_winners_from_subset(live, act);
    assert forall|c: u64| spec_winners(ballots).contains(c) implies exists|i: int|
        0 <= i < ballots.len() && ballots[i].len() > 0 && (#[trigger] ballots[i])[0] == c by {
        assert(act.contains(c));
        let b = choose|b: Seq<u64>| live.contains(b) && b.len() > 0 && b[0] == c;
        assert(ballots.contains(b));
        let i = choose|i: int| 0 <= i < ballots.len() && ballots[i] == b;
        assert(ballots[i].len() > 0 && ballots[i][0] == c);
    }
}

/// When every candidate with any first-preference ballots holds the same
/// tally, the first round ends the election with all of them tied.
pub proof fn lemma_full_first_round_tie(ballots: Seq<Seq<u64>>)
    requires
        forall|c: u64, d: u64|
            initial_active(ballots.to_multiset()).contains(c) && initial_active(
                ballots.to_multiset(),
            ).contains(d) ==> first_choice_tally(ballots, c) == first_choice_tally(ballots, d),
    ensures
        spec_winners(ballots) == initial_active(ballots.to_multiset()),
{
    let live = ballots.to_multiset();
    let act = initial_active(live);
    lemma_initial_active_finite(live);
    lemma_initial_counts(ballots);
    assert(all_tied(live, act));
    if act.is_empty() {
        assert(act =~= Set::<u64>::empty());
        assert(spec_winners(ballots) =~= act);
    } else if exists|c: u64| has_majority(live, act, c) {
        let m = choose|c: u64| has_majority(live, act, c);
        let winset = act.filter(|e: u64| 2 * vote_count(live, act, e) > live_count(live, act));
        assert(winners_from(live, act) == winset);
        assert(winset =~= act) by {
            assert forall|e: u64| act.contains(e) implies winset.contains(e) by {
                assert(vote_count(live, act, e) == vote_count(live, act, m));
            }
        }
    } else {
    }
}

/// A ballot with no active candidate left is not counted: it adds nothing
/// to any candidate's votes nor to the number of counted ballots.
pub proof fn lemma_exhausted_ballot_not_counted(
    ballots: Seq<Seq<u64>>,
    b: Seq<u64>,
    active: Set<u64>,
)
    requires
        assigned(b, active) is None,
    ensures
        forall|c: u64| #[trigger]
            vote_count(ballots.push(b).to_multiset(), active, c) == vote_count(
                ballots.to_multiset(),
                active,
                c,
            ),
        live_count(ballots.push(b).to_multiset(), active) == live_count(
            ballots.to_multiset(),
            active,
        ),
{
    let live = ballots.to_multiset();
    let live2 = ballots.push(b).to_multiset();
    assert(live2 == live.insert(b));
    assert forall|c: u64| #[trigger] vote_count(live2, active, c) == vote_count(
        live,
        active,
        c,
    ) by {
        lemma_multiset_filter_insert(live, |x: Seq<u64>| assigned(x, active) == Some(c), b);
    }
    lemma_multiset_filter_insert(live, |x: Seq<u64>| assigned(x, active) is Some, b);
}

/// Adding an empty ballot changes nothing about the winners.
pub proof fn lemma_empty_ballot_ignored(ballots: Seq<Seq<u64>>, b: Seq<u64>)
    requires
        b.len() == 0,
    ensures
        spec_winners(ballots.push(b)) == spec_winners(ballots),
{
    let live = ballots.to_multiset();
    let live2 = ballots.push(b).to_multiset();
    assert(live2 == live.insert(b));
    assert(initial_active(live2) =~= initial_active(live)) by {
        assert forall|c: u64|
            initial_active(live2).contains(c) implies initial_active(live).contains(c) by {
            let w = choose|w: Seq<u64>| live2.contains(w) && w.len() > 0 && w[0] == c;
            assert(w != b);
            assert(live.contains(w));
        }
        assert forall|c: u64|
            initial_active(live).contains(c) implies initial_active(live2).contains(c) by {
            let w = choose|w: Seq<u64>| live.contains(w) && w.len() > 0 && w[0] == c;
            assert(live2.contains(w));
        }
    }
    lemma_initial_active_finite(live);
    lemma_winners_from_insert_exhausted(live, b, initial_active(live));
}

proof fn lemma_winners_from_insert_exhausted(
    live: Multiset<Seq<u64>>,
    b: Seq<u64>,
    active: Set<u64>,
)
    requires
        active.finite(),
        assigned(b, active) is None,
    ensures
        winners_from(live.insert(b), active) == winners_from(live, active),
    decreases active.len(),
{
    let live2 = live.insert(b);
    assert forall|c: u64| #[trigger] ballots_for(live2, active, c) == ballots_for(
        live,
        active,
        c,
    ) by {
        lemma_multiset_filter_insert(live, |x: Seq<u64>| assigned(x, active) == Some(c), b);
    }
    lemma_multiset_filter_insert(live, |x: Seq<u64>| assigned(x, active) is Some, b);
    assert(live_count(live2, active) == live_count(live, active));
    if active.is_empty() {
    } else if exists|c: u64| has_majority(live, active, c) {
        let m = choose|c: u64| has_majority(live, active, c);
        assert(has_majority(live2, active, m));
        let w1 = active.filter(|c: u64| 2 * vote_count(live, active, c) > live_count(live, active));
        let w2 = active.filter(
            |c: u64| 2 * vote_count(live2, active, c) > live_count(live2, active),
        );
        assert(w2 =~= w1);
    } else if all_tied(live, active) {
        assert(all_tied(live2, active));
        assert(!(exists|c: u64| has_majority(live2, active, c))) by {
            if exists|c: u64| has_majority(live2, active, c) {
                let m = choose|c: u64| has_majority(live2, active, c);
                assert(has_majority(live, active, m));
            }
        }
    } else {
        assert(!(exists|c: u64| has_majority(live2, active, c))) by {
            if exists|c: u64| has_majority(live2, active, c) {
                let m = choose|c: u64| has_majority(live2, active, c);
                assert(has_majority(live, active, m));
            }
        }
        assert(!all_tied(live2, active)) by {
            if all_tied(live2, active) {
                assert forall|c: u64, d: u64|
                    active.contains(c) && active.contains(d) implies vote_count(live, active, c)
                    == vote_count(live, active, d) by {
                    assert(vote_count(live2, active, c) == vote_count(live2, active, d));
                }
            }
        }
        let surv = survivors(live, active);
        let surv2 = survivors(live2, active);
        assert(surv2 =~= surv) by {
            assert forall|c: u64| #[trigger] surv2.contains(c) implies surv.contains(c) by {
                let d = choose|d: u64|
                    active.contains(d) && vote_count(live2, active, d) < vote_count(
                        live2,
                        active,
                        c,
                    );
                assert(vote_count(live, active, d) < vote_count(live, active, c));
            }
            assert forall|c: u64| #[trigger] surv.contains(c) implies surv2.contains(c) by {
                let d = choose|d: u64|
                    active.contains(d) && vote_count(live, active, d) < vote_count(live, active, c);
                assert(vote_count(live2, active, d) < vote_count(live2, active, c));
            }
        }
        lemma_survivors_strict(live, active);
        lemma_assigned_shrink(b, active, surv);
        lemma_winners_from_insert_exhausted(live, b, surv);
        assert(winners_from(live2, active) == winners_from(live2, surv2));
    }
}

/// Reordering the ballots never changes the winners: the tabulation
/// depends only on the multiset of ballots cast.
pub proof fn lemma_ballot_order_irrelevant(ballots1: Seq<Seq<u64>>, ballots2: Seq<Seq<u64>>)
    requires
        ballots1.to_multiset() == ballots2.to_multiset(),
    ensures
        spec_winners(ballots1) == spec_winners(ballots2),
{
}

/// An exact half of the counted ballots is not a majority: when candidate
/// `c` holds exactly half of the first preferences and some candidate `d`
/// holds a different tally, the first round declares nobody and proceeds
/// to an elimination.
pub proof fn lemma_exact_half_is_no_majority(ballots: Seq<Seq<u64>>, c: u64, d: u64)
    requires
        2 * first_choice_tally(ballots, c) == cast_count(ballots),
        exists|i: int|
            0 <= i < ballots.len() && ballots[i].len() > 0 && (#[trigger] ballots[i])[0] == d,
        first_choice_tally(ballots, d) != first_choice_tally(ballots, c),
    ensures
        spec_winners(ballots) == winners_from(
            ballots.to_multiset(),
            survivors(ballots.to_multiset(), initial_active(ballots.to_multiset())),
        ),
{
    let live = ballots.to_multiset();
    let act = initial_active(live);
    lemma_initial_active_finite(live);
    lemma_initial_counts(ballots);
    assert(vote_count(live, act, c) == first_choice_tally(ballots, c));
    assert(vote_count(live, act, d) == first_choice_tally(ballots, d));
    assert(live_count(live, act) == cast_count(ballots));
    assert(act.contains(d)) by {
        let i = choose|i: int|
            0 <= i < ballots.len() && ballots[i].len() > 0 && (#[trigger] ballots[i])[0] == d;
        assert(ballots.contains(ballots[i]));
        assert(live.contains(ballots[i]));
    }
    assert(first_choice_tally(ballots, c) > 0) by {
        if first_choice_tally(ballots, c) == 0 {
            assert(cast_count(ballots) == 0);
            crate::model::lemma_tally_le_cast(ballots, d);
        }
    }
    assert(act.contains(c)) by {
        let bf = ballots_for(live, act, c);
        assert(bf.len() != 0);
        let w = bf.choose();
        assert(bf.count(w) > 0);
        assert(assigned(w, act) == Some(c));
        lemma_assigned_is_active(w, act);
    }
    assert(!act.is_empty());
    assert(!all_tied(live, act));
    assert(!(exists|e: u64| has_majority(live, act, e))) by {
        if exists|e: u64| has_majority(live, act, e) {
            let e = choose|e: u64| has_majority(live, act, e);
            if e == c {
            } else {
                lemma_counts_pair(live, act, e, c);
            }
        }
    }
}

} // verus!

