//! The executable tabulator.
//!
//! The working state is an association list of buckets: each active
//! candidate together with the records of the ballots currently counted for
//! it. A record keeps the ballot's full ranking and a cursor just past the
//! candidate it is counted for. Elimination moves records between buckets by
//! advancing their cursors past eliminated candidates.

use crate::model::{
    all_tied, assigned, ballots_for, first_active_index, has_majority, initial_active,
    lemma_assigned_is_active, lemma_assigned_shrink, lemma_first_active_index_at,
    lemma_first_active_index_props, lemma_initial_active_finite, lemma_initial_assignment,
    lemma_majority_unique, lemma_multiset_filter_insert, lemma_multiset_subset_len,
    lemma_survivors_strict, lemma_to_multiset_add, live_count, spec_winners, survivors,
    vote_count, winners_from,
};
use vstd::multiset::Multiset;
use vstd::prelude::*;

verus! {

broadcast use vstd::multiset::group_multiset_axioms, vstd::seq_lib::group_to_multiset_ensures;

/// One ballot being tabulated: its full ranking and a cursor. The ballot is
/// counted for `ranking[pos - 1]`; everything before the cursor has been
/// consumed while skipping eliminated candidates.
struct Record {
    ranking: Vec<u64>,
    pos: usize,
}

/// An active candidate and the records of the ballots counted for it.
struct Entry {
    key: u64,
    voters: Vec<Record>,
}

/// The multiset of ballot rankings held by a list of records.
spec fn rankings_of(voters: Seq<Record>) -> Multiset<Seq<u64>> {
    voters.map_values(|r: Record| r.ranking@).to_multiset()
}

/// A record parked in the bucket of `key` is counted for `key`: the cursor
/// sits just past `key`, which is the ballot's first active preference.
spec fn wf_record(r: Record, key: u64, active: Set<u64>) -> bool {
    &&& 1 <= r.pos <= r.ranking@.len()
    &&& r.ranking@[r.pos - 1] == key
    &&& first_active_index(r.ranking@, active) == Some(r.pos - 1)
}

spec fn wf_bucket(e: Entry, active: Set<u64>) -> bool {
    forall|j: int| 0 <= j < e.voters@.len() ==> wf_record(#[trigger] e.voters@[j], e.key, active)
}

/// The key set of the table.
spec fn table_keys(m: Seq<Entry>) -> Set<u64>
    decreases m.len(),
{
    if m.len() == 0 {
        Set::empty()
    } else {
        table_keys(m.drop_last()).insert(m.last().key)
    }
}

/// All ballot rankings held anywhere in the table.
spec fn table_records(m: Seq<Entry>) -> Multiset<Seq<u64>>
    decreases m.len(),
{
    if m.len() == 0 {
        Multiset::empty()
    } else {
        table_records(m.drop_last()).add(rankings_of(m.last().voters@))
    }
}

spec fn keys_distinct(m: Seq<Entry>) -> bool {
    forall|i: int, j: int| 0 <= i < j < m.len() ==> m[i].key != m[j].key
}

/// The ballot is counted for a candidate in `ks`.
spec fn counted_into(b: Seq<u64>, active: Set<u64>, ks: Set<u64>) -> bool {
    match assigned(b, active) {
        Some(d) => ks.contains(d),
        None => false,
    }
}

/// The table faithfully represents the tabulation state `(live, active)`:
/// one bucket per active candidate, holding exactly the ballots the model
/// counts for it.
spec fn table_inv(m: Seq<Entry>, live: Multiset<Seq<u64>>, active: Set<u64>) -> bool {
    &&& keys_distinct(m)
    &&& table_keys(m) == active
    &&& forall|i: int| 0 <= i < m.len() ==> wf_bucket(#[trigger] m[i], active)
    &&& forall|i: int|
        0 <= i < m.len() ==> rankings_of(#[trigger] m[i].voters@) == ballots_for(
            live,
            active,
            m[i].key,
        )
}

proof fn lemma_table_keys(m: Seq<Entry>)
    ensures
        table_keys(m).finite(),
        forall|c: u64| #[trigger]
            table_keys(m).contains(c) <==> exists|i: int| 0 <= i < m.len() && m[i].key == c,
    decreases m.len(),
{
    if m.len() == 0 {
    } else {
        let prefix = m.drop_last();
        lemma_table_keys(prefix);
        assert forall|c: u64| #[trigger] table_keys(m).contains(c) implies exists|i: int|
            0 <= i < m.len() && m[i].key == c by {
            if c == m.last().key {
                assert(m[m.len() - 1].key == c);
            } else {
                let i = choose|i: int| 0 <= i < prefix.len() && prefix[i].key == c;
                assert(m[i].key == c);
            }
        }
        assert forall|c: u64|
            exists|i: int| 0 <= i < m.len() && m[i].key == c implies #[trigger] table_keys(
            m,
        ).contains(c) by {
            let i = choose|i: int| 0 <= i < m.len() && m[i].key == c;
            if i < m.len() - 1 {
                assert(prefix[i].key == c);
            }
        }
    }
}

proof fn lemma_table_keys_len(m: Seq<Entry>)
    requires
        keys_distinct(m),
    ensures
        table_keys(m).len() == m.len(),
    decreases m.len(),
{
    if m.len() > 0 {
        let prefix = m.drop_last();
        lemma_table_keys_len(prefix);
        lemma_table_keys(prefix);
        assert(!table_keys(prefix).contains(m.last().key));
    }
}

/// Appending one bucket to the table.
proof fn lemma_table_push(m: Seq<Entry>, e: Entry)
    ensures
        table_keys(m.push(e)) == table_keys(m).insert(e.key),
        table_records(m.push(e)) == table_records(m).add(rankings_of(e.voters@)),
{
    assert(m.push(e).drop_last() =~= m);
    assert(m.push(e).last() == e);
}

/// Replacing one bucket with one that has the same key keeps the key set.
proof fn lemma_table_keys_update(m: Seq<Entry>, i: int, e: Entry)
    requires
        0 <= i < m.len(),
        e.key == m[i].key,
    ensures
        table_keys(m.update(i, e)) == table_keys(m),
    decreases m.len(),
{
    let upd = m.update(i, e);
    if i == m.len() - 1 {
        assert(upd.drop_last() =~= m.drop_last());
    } else {
        assert(upd.drop_last() =~= m.drop_last().update(i, e));
        lemma_table_keys_update(m.drop_last(), i, e);
        assert(upd.last() == m.last());
    }
}

/// Summing the buckets of a well-formed table gives exactly the live
/// ballots counted into its key set.
proof fn lemma_table_records_live(m: Seq<Entry>, live: Multiset<Seq<u64>>, active: Set<u64>)
    requires
        keys_distinct(m),
        forall|i: int|
            0 <= i < m.len() ==> rankings_of(#[trigger] m[i].voters@) == ballots_for(
                live,
                active,
                m[i].key,
            ),
    ensures
        table_records(m) == live.filter(|b: Seq<u64>| counted_into(b, active, table_keys(m))),
    decreases m.len(),
{
    let goal = live.filter(|b: Seq<u64>| counted_into(b, active, table_keys(m)));
    if m.len() == 0 {
        assert forall|b: Seq<u64>| #[trigger] goal.count(b) == 0 by {
            assert(!counted_into(b, active, table_keys(m)));
        }
        assert(table_records(m) =~= goal);
    } else {
        let prefix = m.drop_last();
        let e = m.last();
        assert forall|i: int|
            0 <= i < prefix.len() implies rankings_of(#[trigger] prefix[i].voters@) == ballots_for(
            live,
            active,
            prefix[i].key,
        ) by {
            assert(m[i].voters@ == prefix[i].voters@);
        }
        lemma_table_records_live(prefix, live, active);
        lemma_table_keys(prefix);
        assert(!table_keys(prefix).contains(e.key));
        assert(rankings_of(e.voters@) == ballots_for(live, active, e.key)) by {
            assert(m[m.len() - 1] == e);
        }
        assert forall|b: Seq<u64>| #[trigger] table_records(m).count(b) == goal.count(b) by {
            lemma_assigned_is_active(b, active);
        }
        assert(table_records(m) =~= goal);
    }
}

/// Under the table invariant a bucket's length is its candidate's vote
/// count.
proof fn lemma_bucket_len(m: Seq<Entry>, live: Multiset<Seq<u64>>, active: Set<u64>, i: int)
    requires
        table_inv(m, live, active),
        0 <= i < m.len(),
    ensures
        m[i].voters@.len() == vote_count(live, active, m[i].key),
{
    assert(m[i].voters@.map_values(|r: Record| r.ranking@).len() == m[i].voters@.len());
}

/// The deep view of a vector of ballots is the sequence of their views.
proof fn lemma_deep_view_unfold(v: Vec<Vec<u64>>)
    ensures
        v.deep_view().len() == v@.len(),
        forall|i: int| 0 <= i < v@.len() ==> v.deep_view()[i] == v@[i]@,
{
    assert forall|i: int| 0 <= i < v@.len() implies v.deep_view()[i] == v@[i]@ by {
        assert(v.deep_view()[i] =~= v@[i]@);
    }
}

/// A first-round bucket: every record still sits at its first preference,
/// and the bucket holds exactly the processed ballots led by its candidate.
spec fn init_bucket(e: Entry, done: Multiset<Seq<u64>>) -> bool {
    &&& forall|j: int|
        0 <= j < e.voters@.len() ==> (#[trigger] e.voters@[j]).pos == 1 && e.voters@[j].ranking@.len()
            >= 1 && e.voters@[j].ranking@[0] == e.key
    &&& rankings_of(e.voters@) == done.filter(|b: Seq<u64>| b.len() > 0 && b[0] == e.key)
}

/// Builds the first-round table: each nonempty ballot is parked, with its
/// cursor just past its first preference, in that candidate's bucket; empty
/// ballots are dropped.
fn init_table(ballots: Vec<Vec<u64>>) -> (map: Vec<Entry>)
    ensures
        table_inv(
            map@,
            ballots.deep_view().to_multiset(),
            initial_active(ballots.deep_view().to_multiset()),
        ),
{
    proof {
        lemma_deep_view_unfold(ballots);
    }
    let ghost bs = ballots.deep_view();
    let ghost live = bs.to_multiset();
    let mut rest = ballots;
    let mut map: Vec<Entry> = Vec::new();
    let ghost mut done: Multiset<Seq<u64>> = Multiset::empty();
    while rest.len() > 0
        invariant
            done.add(rest.deep_view().to_multiset()) == live,
            keys_distinct(map@),
            table_keys(map@) == initial_active(done),
            forall|i: int| 0 <= i < map@.len() ==> init_bucket(#[trigger] map@[i], done),
        decreases rest@.len(),
    {
        let ghost dv = rest.deep_view();
        proof {
            lemma_deep_view_unfold(rest);
        }
        let b = rest.pop().unwrap();
        let ghost bb = b@;
        let ghost prev_done = done;
        proof {
            lemma_deep_view_unfold(rest);
            assert(rest.deep_view() =~= dv.drop_last());
            assert(dv =~= rest.deep_view().push(bb));
            assert(dv.to_multiset() == rest.deep_view().to_multiset().insert(bb));
            done = done.insert(bb);
            assert(done.add(rest.deep_view().to_multiset()) =~= prev_done.add(dv.to_multiset()));
        }
        if b.len() > 0 {
            let c0 = b[0];
            proof {
                lemma_table_keys(map@);
                assert(initial_active(done) =~= initial_active(prev_done).insert(c0)) by {
                    assert forall|c: u64| initial_active(done).contains(c) implies initial_active(
                        prev_done,
                    ).insert(c0).contains(c) by {
                        let w = choose|w: Seq<u64>|
                            done.contains(w) && w.len() > 0 && w[0] == c;
                        if w != bb {
                            assert(prev_done.contains(w));
                        }
                    }
                    assert forall|c: u64|
                        initial_active(prev_done).insert(c0).contains(c) implies initial_active(
                        done,
                    ).contains(c) by {
                        if c == c0 {
                            assert(done.contains(bb) && bb.len() > 0 && bb[0] == c0);
                        } else {
                            let w = choose|w: Seq<u64>|
                                prev_done.contains(w) && w.len() > 0 && w[0] == c;
                            assert(done.contains(w));
                        }
                    }
                }
            }
            let rec = Record { ranking: b, pos: 1 };
            match find_bucket(&map, c0) {
                Some(i) => {
                    let ghost old_map = map@;
                    let e = &mut map[i];
                    e.voters.push(rec);
                    proof {
                        assert(map@ =~= old_map.update(i as int, map@[i as int]));
                        assert(map@[i as int].key == c0);
                        lemma_table_keys_update(old_map, i as int, map@[i as int]);
                        assert(initial_active(prev_done).contains(c0));
                        assert(initial_active(done) =~= initial_active(prev_done));
                        assert forall|k: int| 0 <= k < map@.len() implies init_bucket(
                            #[trigger] map@[k],
                            done,
                        ) by {
                            let ek = map@[k];
                            let p = |x: Seq<u64>| x.len() > 0 && x[0] == ek.key;
                            lemma_multiset_filter_insert(prev_done, p, bb);
                            if k == i as int {
                                assert(ek.voters@ == old_map[k].voters@.push(rec));
                                assert(ek.voters@.map_values(|r: Record| r.ranking@)
                                    =~= old_map[k].voters@.map_values(|r: Record| r.ranking@).push(
                                    bb,
                                ));
                                assert(init_bucket(old_map[k], prev_done));
                                assert(rankings_of(ek.voters@) =~= rankings_of(
                                    old_map[k].voters@,
                                ).insert(bb));
                            } else {
                                assert(init_bucket(old_map[k], prev_done));
                                assert(ek == old_map[k]);
                                assert(ek.key != c0);
                            }
                        }
                    }
                },
                None => {
                    let mut voters: Vec<Record> = Vec::new();
                    voters.push(rec);
                    let ghost old_map = map@;
                    map.push(Entry { key: c0, voters });
                    proof {
                        lemma_table_push(old_map, map@.last());
                        assert(map@.drop_last() =~= old_map);
                        assert(keys_distinct(map@)) by {
                            assert(forall|j: int| 0 <= j < old_map.len() ==> map@[j] == old_map[j]);
                        }
                        assert(table_keys(map@) =~= initial_active(done));
                        assert forall|k: int| 0 <= k < map@.len() implies init_bucket(
                            #[trigger] map@[k],
                            done,
                        ) by {
                            let ek = map@[k];
                            let p = |x: Seq<u64>| x.len() > 0 && x[0] == ek.key;
                            lemma_multiset_filter_insert(prev_done, p, bb);
                            if k == map@.len() - 1 {
                                assert(ek.voters@ =~= Seq::empty().push(rec));
                                assert(ek.voters@.map_values(|r: Record| r.ranking@)
                                    =~= Seq::empty().push(bb));
                                assert(rankings_of(ek.voters@) =~= Multiset::empty().insert(bb));
                                assert(prev_done.filter(p) =~= Multiset::empty()) by {
                                    assert forall|x: Seq<u64>| #[trigger]
                                        prev_done.filter(p).count(x) == 0 by {
                                        if prev_done.count(x) > 0 && p(x) {
                                            assert(initial_active(prev_done).contains(c0));
                                            assert(table_keys(old_map).contains(c0));
                                            lemma_table_keys(old_map);
                                        }
                                    }
                                }
                            } else {
                                assert(init_bucket(old_map[k], prev_done));
                                assert(ek == old_map[k]);
                                assert(ek.key != c0) by {
                                    lemma_table_keys(old_map);
                                    if ek.key == c0 {
                                        assert(table_keys(old_map).contains(c0));
                                        let w = choose|w: Seq<u64>|
                                            prev_done.contains(w) && w.len() > 0 && w[0] == c0;
                                        assert(false) by {
                                            lemma_table_keys(old_map);
                                        }
                                    }
                                }
                            }
                        }
                    }
                },
            }
        } else {
            proof {
                assert(initial_active(done) =~= initial_active(prev_done)) by {
                    assert forall|c: u64| initial_active(done).contains(c) implies initial_active(
                        prev_done,
                    ).contains(c) by {
                        let w = choose|w: Seq<u64>|
                            done.contains(w) && w.len() > 0 && w[0] == c;
                        assert(w != bb);
                        assert(prev_done.contains(w));
                    }
                    assert forall|c: u64|
                        initial_active(prev_done).contains(c) implies initial_active(
                        done,
                    ).contains(c) by {
                        let w = choose|w: Seq<u64>|
                            prev_done.contains(w) && w.len() > 0 && w[0] == c;
                        assert(done.contains(w));
                    }
                }
                assert forall|k: int| 0 <= k < map@.len() implies init_bucket(
                    #[trigger] map@[k],
                    done,
                ) by {
                    let p = |x: Seq<u64>| x.len() > 0 && x[0] == map@[k].key;
                    lemma_multiset_filter_insert(prev_done, p, bb);
                    assert(init_bucket(map@[k], prev_done));
                }
            }
        }
    }
    proof {
        assert(rest.deep_view().to_multiset().len() == rest.deep_view().len());
        assert(rest.deep_view().to_multiset() =~= Multiset::empty());
        assert(done =~= live);
        lemma_initial_assignment(live);
        let act = initial_active(live);
        assert forall|i: int| 0 <= i < map@.len() implies rankings_of(#[trigger] map@[i].voters@)
            == ballots_for(live, act, map@[i].key) by {
            let p = |x: Seq<u64>| x.len() > 0 && x[0] == map@[i].key;
            let q = |x: Seq<u64>| assigned(x, act) == Some(map@[i].key);
            assert forall|x: Seq<u64>| #[trigger] live.filter(p).count(x) == live.filter(q).count(
                x,
            ) by {
                if live.count(x) > 0 {
                    if x.len() > 0 {
                        assert(assigned(x, act) == Some(x[0]));
                    }
                }
            }
            assert(live.filter(p) =~= live.filter(q));
            assert(init_bucket(map@[i], done));
        }
        assert forall|i: int| 0 <= i < map@.len() implies wf_bucket(#[trigger] map@[i], act) by {
            let e = map@[i];
            assert forall|j: int| 0 <= j < e.voters@.len() implies wf_record(
                #[trigger] e.voters@[j],
                e.key,
                act,
            ) by {
                let r = e.voters@[j];
                assert(init_bucket(map@[i], done));
                lemma_table_keys(map@);
                assert(act.contains(e.key));
                assert(first_active_index(r.ranking@, act) == Some(0int));
            }
        }
    }
    map
}

/// Finds the bucket of candidate `c`, if `c` is active.
fn find_bucket(map: &Vec<Entry>, c: u64) -> (res: Option<usize>)
    ensures
        match res {
            Some(i) => i < map@.len() && map@[i as int].key == c,
            None => forall|j: int| 0 <= j < map@.len() ==> map@[j].key != c,
        },
{
    let mut i: usize = 0;
    while i < map.len()
        invariant
            i <= map@.len(),
            forall|j: int| 0 <= j < i ==> map@[j].key != c,
        decreases map@.len() - i,
    {
        if map[i].key == c {
            return Some(i);
        }
        i += 1;
    }
    None
}

/// Counts one round: the largest and smallest bucket, the index of a
/// largest bucket, and the total number of ballots still being counted.
fn tally(map: &Vec<Entry>, Ghost(live): Ghost<Multiset<Seq<u64>>>, Ghost(active): Ghost<Set<u64>>) -> (res: (
    usize,
    usize,
    usize,
    usize,
))
    requires
        map@.len() > 0,
        table_inv(map@, live, active),
        live.len() <= usize::MAX,
    ensures
        ({
            let (best, worst, total, best_idx) = res;
            &&& best_idx < map@.len()
            &&& map@[best_idx as int].voters@.len() == best
            &&& exists|i: int| 0 <= i < map@.len() && (#[trigger] map@[i].voters@.len()) == worst
            &&& forall|i: int|
                0 <= i < map@.len() ==> worst <= (#[trigger] map@[i].voters@.len()) <= best
            &&& total == live_count(live, active)
        }),
{
    let mut best: usize = map[0].voters.len();
    let mut worst: usize = best;
    let mut best_idx: usize = 0;
    let mut total: usize = 0;
    let mut i: usize = 0;
    proof {
        assert(map@[0].voters@.len() == best);
        assert(table_records(map@.take(0)) =~= Multiset::empty());
    }
    while i < map.len()
        invariant
            map@.len() > 0,
            i <= map@.len(),
            table_inv(map@, live, active),
            live.len() <= usize::MAX,
            best_idx < map@.len(),
            map@[best_idx as int].voters@.len() == best,
            i == 0 ==> best == map@[0].voters@.len() && worst == best,
            i > 0 ==> exists|j: int| 0 <= j < i && (#[trigger] map@[j].voters@.len()) == worst,
            forall|j: int| 0 <= j < i ==> worst <= (#[trigger] map@[j].voters@.len()) <= best,
            total == table_records(map@.take(i as int)).len(),
        decreases map@.len() - i,
    {
        let len_i = map[i].voters.len();
        proof {
            let pre = map@.take(i as int);
            assert(map@.take(i + 1).drop_last() =~= pre);
            assert(map@.take(i + 1).last() == map@[i as int]);
            assert(table_records(map@.take(i + 1)) == table_records(pre).add(
                rankings_of(map@[i as int].voters@),
            ));
            assert(rankings_of(map@[i as int].voters@).len() == len_i) by {
                assert(map@[i as int].voters@.map_values(|r: Record| r.ranking@).len()
                    == map@[i as int].voters@.len());
            }
            assert forall|k: int|
                0 <= k < map@.take(i + 1).len() implies rankings_of(
                #[trigger] map@.take(i + 1)[k].voters@,
            ) == ballots_for(live, active, map@.take(i + 1)[k].key) by {
                assert(map@.take(i + 1)[k] == map@[k]);
            }
            assert(keys_distinct(map@.take(i + 1))) by {
                assert(forall|k: int| 0 <= k < i + 1 ==> map@.take(i + 1)[k] == map@[k]);
            }
            lemma_table_records_live(map@.take(i + 1), live, active);
            lemma_multiset_subset_len(
                live.filter(|b: Seq<u64>| counted_into(b, active, table_keys(map@.take(i + 1)))),
                live,
            );
            assert(table_records(map@.take(i + 1)).len() <= live.len());
        }
        total = total + len_i;
        if len_i > best {
            best = len_i;
            best_idx = i;
        }
        if len_i < worst {
            worst = len_i;
        }
        i += 1;
        proof {
            if i == 1 {
                assert(map@[0].voters@.len() == len_i);
            }
        }
    }
    proof {
        assert(map@.take(map@.len() as int) =~= map@);
        lemma_table_records_live(map@, live, active);
        let p = |b: Seq<u64>| counted_into(b, active, table_keys(map@));
        let q = |b: Seq<u64>| assigned(b, active) is Some;
        assert forall|b: Seq<u64>| #[trigger] live.filter(p).count(b) == live.filter(q).count(
            b,
        ) by {
            lemma_assigned_is_active(b, active);
        }
        assert(live.filter(p) =~= live.filter(q));
    }
    (best, worst, total, best_idx)
}

/// Some bucket of the table belongs to candidate `c`.
spec fn seq_has_key(m: Seq<Entry>, c: u64) -> bool {
    exists|i: int| 0 <= i < m.len() && (#[trigger] m[i].key) == c
}

/// Among the first `upto` buckets, candidate `c` owns one that is not of
/// length `worst`.
spec fn prefix_has_key_not_worst(m: Seq<Entry>, upto: int, worst: usize, c: u64) -> bool {
    exists|j: int|
        0 <= j < upto && (#[trigger] m[j].key) == c && m[j].voters@.len() != worst
}

/// Record `r` sits in one of the first `upto` buckets, and that bucket is
/// of length `worst`.
spec fn record_from_worst(m: Seq<Entry>, upto: int, worst: usize, r: Record) -> bool {
    exists|j: int|
        0 <= j < upto && (#[trigger] m[j].voters@).len() == worst && m[j].voters@.contains(r)
}

/// Splits the table: buckets whose length is `worst` leave, and their
/// records are pooled for redistribution; the other buckets are kept
/// unchanged. This is the two-pass replacement for removing entries from an
/// associative map while walking it.
fn drain_worst(map: Vec<Entry>, worst: usize) -> (out: (Vec<Entry>, Vec<Record>))
    requires
        keys_distinct(map@),
    ensures
        ({
            let (kept, pending) = out;
            &&& keys_distinct(kept@)
            &&& forall|i: int|
                0 <= i < kept@.len() ==> exists|j: int|
                    0 <= j < map@.len() && (#[trigger] kept@[i]) == map@[j]
                        && map@[j].voters@.len() != worst
            &&& forall|c: u64| #[trigger]
                seq_has_key(kept@, c) <==> prefix_has_key_not_worst(
                    map@,
                    map@.len() as int,
                    worst,
                    c,
                )
            &&& table_records(kept@).add(rankings_of(pending@)) == table_records(map@)
            &&& forall|k: int|
                0 <= k < pending@.len() ==> record_from_worst(
                    map@,
                    map@.len() as int,
                    worst,
                    #[trigger] pending@[k],
                )
        }),
{
    let ghost orig = map@;
    let mut rest = map;
    let mut kept: Vec<Entry> = Vec::new();
    let mut pending: Vec<Record> = Vec::new();
    let ghost mut processed: int = 0;
    while rest.len() > 0
        invariant
            keys_distinct(orig),
            0 <= processed,
            processed + rest@.len() == orig.len(),
            rest@ == orig.skip(processed),
            keys_distinct(kept@),
            forall|i: int|
                0 <= i < kept@.len() ==> exists|j: int|
                    0 <= j < processed && (#[trigger] kept@[i]) == orig[j] && orig[j].voters@.len()
                        != worst,
            forall|c: u64| #[trigger]
                seq_has_key(kept@, c) <==> prefix_has_key_not_worst(orig, processed, worst, c),
            table_records(kept@).add(rankings_of(pending@)) == table_records(orig.take(processed)),
            forall|k: int|
                0 <= k < pending@.len() ==> record_from_worst(
                    orig,
                    processed,
                    worst,
                    #[trigger] pending@[k],
                ),
        decreases rest@.len(),
    {
        let e = rest.remove(0);
        proof {
            assert(e == orig[processed]);
            assert(rest@ =~= orig.skip(processed + 1));
            assert(orig.take(processed + 1).drop_last() =~= orig.take(processed));
            assert(orig.take(processed + 1).last() == orig[processed]);
            assert(table_records(orig.take(processed + 1)) == table_records(
                orig.take(processed),
            ).add(rankings_of(orig[processed].voters@)));
        }
        if e.voters.len() == worst {
            let ghost old_pending = pending@;
            let mut vs = e.voters;
            pending.append(&mut vs);
            proof {
                assert(pending@ == old_pending + orig[processed].voters@);
                assert((old_pending + orig[processed].voters@).map_values(|r: Record| r.ranking@)
                    =~= old_pending.map_values(|r: Record| r.ranking@)
                    + orig[processed].voters@.map_values(|r: Record| r.ranking@));
                lemma_to_multiset_add(
                    old_pending.map_values(|r: Record| r.ranking@),
                    orig[processed].voters@.map_values(|r: Record| r.ranking@),
                );
                assert(rankings_of(pending@) =~= rankings_of(old_pending).add(
                    rankings_of(orig[processed].voters@),
                ));
                assert(table_records(kept@).add(rankings_of(pending@)) =~= table_records(
                    orig.take(processed + 1),
                ));
                assert forall|k: int| 0 <= k < pending@.len() implies record_from_worst(
                    orig,
                    processed + 1,
                    worst,
                    #[trigger] pending@[k],
                ) by {
                    if k < old_pending.len() {
                        assert(pending@[k] == old_pending[k]);
                        assert(record_from_worst(orig, processed, worst, old_pending[k]));
                        let j = choose|j: int|
                            0 <= j < processed && (#[trigger] orig[j].voters@).len() == worst
                                && orig[j].voters@.contains(old_pending[k]);
                        assert(0 <= j < processed + 1 && orig[j].voters@.len() == worst
                            && orig[j].voters@.contains(pending@[k]));
                    } else {
                        assert(pending@[k] == orig[processed].voters@[k - old_pending.len()]);
                        assert(orig[processed].voters@.contains(pending@[k]));
                        assert(0 <= processed < processed + 1 && orig[processed].voters@.len()
                            == worst && orig[processed].voters@.contains(pending@[k]));
                    }
                }
                assert forall|c: u64|
                    prefix_has_key_not_worst(orig, processed + 1, worst, c) implies
                    prefix_has_key_not_worst(orig, processed, worst, c) by {
                    let j = choose|j: int|
                        0 <= j < processed + 1 && (#[trigger] orig[j].key) == c
                            && orig[j].voters@.len() != worst;
                    assert(j != processed);
                }
                processed = processed + 1;
            }
        } else {
            let ghost old_kept = kept@;
            kept.push(e);
            proof {
                lemma_table_push(old_kept, orig[processed]);
                assert(keys_distinct(kept@)) by {
                    assert(forall|i: int| 0 <= i < old_kept.len() ==> kept@[i] == old_kept[i]);
                    assert forall|i: int|
                        0 <= i < old_kept.len() implies old_kept[i].key != orig[processed].key by {
                        let j = choose|j: int|
                            0 <= j < processed && old_kept[i] == orig[j] && orig[j].voters@.len()
                                != worst;
                    }
                }
                assert forall|c: u64| #[trigger]
                    seq_has_key(kept@, c) implies prefix_has_key_not_worst(
                    orig,
                    processed + 1,
                    worst,
                    c,
                ) by {
                    let i = choose|i: int| 0 <= i < kept@.len() && (#[trigger] kept@[i].key) == c;
                    if i < old_kept.len() {
                        assert(seq_has_key(old_kept, c));
                        let j = choose|j: int|
                            0 <= j < processed && (#[trigger] orig[j].key) == c
                                && orig[j].voters@.len() != worst;
                        assert(0 <= j < processed + 1 && orig[j].key == c && orig[j].voters@.len()
                            != worst);
                    } else {
                        assert(orig[processed].key == c && orig[processed].voters@.len() != worst);
                    }
                }
                assert forall|c: u64|
                    prefix_has_key_not_worst(orig, processed + 1, worst, c) implies #[trigger]
                    seq_has_key(kept@, c) by {
                    let j = choose|j: int|
                        0 <= j < processed + 1 && (#[trigger] orig[j].key) == c
                            && orig[j].voters@.len() != worst;
                    if j < processed {
                        assert(prefix_has_key_not_worst(orig, processed, worst, c));
                        assert(seq_has_key(old_kept, c));
                        let i = choose|i: int|
                            0 <= i < old_kept.len() && (#[trigger] old_kept[i].key) == c;
                        assert(kept@[i].key == c);
                    } else {
                        assert(kept@[kept@.len() - 1].key == c);
                    }
                }
                assert(table_records(kept@).add(rankings_of(pending@)) =~= table_records(
                    orig.take(processed + 1),
                ));
                assert forall|k: int| 0 <= k < pending@.len() implies record_from_worst(
                    orig,
                    processed + 1,
                    worst,
                    #[trigger] pending@[k],
                ) by {
                    assert(record_from_worst(orig, processed, worst, pending@[k]));
                    let j = choose|j: int|
                        0 <= j < processed && (#[trigger] orig[j].voters@).len() == worst
                            && orig[j].voters@.contains(pending@[k]);
                    assert(0 <= j < processed + 1 && orig[j].voters@.len() == worst
                        && orig[j].voters@.contains(pending@[k]));
                }
                processed = processed + 1;
            }
        }
    }
    proof {
        assert(orig.take(processed) =~= orig);
    }
    (kept, pending)
}

/// A record awaiting redistribution: its cursor is in range and nothing up
/// to and including the candidate it was counted for is still active.
spec fn pending_ok(r: Record, new_active: Set<u64>) -> bool {
    &&& 1 <= r.pos <= r.ranking@.len()
    &&& forall|j: int| 0 <= j < r.pos ==> !new_active.contains(r.ranking@[j])
}

/// Hands each pooled record on to the bucket of the next still-active
/// candidate on its ballot, dropping ballots that run out of active
/// candidates.
fn redistribute(
    kept: &mut Vec<Entry>,
    pending: Vec<Record>,
    Ghost(live): Ghost<Multiset<Seq<u64>>>,
    Ghost(active): Ghost<Set<u64>>,
    Ghost(new_active): Ghost<Set<u64>>,
)
    requires
        new_active.subset_of(active),
        keys_distinct(old(kept)@),
        table_keys(old(kept)@) == new_active,
        forall|i: int| 0 <= i < old(kept)@.len() ==> wf_bucket(#[trigger] old(kept)@[i], new_active),
        forall|i: int|
            0 <= i < old(kept)@.len() ==> rankings_of(#[trigger] old(kept)@[i].voters@)
                == ballots_for(live, active, old(kept)@[i].key),
        forall|k: int| 0 <= k < pending@.len() ==> pending_ok(#[trigger] pending@[k], new_active),
    ensures
        final(kept)@.len() == old(kept)@.len(),
        forall|i: int|
            0 <= i < old(kept)@.len() ==> (#[trigger] final(kept)@[i].key) == old(kept)@[i].key,
        keys_distinct(final(kept)@),
        table_keys(final(kept)@) == new_active,
        forall|i: int| 0 <= i < final(kept)@.len() ==> wf_bucket(#[trigger] final(kept)@[i], new_active),
        forall|i: int|
            0 <= i < final(kept)@.len() ==> rankings_of(#[trigger] final(kept)@[i].voters@)
                == ballots_for(live, active, final(kept)@[i].key).add(
                rankings_of(pending@).filter(
                    |b: Seq<u64>| assigned(b, new_active) == Some(final(kept)@[i].key),
                ),
            ),
{
    let ghost kept0 = old(kept)@;
    let ghost pend_all = rankings_of(pending@);
    let mut rest = pending;
    let ghost mut moved: Multiset<Seq<u64>> = Multiset::empty();
    proof {
        assert forall|i: int| 0 <= i < kept@.len() implies rankings_of(#[trigger] kept@[i].voters@)
            == ballots_for(live, active, kept@[i].key).add(
            moved.filter(|b: Seq<u64>| assigned(b, new_active) == Some(kept@[i].key)),
        ) by {
            let p = |b: Seq<u64>| assigned(b, new_active) == Some(kept@[i].key);
            assert(moved.filter(p) =~= Multiset::empty());
            assert(ballots_for(live, active, kept@[i].key).add(moved.filter(p)) =~= ballots_for(
                live,
                active,
                kept@[i].key,
            ));
        }
    }
    while rest.len() > 0
        invariant
            new_active.subset_of(active),
            kept@.len() == kept0.len(),
            forall|i: int| 0 <= i < kept0.len() ==> (#[trigger] kept@[i].key) == kept0[i].key,
            keys_distinct(kept@),
            table_keys(kept@) == new_active,
            forall|i: int| 0 <= i < kept@.len() ==> wf_bucket(#[trigger] kept@[i], new_active),
            forall|k: int| 0 <= k < rest@.len() ==> pending_ok(#[trigger] rest@[k], new_active),
            moved.add(rankings_of(rest@)) == pend_all,
            forall|i: int|
                0 <= i < kept@.len() ==> rankings_of(#[trigger] kept@[i].voters@) == ballots_for(
                    live,
                    active,
                    kept@[i].key,
                ).add(moved.filter(|b: Seq<u64>| assigned(b, new_active) == Some(kept@[i].key))),
        decreases rest@.len(),
    {
        let ghost old_rest = rest@;
        let r = rest.pop().unwrap();
        let ghost b = r.ranking@;
        proof {
            assert(rest@ =~= old_rest.drop_last());
            assert(old_rest.map_values(|x: Record| x.ranking@) =~= rest@.map_values(
                |x: Record| x.ranking@,
            ).push(b));
            assert(rankings_of(old_rest) == rankings_of(rest@).insert(b));
            assert(pending_ok(r, new_active)) by {
                assert(old_rest[old_rest.len() - 1] == r);
            }
        }
        let Record { ranking, pos } = r;
        let mut j = pos;
        let mut dest: Option<usize> = None;
        while j < ranking.len() && dest.is_none()
            invariant
                ranking@ == b,
                pos <= j <= ranking@.len(),
                keys_distinct(kept@),
                table_keys(kept@) == new_active,
                forall|jj: int| 0 <= jj < j ==> !new_active.contains(ranking@[jj]),
                match dest {
                    Some(i) => i < kept@.len() && j < ranking@.len() && kept@[i as int].key
                        == ranking@[j as int] && new_active.contains(ranking@[j as int]),
                    None => true,
                },
            decreases ranking@.len() - j, (if dest is None {
                1int
            } else {
                0int
            }),
        {
            let cand = ranking[j];
            match find_bucket(kept, cand) {
                Some(i) => {
                    proof {
                        lemma_table_keys(kept@);
                        assert(kept@[i as int].key == cand);
                        assert(new_active.contains(cand));
                    }
                    dest = Some(i);
                },
                None => {
                    proof {
                        lemma_table_keys(kept@);
                        assert(!new_active.contains(cand));
                    }
                    j += 1;
                },
            }
        }
        match dest {
            Some(i) => {
                proof {
                    lemma_first_active_index_at(b, new_active, j as int);
                    assert(assigned(b, new_active) == Some(b[j as int]));
                }
                let rec = Record { ranking, pos: j + 1 };
                let ghost mid_kept = kept@;
                let e = &mut kept[i];
                e.voters.push(rec);
                proof {
                    assert(kept@ =~= mid_kept.update(i as int, kept@[i as int]));
                    assert(kept@[i as int].key == mid_kept[i as int].key);
                    lemma_table_keys_update(mid_kept, i as int, kept@[i as int]);
                    let prev_moved = moved;
                    moved = moved.insert(b);
                    assert forall|k: int| 0 <= k < kept@.len() implies rankings_of(
                        #[trigger] kept@[k].voters@,
                    ) == ballots_for(live, active, kept@[k].key).add(
                        moved.filter(|x: Seq<u64>| assigned(x, new_active) == Some(kept@[k].key)),
                    ) by {
                        let p = |x: Seq<u64>| assigned(x, new_active) == Some(kept@[k].key);
                        lemma_multiset_filter_insert(prev_moved, p, b);
                        if k == i as int {
                            assert(kept@[k].voters@ == mid_kept[k].voters@.push(rec));
                            assert(kept@[k].voters@.map_values(|x: Record| x.ranking@)
                                =~= mid_kept[k].voters@.map_values(|x: Record| x.ranking@).push(b));
                            assert(rankings_of(kept@[k].voters@) =~= rankings_of(
                                mid_kept[k].voters@,
                            ).insert(b));
                            assert(rankings_of(mid_kept[k].voters@) == ballots_for(
                                live,
                                active,
                                mid_kept[k].key,
                            ).add(prev_moved.filter(p)));
                            assert(p(b));
                            assert(ballots_for(live, active, kept@[k].key).add(
                                prev_moved.filter(p).insert(b),
                            ) =~= ballots_for(live, active, kept@[k].key).add(
                                prev_moved.filter(p),
                            ).insert(b));
                        } else {
                            assert(kept@[k] == mid_kept[k]);
                            assert(kept@[k].key != kept@[i as int].key);
                            assert(!p(b));
                        }
                    }
                    assert forall|k: int| 0 <= k < kept@.len() implies wf_bucket(
                        #[trigger] kept@[k],
                        new_active,
                    ) by {
                        if k == i as int {
                            assert(wf_bucket(mid_kept[k], new_active));
                            assert forall|jj: int| 0 <= jj < kept@[k].voters@.len() implies
                                wf_record(#[trigger] kept@[k].voters@[jj], kept@[k].key, new_active) by {
                                if jj < mid_kept[k].voters@.len() {
                                    assert(kept@[k].voters@[jj] == mid_kept[k].voters@[jj]);
                                    assert(wf_record(mid_kept[k].voters@[jj], mid_kept[k].key, new_active));
                                } else {
                                    assert(kept@[k].voters@[jj] == rec);
                                }
                            }
                        } else {
                            assert(kept@[k] == mid_kept[k]);
                            assert(wf_bucket(mid_kept[k], new_active));
                        }
                    }
                    assert(moved.add(rankings_of(rest@)) =~= prev_moved.add(
                        rankings_of(rest@).insert(b),
                    ));
                }
            },
            None => {
                proof {
                    assert(j == ranking@.len());
                    lemma_first_active_index_props(b, new_active);
                    assert(assigned(b, new_active) is None) by {
                        match first_active_index(b, new_active) {
                            Some(ii) => {
                                assert(!new_active.contains(b[ii]));
                            },
                            None => {},
                        }
                    }
                    let prev_moved = moved;
                    moved = moved.insert(b);
                    assert forall|k: int| 0 <= k < kept@.len() implies rankings_of(
                        #[trigger] kept@[k].voters@,
                    ) == ballots_for(live, active, kept@[k].key).add(
                        moved.filter(|x: Seq<u64>| assigned(x, new_active) == Some(kept@[k].key)),
                    ) by {
                        let p = |x: Seq<u64>| assigned(x, new_active) == Some(kept@[k].key);
                        lemma_multiset_filter_insert(prev_moved, p, b);
                        assert(!p(b));
                    }
                    assert(moved.add(rankings_of(rest@)) =~= prev_moved.add(
                        rankings_of(rest@).insert(b),
                    ));
                }
            },
        }
    }
    proof {
        assert(rankings_of(rest@).len() == rest@.map_values(|x: Record| x.ranking@).len());
        assert(rankings_of(rest@) =~= Multiset::empty());
        assert(moved =~= pend_all);
    }
}

/// Runs a ranked-choice instant-runoff election, resolving ties by acting
/// equally upon the tied candidates.
///
/// Takes the ballots, each ranking candidates from first choice to last,
/// and returns the winners: one candidate when a remaining majority is
/// found, all remaining candidates when they end fully tied, and none when
/// no ballot names a candidate. The returned list carries no duplicates and
/// no promised order.
pub fn find_winners(ballots: Vec<Vec<u64>>) -> (winners: Vec<u64>)
    ensures
        winners@.to_set() == spec_winners(ballots.deep_view()),
        winners@.no_duplicates(),
{
    let ghost bs = ballots.deep_view();
    let ghost live = bs.to_multiset();
    let n = ballots.len();
    proof {
        lemma_deep_view_unfold(ballots);
        assert(bs.len() == n);
        assert(live.len() == bs.len());
        lemma_initial_active_finite(live);
    }
    let mut map = init_table(ballots);
    let ghost mut active: Set<u64> = initial_active(live);
    loop
        invariant
            live == bs.to_multiset(),
            bs == ballots.deep_view(),
            live.len() <= usize::MAX,
            active.finite(),
            table_inv(map@, live, active),
            winners_from(live, active) == spec_winners(bs),
        decreases map@.len(),
    {
        if map.len() == 0 {
            let out: Vec<u64> = Vec::new();
            proof {
                assert(table_keys(map@) =~= Set::<u64>::empty());
                assert(active.is_empty());
                assert(winners_from(live, active) == Set::<u64>::empty());
                assert(out@.to_set() =~= Set::<u64>::empty());
            }
            return out;
        }
        let (best, worst, total, best_idx) = tally(&map, Ghost(live), Ghost(active));
        if best > total / 2 {
            let w = map[best_idx].key;
            let mut out: Vec<u64> = Vec::new();
            out.push(w);
            proof {
                lemma_table_keys(map@);
                lemma_bucket_len(map@, live, active, best_idx as int);
                assert(active.contains(w));
                assert(vote_count(live, active, w) == best);
                assert(total == 2 * (total / 2) + total % 2);
                assert(2 * best > total);
                assert(has_majority(live, active, w));
                assert(!active.is_empty());
                let winset = active.filter(
                    |c: u64| 2 * vote_count(live, active, c) > live_count(live, active),
                );
                assert(winners_from(live, active) == winset);
                assert forall|c: u64| winset.contains(c) implies c == w by {
                    assert(has_majority(live, active, c));
                    lemma_majority_unique(live, active, c, w);
                }
                assert(winset.contains(w));
                assert(out@.len() == 1 && out@[0] == w);
                assert forall|c: u64| out@.contains(c) implies c == w by {
                    let k = choose|k: int| 0 <= k < out@.len() && out@[k] == c;
                }
                assert(out@.to_set() =~= winset);
                assert(out@.no_duplicates());
            }
            return out;
        }
        if best == worst {
            proof {
                lemma_table_keys(map@);
                assert forall|c: u64, d: u64|
                    active.contains(c) && active.contains(d) implies vote_count(live, active, c)
                    == vote_count(live, active, d) by {
                    let i = choose|i: int| 0 <= i < map@.len() && map@[i].key == c;
                    let jd = choose|j: int| 0 <= j < map@.len() && map@[j].key == d;
                    lemma_bucket_len(map@, live, active, i);
                    lemma_bucket_len(map@, live, active, jd);
                }
                assert(all_tied(live, active));
                assert forall|c: u64| !has_majority(live, active, c) by {
                    if active.contains(c) {
                        let i = choose|i: int| 0 <= i < map@.len() && map@[i].key == c;
                        lemma_bucket_len(map@, live, active, i);
                        assert(vote_count(live, active, c) <= best);
                        assert(2 * best <= 2 * (total / 2));
                        assert(2 * (total / 2) <= total);
                    }
                }
                assert(active.contains(map@[0].key)) by {
                    assert(exists|i: int| 0 <= i < map@.len() && (#[trigger] map@[i].key) == map@[0].key);
                }
                assert(!active.is_empty());
                assert(winners_from(live, active) == active);
            }
            let mut out: Vec<u64> = Vec::new();
            let mut i: usize = 0;
            while i < map.len()
                invariant
                    i <= map@.len(),
                    out@.len() == i as int,
                    forall|j: int| 0 <= j < i ==> out@[j] == map@[j].key,
                decreases map@.len() - i,
            {
                out.push(map[i].key);
                i += 1;
            }
            proof {
                lemma_table_keys(map@);
                assert forall|a: int, b2: int|
                    0 <= a < out@.len() && 0 <= b2 < out@.len() && a != b2 implies out@[a]
                    != out@[b2] by {
                    if a < b2 {
                        assert(map@[a].key != map@[b2].key);
                    } else {
                        assert(map@[b2].key != map@[a].key);
                    }
                }
                assert(out@.no_duplicates());
                assert forall|c: u64| out@.to_set().contains(c) implies active.contains(c) by {
                    let k = choose|k: int| 0 <= k < out@.len() && out@[k] == c;
                    assert(map@[k].key == c);
                }
                assert forall|c: u64| active.contains(c) implies out@.to_set().contains(c) by {
                    let k = choose|k: int| 0 <= k < map@.len() && map@[k].key == c;
                    assert(out@[k] == c);
                }
                assert(out@.to_set() =~= active);
            }
            return out;
        }
        // Eliminate every candidate tied for the fewest votes and hand
        // their ballots on.
        let ghost m0 = map@;
        let ghost new_active = survivors(live, active);
        proof {
            lemma_table_keys(m0);
            let wi = choose|i: int| 0 <= i < m0.len() && (#[trigger] m0[i].voters@.len()) == worst;
            lemma_bucket_len(m0, live, active, wi);
            lemma_bucket_len(m0, live, active, best_idx as int);
            let cw = m0[wi].key;
            let cb = m0[best_idx as int].key;
            assert(vote_count(live, active, cw) == worst);
            assert(vote_count(live, active, cb) == best);
            assert(active.contains(cw) && active.contains(cb));
            assert(!all_tied(live, active));
            assert(!active.is_empty());
            assert forall|c: u64| active.contains(c) implies worst <= vote_count(live, active, c)
                <= best by {
                let i = choose|i: int| 0 <= i < m0.len() && m0[i].key == c;
                lemma_bucket_len(m0, live, active, i);
            }
            assert forall|c: u64| !has_majority(live, active, c) by {
                if active.contains(c) {
                    assert(vote_count(live, active, c) <= best);
                    assert(2 * best <= 2 * (total / 2));
                    assert(2 * (total / 2) <= total);
                }
            }
            lemma_survivors_strict(live, active);
            lemma_table_records_live(m0, live, active);
            lemma_table_keys_len(m0);
        }
        let pair = drain_worst(map, worst);
        let mut kept = pair.0;
        let pending = pair.1;
        let ghost kept0 = kept@;
        let ghost pend_ms = rankings_of(pending@);
        proof {
            assert forall|i: int| 0 <= i < kept0.len() implies rankings_of(
                #[trigger] kept0[i].voters@,
            ) == ballots_for(live, active, kept0[i].key) && wf_bucket(kept0[i], active) by {
                let j = choose|j: int|
                    0 <= j < m0.len() && kept0[i] == m0[j] && m0[j].voters@.len() != worst;
            }
            lemma_table_keys(kept0);
            assert(table_keys(kept0) =~= new_active) by {
                assert forall|c: u64| table_keys(kept0).contains(c) implies new_active.contains(
                    c,
                ) by {
                    assert(seq_has_key(kept0, c));
                    assert(prefix_has_key_not_worst(m0, m0.len() as int, worst, c));
                    let j = choose|j: int|
                        0 <= j < m0.len() && (#[trigger] m0[j].key) == c && m0[j].voters@.len()
                            != worst;
                    lemma_bucket_len(m0, live, active, j);
                    assert(active.contains(c));
                    assert(vote_count(live, active, c) != worst);
                    let wi = choose|i: int|
                        0 <= i < m0.len() && (#[trigger] m0[i].voters@.len()) == worst;
                    lemma_bucket_len(m0, live, active, wi);
                    assert(vote_count(live, active, m0[wi].key) < vote_count(live, active, c));
                }
                assert forall|c: u64| new_active.contains(c) implies table_keys(kept0).contains(
                    c,
                ) by {
                    let d = choose|d: u64|
                        active.contains(d) && vote_count(live, active, d) < vote_count(
                            live,
                            active,
                            c,
                        );
                    let j = choose|j: int| 0 <= j < m0.len() && (#[trigger] m0[j].key) == c;
                    lemma_bucket_len(m0, live, active, j);
                    assert(m0[j].voters@.len() != worst);
                    assert(prefix_has_key_not_worst(m0, m0.len() as int, worst, c));
                    assert(seq_has_key(kept0, c));
                }
            }
            assert forall|i: int| 0 <= i < kept0.len() implies wf_bucket(
                #[trigger] kept0[i],
                new_active,
            ) by {
                assert(wf_bucket(kept0[i], active));
                assert forall|jj: int| 0 <= jj < kept0[i].voters@.len() implies wf_record(
                    #[trigger] kept0[i].voters@[jj],
                    kept0[i].key,
                    new_active,
                ) by {
                    let r = kept0[i].voters@[jj];
                    assert(wf_record(r, kept0[i].key, active));
                    lemma_first_active_index_props(r.ranking@, active);
                    assert(table_keys(kept0).contains(kept0[i].key));
                    lemma_first_active_index_at(r.ranking@, new_active, r.pos - 1);
                }
            }
            assert forall|k: int| 0 <= k < pending@.len() implies pending_ok(
                #[trigger] pending@[k],
                new_active,
            ) by {
                let r = pending@[k];
                assert(record_from_worst(m0, m0.len() as int, worst, r));
                let j = choose|j: int|
                    0 <= j < m0.len() && (#[trigger] m0[j].voters@).len() == worst
                        && m0[j].voters@.contains(r);
                let idx = choose|idx: int| 0 <= idx < m0[j].voters@.len() && m0[j].voters@[idx] == r;
                assert(wf_record(r, m0[j].key, active));
                lemma_first_active_index_props(r.ranking@, active);
                lemma_bucket_len(m0, live, active, j);
                assert(vote_count(live, active, m0[j].key) == worst);
                assert(!new_active.contains(m0[j].key));
                assert forall|q: int| 0 <= q < r.pos implies !new_active.contains(
                    r.ranking@[q],
                ) by {
                    if q < r.pos - 1 {
                        assert(!active.contains(r.ranking@[q]));
                    } else {
                        assert(r.ranking@[q] == m0[j].key);
                    }
                }
            }
            lemma_table_records_live(kept0, live, active);
        }
        redistribute(&mut kept, pending, Ghost(live), Ghost(active), Ghost(new_active));
        proof {
            lemma_table_keys(kept@);
            assert forall|i: int| 0 <= i < kept@.len() implies rankings_of(
                #[trigger] kept@[i].voters@,
            ) == ballots_for(live, new_active, kept@[i].key) by {
                let c = kept@[i].key;
                assert(new_active.contains(c)) by {
                    assert(seq_has_key(kept@, c));
                }
                let p_new = |x: Seq<u64>| assigned(x, new_active) == Some(c);
                assert forall|x: Seq<u64>| #[trigger] ballots_for(live, active, c).add(
                    pend_ms.filter(p_new),
                ).count(x) == ballots_for(live, new_active, c).count(x) by {
                    lemma_assigned_shrink(x, active, new_active);
                    lemma_assigned_is_active(x, active);
                    lemma_assigned_is_active(x, new_active);
                    assert(table_records(kept0).count(x) + pend_ms.count(x) == table_records(
                        m0,
                    ).count(x));
                    assert(table_keys(m0) == active);
                    assert(table_keys(kept0) == new_active);
                }
                assert(ballots_for(live, active, c).add(pend_ms.filter(p_new)) =~= ballots_for(
                    live,
                    new_active,
                    c,
                ));
            }
            assert(!(exists|c: u64| has_majority(live, active, c)));
            assert(winners_from(live, active) == winners_from(live, new_active));
            lemma_table_keys_len(kept0);
            lemma_table_keys_len(m0);
            lemma_survivors_strict(live, active);
            assert(kept@.len() < m0.len());
            active = new_active;
        }
        map = kept;
    }
}

} // verus!
