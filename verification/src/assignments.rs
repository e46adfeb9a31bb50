//! The trips that trains were last assigned to.
use vstd::prelude::*;

use crate::groups::{TrainKey, TrainName};
use crate::index::TripIndex;

verus! {

/// The trip that a train was last assigned to, and what was known of the train then.
#[derive(Clone, Debug)]
pub struct CachedAssignment {
    pub train_id: String,
    pub trip_index: TripIndex,
    pub service_date: i32,
    pub line: String,
    pub direction: String,
    pub destination: String,
    pub last_seen_unix: i64,
}

/// What an assignment says of its train.
pub struct Assignment {
    pub trip: usize,
    pub date: i32,
    pub line: Seq<char>,
    pub direction: Seq<char>,
    pub destination: Seq<char>,
    pub last_seen: i64,
}

impl View for CachedAssignment {
    type V = Assignment;

    open spec fn view(&self) -> Assignment {
        Assignment {
            trip: self.trip_index,
            date: self.service_date,
            line: self.line@,
            direction: self.direction@,
            destination: self.destination@,
            last_seen: self.last_seen_unix,
        }
    }
}

/// No train has two assignments.
pub open spec fn one_each(cache: Seq<CachedAssignment>) -> bool {
    forall|i: int, j: int|
        0 <= i < j < cache.len() ==> (#[trigger] cache[i]).train_id@ != (
        #[trigger] cache[j]).train_id@
}

/// Whether an entry is that of a train.
pub open spec fn entry_of(cache: Seq<CachedAssignment>, at: int, train_id: Seq<char>) -> bool {
    0 <= at < cache.len() && cache[at].train_id@ == train_id
}

/// The assignment of each train.
pub open spec fn assigned(cache: Seq<CachedAssignment>) -> Map<Seq<char>, Assignment> {
    Map::new(
        |train_id: Seq<char>| exists|at: int| #[trigger] entry_of(cache, at, train_id),
        |train_id: Seq<char>| cache[choose|at: int| #[trigger] entry_of(cache, at, train_id)]@,
    )
}

proof fn lemma_assigned(cache: Seq<CachedAssignment>, at: int)
    requires
        one_each(cache),
        0 <= at < cache.len(),
    ensures
        assigned(cache).contains_key(cache[at].train_id@),
        assigned(cache)[cache[at].train_id@] == cache[at]@,
{
    let train_id = cache[at].train_id@;
    assert(entry_of(cache, at, train_id));
    let chosen = choose|k: int| #[trigger] entry_of(cache, k, train_id);
    if chosen < at {
        assert(cache[chosen].train_id@ != cache[at].train_id@);
    } else if at < chosen {
        assert(cache[at].train_id@ != cache[chosen].train_id@);
    }
}

/// The seconds from one moment to another, held in the range of 64 bits.
pub open spec fn age(now: i64, since: i64) -> int {
    if now - since > i64::MAX {
        i64::MAX as int
    } else if now - since < i64::MIN {
        i64::MIN as int
    } else {
        now - since
    }
}

/// Computes the seconds from one moment to another, held in the range of 64 bits.
pub fn age_seconds(now: i64, since: i64) -> (result: i64)
    ensures
        result == age(now, since),
{
    let difference: i128 = now as i128 - since as i128;
    if difference > i64::MAX as i128 {
        i64::MAX
    } else if difference < i64::MIN as i128 {
        i64::MIN
    } else {
        difference as i64
    }
}

/// The trip that a train probably still runs: that of its assignment, where it is no older than
/// `ttl` seconds and the train has the same line, direction and destination.
pub open spec fn preferred(
    assigned: Map<Seq<char>, Assignment>,
    train: TrainName,
    now: i64,
    ttl: i64,
) -> Option<(usize, i32)> {
    let cached = assigned[train.train_id];
    if assigned.contains_key(train.train_id) && age(now, cached.last_seen) <= ttl && cached.line
        == train.line && cached.direction == train.direction && cached.destination
        == train.destination {
        Some((cached.trip, cached.date))
    } else {
        None
    }
}

/// The assignments that are no older than three times `ttl` seconds.
pub open spec fn kept(assigned: Map<Seq<char>, Assignment>, now: i64, ttl: i64) -> Map<
    Seq<char>,
    Assignment,
> {
    Map::new(
        |train_id: Seq<char>|
            assigned.contains_key(train_id) && age(now, assigned[train_id].last_seen) <= ttl * 3,
        |train_id: Seq<char>| assigned[train_id],
    )
}

/// The entry of a train, if it has one.
fn find_entry(cache: &Vec<CachedAssignment>, train_id: &String) -> (result: Option<usize>)
    ensures
        match result {
            Some(at) => entry_of(cache@, at as int, train_id@),
            None => forall|at: int| !#[trigger] entry_of(cache@, at, train_id@),
        },
{
    for i in 0..cache.len()
        invariant
            forall|at: int| 0 <= at < i ==> !#[trigger] entry_of(cache@, at, train_id@),
    {
        if cache[i].train_id == *train_id {
            return Some(i);
        }
    }
    None
}

/// Finds the trip that a train probably still runs.
pub fn preferred_trip(
    cache: &Vec<CachedAssignment>,
    train: &TrainKey,
    now: i64,
    ttl: i64,
) -> (result: Option<(TripIndex, i32)>)
    requires
        one_each(cache@),
    ensures
        result == preferred(assigned(cache@), train@, now, ttl),
{
    match find_entry(cache, &train.train_id) {
        None => None,
        Some(at) => {
            let cached = &cache[at];
            proof {
                lemma_assigned(cache@, at as int);
            }
            if age_seconds(now, cached.last_seen_unix) <= ttl && cached.line == train.line
                && cached.direction == train.direction && cached.destination
                == train.destination {
                Some((cached.trip_index, cached.service_date))
            } else {
                None
            }
        },
    }
}

/// Sets the assignment of a train.
pub fn assign(cache: &mut Vec<CachedAssignment>, entry: CachedAssignment)
    requires
        one_each(old(cache)@),
    ensures
        one_each(final(cache)@),
        assigned(final(cache)@) == assigned(old(cache)@).insert(entry.train_id@, entry@),
{
    let ghost before = cache@;
    let ghost id = entry.train_id@;
    match find_entry(cache, &entry.train_id) {
        Some(at) => {
            cache.set(at, entry);
            proof {
                assert forall|i: int, j: int| 0 <= i < j < cache@.len() implies (
                #[trigger] cache@[i]).train_id@ != (#[trigger] cache@[j]).train_id@ by {
                    assert(before[i].train_id@ != before[j].train_id@);
                }
                lemma_changed(before, cache@, at as int);
            }
        },
        None => {
            cache.push(entry);
            proof {
                assert forall|i: int, j: int| 0 <= i < j < cache@.len() implies (
                #[trigger] cache@[i]).train_id@ != (#[trigger] cache@[j]).train_id@ by {
                    if j < before.len() {
                        assert(before[i].train_id@ != before[j].train_id@);
                    } else {
                        assert(!entry_of(before, i, id));
                    }
                }
                lemma_changed(before, cache@, before.len() as int);
            }
        },
    }
}

/// Entries that differ in one place only.
proof fn lemma_changed(before: Seq<CachedAssignment>, after: Seq<CachedAssignment>, at: int)
    requires
        one_each(before),
        one_each(after),
        0 <= at < after.len(),
        at <= before.len(),
        after.len() == before.len() || at == before.len() && after.len() == before.len() + 1,
        forall|i: int| 0 <= i < before.len() && i != at ==> #[trigger] after[i] == before[i],
        at < before.len() ==> before[at].train_id@ == after[at].train_id@,
    ensures
        assigned(after) == assigned(before).insert(after[at].train_id@, after[at]@),
{
    let id = after[at].train_id@;
    lemma_assigned(after, at);
    assert forall|other: Seq<char>|
        #![trigger assigned(after).dom().contains(other)]
        #![trigger assigned(before).dom().contains(other)]
        other != id implies assigned(after).dom().contains(other) == assigned(
        before,
    ).dom().contains(other) && (assigned(before).dom().contains(other) ==> assigned(after)[other]
        == assigned(before)[other]) by {
        if assigned(after).contains_key(other) {
            let k = choose|k: int| #[trigger] entry_of(after, k, other);
            assert(entry_of(before, k, other));
            lemma_assigned(before, k);
            lemma_assigned(after, k);
        }
        if assigned(before).contains_key(other) {
            let k = choose|k: int| #[trigger] entry_of(before, k, other);
            assert(entry_of(after, k, other));
        }
    }
    assert(assigned(after) =~= assigned(before).insert(id, after[at]@));
}

/// Drops the assignments that are older than three times `ttl` seconds.
pub fn drop_old(cache: Vec<CachedAssignment>, now: i64, ttl: i64) -> (result: Vec<CachedAssignment>)
    requires
        one_each(cache@),
    ensures
        one_each(result@),
        assigned(result@) == kept(assigned(cache@), now, ttl),
{
    let ghost all = cache@;
    let limit: i128 = ttl as i128 * 3;
    let mut result: Vec<CachedAssignment> = Vec::new();
    for entry in it: cache
        invariant
            it.seq() == all,
            limit == ttl * 3,
            one_each(all),
            one_each(result@),
            all_from(result@, all.take(it.index() as int), now, limit as int),
            all_kept(result@, all.take(it.index() as int), now, limit as int),
    {
        let ghost i = it.index() as int;
        let ghost before = result@;
        let ghost taken = all.take(i);
        let ghost grown = all.take(i + 1);
        proof {
            assert(entry == all[i]);
            assert(grown[i] == entry);
            assert forall|k: int| 0 <= k < taken.len() implies grown[k] == taken[k] by {}
        }
        if age_seconds(now, entry.last_seen_unix) as i128 <= limit {
            proof {
                assert forall|k: int| 0 <= k < before.len() implies (
                #[trigger] before[k]).train_id@ != entry.train_id@ by {
                    let from = choose|from: int|
                        0 <= from < taken.len() && #[trigger] taken[from] == before[k];
                    assert(all[from].train_id@ != all[i].train_id@);
                }
            }
            result.push(entry);
            proof {
                assert forall|k: int| 0 <= k < result@.len() implies exists|from: int|
                    0 <= from < grown.len() && #[trigger] grown[from] == #[trigger] result@[k] by {
                    if k < before.len() {
                        let from = choose|from: int|
                            0 <= from < taken.len() && #[trigger] taken[from] == before[k];
                        assert(grown[from] == result@[k]);
                    } else {
                        assert(grown[i] == result@[k]);
                    }
                }
                assert forall|from: int|
                    0 <= from < grown.len() && age(now, (#[trigger] grown[from]).last_seen_unix)
                        <= limit implies result@.contains(grown[from]) by {
                    if from < i {
                        assert(taken[from] == grown[from]);
                        assert(before.contains(taken[from]));
                        let k = choose|k: int| 0 <= k < before.len() && before[k] == taken[from];
                        assert(result@[k] == grown[from]);
                    } else {
                        assert(result@[before.len() as int] == grown[from]);
                    }
                }
            }
        } else {
            proof {
                assert forall|k: int| 0 <= k < result@.len() implies exists|from: int|
                    0 <= from < grown.len() && #[trigger] grown[from] == #[trigger] result@[k] by {
                    let from = choose|from: int|
                        0 <= from < taken.len() && #[trigger] taken[from] == before[k];
                    assert(grown[from] == result@[k]);
                }
                assert forall|from: int|
                    0 <= from < grown.len() && age(now, (#[trigger] grown[from]).last_seen_unix)
                        <= limit implies result@.contains(grown[from]) by {
                    assert(taken[from] == grown[from]);
                }
            }
        }
    }
    proof {
        assert(all.take(all.len() as int) =~= all);
        let young = kept(assigned(all), now, ttl);
        assert forall|id: Seq<char>|
            #![trigger assigned(result@).dom().contains(id)]
            #![trigger young.dom().contains(id)]
            assigned(result@).dom().contains(id) == young.dom().contains(id) && (assigned(
                result@,
            ).dom().contains(id) ==> assigned(result@)[id] == young[id]) by {
            if assigned(result@).contains_key(id) {
                let k = choose|k: int| #[trigger] entry_of(result@, k, id);
                let from = choose|from: int|
                    0 <= from < all.len() && #[trigger] all[from] == result@[k];
                lemma_assigned(all, from);
                lemma_assigned(result@, k);
            }
            if kept(assigned(all), now, ttl).contains_key(id) {
                let from = choose|from: int| #[trigger] entry_of(all, from, id);
                lemma_assigned(all, from);
                assert(result@.contains(all[from]));
                let k = choose|k: int| 0 <= k < result@.len() && result@[k] == all[from];
                assert(entry_of(result@, k, id));
            }
        }
        assert(assigned(result@) =~= kept(assigned(all), now, ttl));
    }
    result
}

/// Sets the assignment of a train, and drops those that are older by then than three times `ttl`
/// seconds.
pub fn remember(cache: &mut Vec<CachedAssignment>, entry: CachedAssignment, ttl: i64)
    requires
        one_each(old(cache)@),
    ensures
        one_each(final(cache)@),
        assigned(final(cache)@) == kept(
            assigned(old(cache)@).insert(entry.train_id@, entry@),
            entry@.last_seen,
            ttl,
        ),
{
    let now = entry.last_seen_unix;
    assign(cache, entry);
    let mut entries: Vec<CachedAssignment> = Vec::new();
    std::mem::swap(&mut entries, cache);
    *cache = drop_old(entries, now, ttl);
}

/// Every entry of `result` is one of `entries` that is young enough.
spec fn all_from(
    result: Seq<CachedAssignment>,
    entries: Seq<CachedAssignment>,
    now: i64,
    limit: int,
) -> bool {
    forall|k: int|
        0 <= k < result.len() ==> age(now, (#[trigger] result[k]).last_seen_unix) <= limit
            && exists|from: int| 0 <= from < entries.len() && #[trigger] entries[from] == result[k]
}

/// Every entry that is young enough is in `result`.
spec fn all_kept(
    result: Seq<CachedAssignment>,
    entries: Seq<CachedAssignment>,
    now: i64,
    limit: int,
) -> bool {
    forall|from: int|
        0 <= from < entries.len() && age(now, (#[trigger] entries[from]).last_seen_unix) <= limit
            ==> result.contains(entries[from])
}

/// A train that was just assigned a trip is looked for on it again, as long as the assignment is
/// young enough and its line, direction and destination stay the same.
pub proof fn remembered_trip_is_preferred(
    assigned: Map<Seq<char>, Assignment>,
    train: TrainName,
    assignment: Assignment,
    now: i64,
    ttl: i64,
)
    requires
        ttl >= 0,
        age(now, assignment.last_seen) <= ttl,
        assignment.line == train.line,
        assignment.direction == train.direction,
        assignment.destination == train.destination,
    ensures
        preferred(
            kept(assigned.insert(train.train_id, assignment), assignment.last_seen, ttl),
            train,
            now,
            ttl,
        ) == Some((assignment.trip, assignment.date)),
{
}

/// A train is looked for first on the trip of its assignment where it has one with the same
/// line, direction and destination whose age is at most `ttl` seconds, and on none otherwise.
pub proof fn young_assignment_is_preferred(
    assigned: Map<Seq<char>, Assignment>,
    train: TrainName,
    now: i64,
    ttl: i64,
)
    ensures
        !assigned.contains_key(train.train_id) ==> preferred(assigned, train, now, ttl) is None,
        assigned.contains_key(train.train_id) ==> {
            let last = assigned[train.train_id];
            let found = preferred(assigned, train, now, ttl);
            &&& last.line != train.line ==> found is None
            &&& last.direction != train.direction ==> found is None
            &&& last.destination != train.destination ==> found is None
            &&& ttl < i64::MAX && now - last.last_seen > ttl ==> found is None
            &&& last.line == train.line && last.direction == train.direction
                && last.destination == train.destination && now - last.last_seen <= ttl
                ==> found == Some((last.trip, last.date))
        },
{
}

/// Of the assignments those whose age is at most three times `ttl` seconds stay, unchanged, and
/// the others go.
pub proof fn old_assignments_go(
    assigned: Map<Seq<char>, Assignment>,
    now: i64,
    ttl: i64,
    train_id: Seq<char>,
)
    requires
        i64::MIN <= 3 * ttl < i64::MAX,
    ensures
        kept(assigned, now, ttl).contains_key(train_id) <==> assigned.contains_key(train_id) && now
            - assigned[train_id].last_seen <= 3 * ttl,
        kept(assigned, now, ttl).contains_key(train_id) ==> kept(assigned, now, ttl)[train_id]
            == assigned[train_id],
{
}

/// A train has the assignment of its entry, and none without an entry.
pub proof fn entries_are_assignments(cache: Seq<CachedAssignment>, train_id: Seq<char>)
    requires
        one_each(cache),
    ensures
        assigned(cache).contains_key(train_id) <==> exists|at: int|
            0 <= at < cache.len() && (#[trigger] cache[at]).train_id@ == train_id,
        forall|at: int|
            0 <= at < cache.len() && (#[trigger] cache[at]).train_id@ == train_id
                ==> assigned(cache)[train_id] == cache[at]@,
{
    assert forall|at: int|
        0 <= at < cache.len() && (#[trigger] cache[at]).train_id@ == train_id implies assigned(
        cache,
    )[train_id] == cache[at]@ && assigned(cache).contains_key(train_id) by {
        lemma_assigned(cache, at);
    }
    if assigned(cache).contains_key(train_id) {
        let at = choose|at: int| #[trigger] entry_of(cache, at, train_id);
        assert(cache[at].train_id@ == train_id);
    }
}

/// An entry says its trip and day, the line, direction and destination of its train, and when
/// the train was last seen.
pub proof fn entry_says_fields(entry: CachedAssignment)
    ensures
        entry@.trip == entry.trip_index,
        entry@.date == entry.service_date,
        entry@.line == entry.line@,
        entry@.direction == entry.direction@,
        entry@.destination == entry.destination@,
        entry@.last_seen == entry.last_seen_unix,
{
}

} // verus!
