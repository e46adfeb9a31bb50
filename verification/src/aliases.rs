//! The names under which riders know a station, and the stations behind a name.
use vstd::prelude::*;

use crate::names::normalize_station_name;
use crate::ordered::{insert_ascending, sort_distinct};
use crate::text::{characters, has_prefix, same_text, text_of, without_suffix};

verus! {

/// The number of a logical station.
pub type StationId = u32;

/// A station name in its common form, with the stations that it may stand for.
#[derive(Clone, Debug)]
pub struct StationAlias {
    pub name: String,
    pub stations: Vec<StationId>,
}

/// A character that parts the components of a compound station name.
pub open spec fn separator(ch: char) -> bool {
    ch == '/' || ch == '-' || ch == '&'
}

/// Whether the characters from `from` up to `to` are a component of a compound name: what
/// stands between neighbouring separators or the ends of the name.
pub open spec fn component(name: Seq<char>, from: int, to: int) -> bool {
    &&& 0 <= from <= to <= name.len()
    &&& from == 0 || separator(name[from - 1])
    &&& to == name.len() || separator(name[to])
    &&& forall|k: int| from <= k < to ==> !separator(#[trigger] name[k])
}

/// Whether `alias` is the common form of a component of `name`, and not too short to stand for
/// a station.
pub open spec fn component_alias(name: Seq<char>, alias: Seq<char>, from: int, to: int) -> bool {
    &&& component(name, from, to)
    &&& alias == crate::names::station_name(name.subrange(from, to))
    &&& alias.len() >= 4
}

/// Whether `alias` is `full` without a generic suffix, and not too short to stand for a
/// station.
pub open spec fn shortened(full: Seq<char>, suffix: Seq<char>, alias: Seq<char>) -> bool {
    full == alias + suffix && alias.len() >= 4
}

/// Whether the two common forms are the short and the long name of Hamilton E. Holmes.
pub open spec fn other_holmes(full: Seq<char>, alias: Seq<char>) -> bool {
    ||| full == "H E HOLMES"@ && alias == "HAMILTON E HOLMES"@
    ||| full == "HAMILTON E HOLMES"@ && alias == "H E HOLMES"@
}

/// Whether riders may know a station named `name` as `alias`.
pub open spec fn known_as(name: Seq<char>, alias: Seq<char>) -> bool {
    let full = crate::names::station_name(name);
    ||| alias == full && full.len() > 0
    ||| other_holmes(full, alias)
    ||| exists|from: int, to: int| #[trigger] component_alias(name, alias, from, to)
    ||| shortened(full, " CENTER"@, alias)
    ||| shortened(full, " PARK"@, alias)
}

/// Whether the table lists `station` under `name`.
pub open spec fn lists(table: Seq<StationAlias>, name: Seq<char>, station: StationId) -> bool {
    exists|i: int|
        0 <= i < table.len() && (#[trigger] table[i]).name@ == name
            && table[i].stations@.contains(station)
}

/// Whether the table holds a name.
pub open spec fn holds_name(table: Seq<StationAlias>, name: Seq<char>) -> bool {
    exists|i: int| 0 <= i < table.len() && (#[trigger] table[i]).name@ == name
}

/// Names are in their common form, and none stands twice in the table.
pub open spec fn distinct_names(table: Seq<StationAlias>) -> bool {
    &&& forall|i: int, j: int|
        0 <= i < j < table.len() ==> (#[trigger] table[i]).name@ != (#[trigger] table[j]).name@
    &&& forall|i: int|
        0 <= i < table.len() ==> crate::names::plain_text((#[trigger] table[i]).name@)
}

/// Names are in their common form, none stands twice in the table, and the stations under each
/// name are ascending and not none.
pub open spec fn alias_table(table: Seq<StationAlias>) -> bool {
    &&& distinct_names(table)
    &&& forall|i: int|
        0 <= i < table.len() ==> crate::ordered::ascending((#[trigger] table[i]).stations@)
            && table[i].stations@.len() > 0
}

/// No name is without stations.
pub open spec fn no_list_empty(table: Seq<StationAlias>) -> bool {
    forall|i: int| 0 <= i < table.len() ==> (#[trigger] table[i]).stations@.len() > 0
}

/// A station, a number of times.
pub open spec fn copies(station: StationId, times: nat) -> Seq<StationId> {
    Seq::new(times, |i: int| station)
}

/// Whether a table grew by a station alone: each list is followed by the station as many times
/// as `times` says of its name, and each new list holds nothing but the station that many times,
/// at least once.
pub open spec fn grown(
    before: Seq<StationAlias>,
    after: Seq<StationAlias>,
    station: StationId,
    times: spec_fn(Seq<char>) -> nat,
) -> bool {
    &&& before.len() <= after.len()
    &&& forall|i: int|
        0 <= i < before.len() ==> (#[trigger] after[i]).name@ == before[i].name@
            && after[i].stations@ == before[i].stations@ + copies(
            station,
            times(before[i].name@),
        )
    &&& forall|i: int|
        before.len() <= i < after.len() ==> times((#[trigger] after[i]).name@) > 0
            && after[i].stations@ == copies(station, times(after[i].name@))
    &&& forall|name: Seq<char>| #[trigger] times(name) > 0 ==> holds_name(after, name)
}

/// Where the component that ends at `to` begins.
pub open spec fn component_start(name: Seq<char>, to: int) -> int
    decreases to,
{
    if to <= 0 || separator(name[to - 1]) {
        to
    } else {
        component_start(name, to - 1)
    }
}

/// How many of the components that end before position `count` have `alias` for their common
/// form.
pub open spec fn component_times(name: Seq<char>, alias: Seq<char>, count: int) -> nat
    decreases count,
{
    if count <= 0 {
        0
    } else {
        let to = count - 1;
        component_times(name, alias, to) + if component_alias(
            name,
            alias,
            component_start(name, to),
            to,
        ) {
            1nat
        } else {
            0
        }
    }
}

/// One where something holds, else none.
pub open spec fn once(holds: bool) -> nat {
    if holds {
        1
    } else {
        0
    }
}

/// How many times riders may know a station named `name` as `alias`: by the whole name, by the
/// other name of Hamilton E. Holmes, by each component and without each generic suffix.
pub open spec fn times_known(name: Seq<char>, alias: Seq<char>) -> nat {
    let full = crate::names::station_name(name);
    once(alias == full && full.len() > 0) + once(other_holmes(full, alias)) + component_times(
        name,
        alias,
        name.len() as int + 1,
    ) + once(shortened(full, " CENTER"@, alias)) + once(shortened(full, " PARK"@, alias))
}

/// How many times a station is listed under `alias` for its name, if it has one.
pub open spec fn times_listed(name: Option<&str>) -> spec_fn(Seq<char>) -> nat {
    |alias: Seq<char>|
        match name {
            Some(name) => times_known(name@, alias),
            None => 0,
        }
}

/// A table that grew twice grew by both.
proof fn lemma_grown_twice(
    first: Seq<StationAlias>,
    second: Seq<StationAlias>,
    third: Seq<StationAlias>,
    station: StationId,
    one: spec_fn(Seq<char>) -> nat,
    other: spec_fn(Seq<char>) -> nat,
    both: spec_fn(Seq<char>) -> nat,
)
    requires
        grown(first, second, station, one),
        grown(second, third, station, other),
        distinct_names(third),
        forall|name: Seq<char>| #[trigger] both(name) == one(name) + other(name),
    ensures
        grown(first, third, station, both),
{
    assert forall|i: int| 0 <= i < first.len() implies (#[trigger] third[i]).name@
        == first[i].name@ && third[i].stations@ == first[i].stations@ + copies(
        station,
        both(first[i].name@),
    ) by {
        assert(second[i].name@ == first[i].name@);
        assert(both(first[i].name@) == one(first[i].name@) + other(first[i].name@));
        assert(third[i].stations@ =~= first[i].stations@ + copies(
            station,
            both(first[i].name@),
        ));
    }
    assert forall|i: int| first.len() <= i < third.len() implies both(
        (#[trigger] third[i]).name@,
    ) > 0 && third[i].stations@ == copies(station, both(third[i].name@)) by {
        let name = third[i].name@;
        assert(both(name) == one(name) + other(name));
        if i < second.len() {
            assert(second[i].name@ == name);
            assert(third[i].stations@ =~= copies(station, both(name)));
        } else if one(name) > 0 {
            let k = choose|k: int| 0 <= k < second.len() && (#[trigger] second[k]).name@ == name;
            assert(third[k].name@ == name);
            assert(third[k].name@ != third[i].name@);
        }
    }
    assert forall|name: Seq<char>| #[trigger] both(name) > 0 implies holds_name(third, name) by {
        if other(name) == 0 {
            assert(one(name) > 0);
            let k = choose|k: int| 0 <= k < second.len() && (#[trigger] second[k]).name@ == name;
            assert(third[k].name@ == name);
        }
    }
}

/// How a table grew depends on nothing but how many times the station is listed under each name.
proof fn lemma_grown_same(
    before: Seq<StationAlias>,
    after: Seq<StationAlias>,
    station: StationId,
    one: spec_fn(Seq<char>) -> nat,
    other: spec_fn(Seq<char>) -> nat,
)
    requires
        grown(before, after, station, one),
        forall|name: Seq<char>| #[trigger] other(name) == one(name),
    ensures
        grown(before, after, station, other),
{
    assert forall|i: int| 0 <= i < after.len() implies other((#[trigger] after[i]).name@) == one(
        after[i].name@,
    ) by {}
    assert forall|i: int| 0 <= i < before.len() implies other((#[trigger] before[i]).name@)
        == one(before[i].name@) by {}
    assert forall|i: int| 0 <= i < before.len() implies (#[trigger] after[i]).name@
        == before[i].name@ && after[i].stations@ == before[i].stations@ + copies(
        station,
        other(before[i].name@),
    ) by {
        assert(other(before[i].name@) == one(before[i].name@));
    }
    assert forall|name: Seq<char>| #[trigger] other(name) > 0 implies holds_name(after, name) by {
        assert(one(name) > 0);
    }
}

/// A table that does not change grew by nothing.
proof fn lemma_not_grown(
    table: Seq<StationAlias>,
    station: StationId,
    times: spec_fn(Seq<char>) -> nat,
)
    requires
        forall|name: Seq<char>| #[trigger] times(name) == 0,
    ensures
        grown(table, table, station, times),
{
    assert forall|i: int| 0 <= i < table.len() implies (#[trigger] table[i]).stations@
        == table[i].stations@ + copies(station, times(table[i].name@)) by {
        assert(times(table[i].name@) == 0);
        assert(table[i].stations@ =~= table[i].stations@ + copies(station, 0));
    }
}

/// What a table that grew lists.
proof fn lemma_grown_lists(
    before: Seq<StationAlias>,
    after: Seq<StationAlias>,
    station: StationId,
    times: spec_fn(Seq<char>) -> nat,
    name: Seq<char>,
    s: StationId,
)
    requires
        grown(before, after, station, times),
        distinct_names(before),
    ensures
        lists(after, name, s) <==> lists(before, name, s) || (s == station && times(name) > 0),
{
    if lists(after, name, s) {
        let k = choose|k: int|
            0 <= k < after.len() && (#[trigger] after[k]).name@ == name
                && after[k].stations@.contains(s);
        let at = choose|at: int| 0 <= at < after[k].stations@.len() && after[k].stations@[at] == s;
        if k < before.len() {
            if at < before[k].stations@.len() {
                assert(before[k].stations@[at] == s);
                assert(before[k].name@ == name);
            } else {
                assert(copies(station, times(name))[at - before[k].stations@.len()] == s);
            }
        } else {
            assert(copies(station, times(name))[at] == s);
        }
    }
    if lists(before, name, s) {
        let k = choose|k: int|
            0 <= k < before.len() && (#[trigger] before[k]).name@ == name
                && before[k].stations@.contains(s);
        let at = choose|at: int|
            0 <= at < before[k].stations@.len() && before[k].stations@[at] == s;
        assert(after[k].name@ == name);
        assert(after[k].stations@[at] == s);
    }
    if s == station && times(name) > 0 {
        let k = choose|k: int| 0 <= k < after.len() && (#[trigger] after[k]).name@ == name;
        let list = after[k].stations@;
        assert(list[list.len() - 1] == station);
        assert(list.contains(station));
    }
}

proof fn lemma_component_start(name: Seq<char>, to: int)
    requires
        0 <= to <= name.len(),
    ensures
        0 <= component_start(name, to) <= to,
        component_start(name, to) == 0 || separator(name[component_start(name, to) - 1]),
        forall|k: int|
            component_start(name, to) <= k < to ==> !separator(#[trigger] name[k]),
    decreases to,
{
    if to > 0 && !separator(name[to - 1]) {
        lemma_component_start(name, to - 1);
    }
}

/// Where a component begins is settled by where it ends.
proof fn lemma_component_from(name: Seq<char>, from: int, to: int)
    requires
        component(name, from, to),
    ensures
        component_start(name, to) == from,
{
    lemma_component_start(name, to);
    let start = component_start(name, to);
    if start < from {
        assert(separator(name[from - 1]));
    } else if start > from {
        assert(separator(name[start - 1]));
    }
}

/// A component has `alias` for its common form where the number of those that do is not none.
proof fn lemma_component_times(name: Seq<char>, alias: Seq<char>, count: int)
    requires
        0 <= count <= name.len() + 1,
    ensures
        component_times(name, alias, count) > 0 <==> exists|from: int, to: int|
            to < count && #[trigger] component_alias(name, alias, from, to),
    decreases count,
{
    if count > 0 {
        lemma_component_times(name, alias, count - 1);
        let last = count - 1;
        if exists|from: int, to: int| to < count && #[trigger] component_alias(
            name,
            alias,
            from,
            to,
        ) {
            let (from, to) = choose|from: int, to: int|
                to < count && #[trigger] component_alias(name, alias, from, to);
            if to == last {
                lemma_component_from(name, from, to);
            } else {
                assert(to < count - 1 && component_alias(name, alias, from, to));
            }
        }
        if component_times(name, alias, count - 1) > 0 {
            let (from, to) = choose|from: int, to: int|
                to < count - 1 && #[trigger] component_alias(name, alias, from, to);
            assert(to < count && component_alias(name, alias, from, to));
        }
        if component_alias(name, alias, component_start(name, last), last) {
            assert(last < count && component_alias(
                name,
                alias,
                component_start(name, last),
                last,
            ));
        }
    }
}

/// Riders may know a station as `alias` where the number of times that they do is not none.
proof fn lemma_times_known(name: Seq<char>, alias: Seq<char>)
    ensures
        times_known(name, alias) > 0 <==> known_as(name, alias),
{
    lemma_component_times(name, alias, name.len() as int + 1);
    if exists|from: int, to: int| #[trigger] component_alias(name, alias, from, to) {
        let (from, to) = choose|from: int, to: int| #[trigger]
            component_alias(name, alias, from, to);
        assert(to < name.len() + 1 && component_alias(name, alias, from, to));
    }
}

/// The position of `name` in the table, if it is there.
pub fn find_alias(table: &Vec<StationAlias>, name: &String) -> (result: Option<usize>)
    ensures
        match result {
            Some(i) => i < table@.len() && table@[i as int].name@ == name@,
            None => forall|i: int|
                0 <= i < table@.len() ==> (#[trigger] table@[i]).name@ != name@,
        },
{
    for i in 0..table.len()
        invariant
            forall|j: int| 0 <= j < i ==> (#[trigger] table@[j]).name@ != name@,
    {
        if table[i].name == *name {
            return Some(i);
        }
    }
    None
}

/// Lists `station` once more under `name`.
fn add_alias(table: &mut Vec<StationAlias>, name: String, station: StationId)
    requires
        distinct_names(old(table)@),
        crate::names::plain_text(name@),
    ensures
        distinct_names(final(table)@),
        grown(old(table)@, final(table)@, station, |n: Seq<char>| once(n == name@)),
{
    let ghost before = table@;
    let ghost times = |n: Seq<char>| once(n == name@);
    match find_alias(table, &name) {
        Some(at) => {
            let entry = &mut table[at];
            entry.stations.push(station);
            proof {
                let after = table@;
                assert(after =~= before.update(at as int, after[at as int]));
                assert forall|i: int| 0 <= i < before.len() implies (#[trigger] after[i]).name@
                    == before[i].name@ && after[i].stations@ == before[i].stations@ + copies(
                    station,
                    times(before[i].name@),
                ) by {
                    if i < at {
                        assert(before[i].name@ != before[at as int].name@);
                    } else if i > at {
                        assert(before[at as int].name@ != before[i].name@);
                    }
                    assert(after[i].stations@ =~= before[i].stations@ + copies(
                        station,
                        times(before[i].name@),
                    ));
                }
                assert(after[at as int].name@ == name@);
                assert(grown(before, after, station, times));
            }
        },
        None => {
            let mut stations: Vec<StationId> = Vec::new();
            stations.push(station);
            table.push(StationAlias { name, stations });
            proof {
                let after = table@;
                let last = before.len() as int;
                assert(after[last].stations@ =~= copies(station, 1));
                assert(after[last].name@ == name@);
                assert forall|i: int| 0 <= i < before.len() implies (#[trigger] after[i]).name@
                    == before[i].name@ && after[i].stations@ == before[i].stations@ + copies(
                    station,
                    times(before[i].name@),
                ) by {
                    assert(after[i] == before[i]);
                    assert(before[i].stations@ =~= before[i].stations@ + copies(station, 0));
                }
                assert(grown(before, after, station, times));
            }
        },
    }
}

/// A part of a plain text is plain.
proof fn lemma_plain_part(text: Seq<char>, part: Seq<char>, rest: Seq<char>)
    requires
        crate::names::plain_text(text),
        text == part + rest,
    ensures
        crate::names::plain_text(part),
{
    assert forall|i: int| 0 <= i < part.len() implies (#[trigger] part[i]) == ' '
        || crate::names::plain_character(part[i]) by {
        assert(text[i] == part[i]);
    }
}

proof fn lemma_holmes_is_plain()
    ensures
        crate::names::plain_text("H E HOLMES"@),
        crate::names::plain_text("HAMILTON E HOLMES"@),
        "H E HOLMES"@ != "HAMILTON E HOLMES"@,
{
    reveal_strlit("H E HOLMES");
    reveal_strlit("HAMILTON E HOLMES");
    assert("H E HOLMES"@.len() == 10 && "HAMILTON E HOLMES"@.len() == 17);
}

/// Lists `station` under the name without a generic suffix, if it is not too short.
fn add_shortened(table: &mut Vec<StationAlias>, full: &str, suffix: &str, station: StationId)
    requires
        distinct_names(old(table)@),
        crate::names::plain_text(full@),
    ensures
        distinct_names(final(table)@),
        grown(
            old(table)@,
            final(table)@,
            station,
            |n: Seq<char>| once(shortened(full@, suffix@, n)),
        ),
{
    let ghost before = table@;
    let ghost times = |n: Seq<char>| once(shortened(full@, suffix@, n));
    if let Some(shorter) = without_suffix(full, suffix) {
        proof {
            lemma_plain_part(full@, shorter@, suffix@);
            assert forall|n: Seq<char>| full@ == #[trigger] (n + suffix@) implies n == shorter@ by {
                assert((n + suffix@).len() == n.len() + suffix@.len());
                assert(n.len() == shorter@.len());
                assert forall|i: int| 0 <= i < n.len() implies n[i] == shorter@[i] by {
                    assert((n + suffix@)[i] == (shorter@ + suffix@)[i]);
                }
                assert(n =~= shorter@);
            }
        }
        if shorter.as_str().unicode_len() >= 4 {
            let ghost one = |n: Seq<char>| once(n == shorter@);
            add_alias(table, shorter, station);
            proof {
                lemma_grown_same(before, table@, station, one, times);
            }
        } else {
            proof {
                lemma_not_grown(before, station, times);
            }
        }
    } else {
        proof {
            lemma_not_grown(before, station, times);
        }
    }
}

/// Lists `station` under the common form of a component of its name, if it is not too short.
fn add_component(
    table: &mut Vec<StationAlias>,
    name: &Vec<char>,
    from: usize,
    to: usize,
    station: StationId,
)
    requires
        distinct_names(old(table)@),
        component(name@, from as int, to as int),
    ensures
        distinct_names(final(table)@),
        grown(
            old(table)@,
            final(table)@,
            station,
            |n: Seq<char>| once(component_alias(name@, n, from as int, to as int)),
        ),
{
    let ghost before = table@;
    let ghost times = |n: Seq<char>| once(component_alias(name@, n, from as int, to as int));
    let part = text_of(name, from, to);
    let alias = normalize_station_name(part.as_str());
    proof {
        crate::names::station_name_is_plain(part@);
    }
    if alias.as_str().unicode_len() >= 4 {
        let ghost one = |n: Seq<char>| once(n == alias@);
        add_alias(table, alias, station);
        proof {
            lemma_grown_same(before, table@, station, one, times);
        }
    } else {
        proof {
            lemma_not_grown(before, station, times);
        }
    }
}

/// Lists `station` under every component of its name that is not too short.
fn add_components(table: &mut Vec<StationAlias>, name: &Vec<char>, station: StationId)
    requires
        distinct_names(old(table)@),
    ensures
        distinct_names(final(table)@),
        grown(
            old(table)@,
            final(table)@,
            station,
            |n: Seq<char>| component_times(name@, n, name@.len() as int + 1),
        ),
{
    let ghost before = table@;
    let mut from: usize = 0;
    proof {
        lemma_not_grown(before, station, |n: Seq<char>| component_times(name@, n, 0));
    }
    for to in 0..name.len()
        invariant
            from <= to,
            from == 0 || separator(name@[from - 1]),
            forall|k: int| from <= k < to ==> !separator(#[trigger] name@[k]),
            distinct_names(table@),
            grown(before, table@, station, |n: Seq<char>| component_times(name@, n, to as int)),
    {
        let ch = name[to];
        let ghost so_far = table@;
        let ghost one = |n: Seq<char>| component_times(name@, n, to as int);
        let ghost both = |n: Seq<char>| component_times(name@, n, to + 1);
        if ch == '/' || ch == '-' || ch == '&' {
            let ghost other = |n: Seq<char>|
                once(component_alias(name@, n, from as int, to as int));
            add_component(table, name, from, to, station);
            proof {
                lemma_component_from(name@, from as int, to as int);
                lemma_grown_twice(before, so_far, table@, station, one, other, both);
            }
            from = to + 1;
        } else {
            proof {
                lemma_grown_same(before, table@, station, one, both);
            }
        }
    }
    let ghost so_far = table@;
    let ghost end = name@.len() as int;
    let ghost one = |n: Seq<char>| component_times(name@, n, end);
    let ghost other = |n: Seq<char>| once(component_alias(name@, n, from as int, end));
    let ghost both = |n: Seq<char>| component_times(name@, n, name@.len() as int + 1);
    add_component(table, name, from, name.len(), station);
    proof {
        lemma_component_from(name@, from as int, end);
        lemma_grown_twice(before, so_far, table@, station, one, other, both);
    }
}

/// Lists `station` once more for every name by which riders may know it, each time at the end of
/// what is listed under that name.
pub fn add_stop_aliases(table: &mut Vec<StationAlias>, station: StationId, name: Option<&str>)
    requires
        distinct_names(old(table)@),
    ensures
        distinct_names(final(table)@),
        grown(old(table)@, final(table)@, station, times_listed(name)),
        forall|n: Seq<char>, s: StationId|
            #![trigger lists(final(table)@, n, s)]
            lists(final(table)@, n, s) <==> lists(old(table)@, n, s) || (s == station
                && name is Some && known_as(name->0@, n)),
        name is None ==> final(table)@ == old(table)@,
{
    let ghost start = table@;
    let ghost given = name;
    let name: &str = match name {
        Some(name) => name,
        None => {
            proof {
                lemma_not_grown(start, station, times_listed(given));
            }
            return;
        },
    };
    let normalized = normalize_station_name(name);
    let ghost full = normalized@;
    let ghost own = |n: Seq<char>| once(n == full && full.len() > 0);
    let ghost holmes = |n: Seq<char>| once(other_holmes(full, n));
    let ghost parts = |n: Seq<char>| component_times(name@, n, name@.len() as int + 1);
    let ghost center = |n: Seq<char>| once(shortened(full, " CENTER"@, n));
    let ghost park = |n: Seq<char>| once(shortened(full, " PARK"@, n));
    proof {
        crate::names::station_name_is_plain(name@);
        lemma_holmes_is_plain();
    }
    if !normalized.as_str().is_empty() {
        let own_name = normalized.clone();
        let ghost one = |n: Seq<char>| once(n == own_name@);
        add_alias(table, own_name, station);
        proof {
            lemma_grown_same(start, table@, station, one, own);
        }
    } else {
        proof {
            lemma_not_grown(start, station, own);
        }
    }
    let ghost with_name = table@;
    if same_text(normalized.as_str(), "H E HOLMES") {
        let ghost one = |n: Seq<char>| once(n == "HAMILTON E HOLMES"@);
        add_alias(table, "HAMILTON E HOLMES".to_owned(), station);
        proof {
            lemma_grown_same(with_name, table@, station, one, holmes);
        }
    } else if same_text(normalized.as_str(), "HAMILTON E HOLMES") {
        let ghost one = |n: Seq<char>| once(n == "H E HOLMES"@);
        add_alias(table, "H E HOLMES".to_owned(), station);
        proof {
            lemma_grown_same(with_name, table@, station, one, holmes);
        }
    } else {
        proof {
            lemma_not_grown(with_name, station, holmes);
        }
    }
    let ghost with_holmes = table@;
    let ghost two = |n: Seq<char>| (own(n) + holmes(n)) as nat;
    proof {
        lemma_grown_twice(start, with_name, with_holmes, station, own, holmes, two);
    }
    let chars = characters(name);
    add_components(table, &chars, station);
    let ghost with_parts = table@;
    let ghost three = |n: Seq<char>| (two(n) + parts(n)) as nat;
    proof {
        lemma_grown_twice(start, with_holmes, with_parts, station, two, parts, three);
    }
    add_shortened(table, normalized.as_str(), " CENTER", station);
    let ghost with_center = table@;
    let ghost four = |n: Seq<char>| (three(n) + center(n)) as nat;
    proof {
        lemma_grown_twice(start, with_parts, with_center, station, three, center, four);
    }
    add_shortened(table, normalized.as_str(), " PARK", station);
    proof {
        lemma_grown_twice(
            start,
            with_center,
            table@,
            station,
            four,
            park,
            times_listed(given),
        );
        assert forall|n: Seq<char>, s: StationId|
            #![trigger lists(table@, n, s)]
            lists(table@, n, s) <==> lists(start, n, s) || (s == station && known_as(
                name@,
                n,
            )) by {
            lemma_grown_lists(start, table@, station, times_listed(given), n, s);
            lemma_times_known(name@, n);
        }
    }
}

/// Sorts the stations under each name and drops repeats.
pub fn sort_stations(table: Vec<StationAlias>) -> (result: Vec<StationAlias>)
    requires
        distinct_names(table@),
        no_list_empty(table@),
    ensures
        alias_table(result@),
        result@.len() == table@.len(),
        forall|i: int|
            0 <= i < table@.len() ==> (#[trigger] result@[i]).name@ == table@[i].name@
                && result@[i].stations@.to_set() == table@[i].stations@.to_set(),
{
    let ghost all = table@;
    let mut result: Vec<StationAlias> = Vec::new();
    for entry in it: table
        invariant
            it.seq() == all,
            result@.len() == it.index(),
            forall|i: int|
                0 <= i < result@.len() ==> (#[trigger] result@[i]).name@ == all[i].name@
                    && result@[i].stations@.to_set() == all[i].stations@.to_set()
                    && crate::ordered::ascending(result@[i].stations@),
    {
        let name = entry.name;
        let stations = sort_distinct(entry.stations);
        result.push(StationAlias { name, stations });
    }
    proof {
        assert forall|i: int| 0 <= i < result@.len() implies (
        #[trigger] result@[i]).stations@.len() > 0 && crate::names::plain_text(
            result@[i].name@,
        ) by {
            assert(all[i].stations@.len() > 0);
            assert(all[i].stations@.to_set().contains(all[i].stations@[0]));
            assert(result@[i].stations@.contains(all[i].stations@[0]));
        }
        assert forall|i: int, j: int| 0 <= i < j < result@.len() implies (
        #[trigger] result@[i]).name@ != (#[trigger] result@[j]).name@ by {
            assert(all[i].name@ != all[j].name@);
        }
    }
    result
}

/// Tables with the same names and the same stations under each list the same.
pub proof fn sorted_lists_same(
    before: Seq<StationAlias>,
    after: Seq<StationAlias>,
    name: Seq<char>,
    station: StationId,
)
    requires
        after.len() == before.len(),
        forall|i: int|
            0 <= i < before.len() ==> (#[trigger] after[i]).name@ == before[i].name@
                && after[i].stations@.to_set() == before[i].stations@.to_set(),
    ensures
        lists(after, name, station) <==> lists(before, name, station),
{
    if lists(after, name, station) {
        let k = choose|k: int|
            0 <= k < after.len() && (#[trigger] after[k]).name@ == name
                && after[k].stations@.contains(station);
        assert(after[k].stations@.to_set().contains(station));
        assert(before[k].name@ == name);
    }
    if lists(before, name, station) {
        let k = choose|k: int|
            0 <= k < before.len() && (#[trigger] before[k]).name@ == name
                && before[k].stations@.contains(station);
        assert(before[k].stations@.to_set().contains(station));
        assert(after[k].name@ == name);
    }
}

/// Whether two common forms are long enough and one of them begins with the other.
pub open spec fn similar(name: Seq<char>, alias: Seq<char>) -> bool {
    &&& name.len() >= 5
    &&& alias.len() >= 5
    &&& name.is_prefix_of(alias) || alias.is_prefix_of(name)
}

/// The stations that a rider-facing name may stand for: those listed under its common form, or
/// where that form is not in the table those listed under a similar one.
pub open spec fn stations_named(table: Seq<StationAlias>, name: Seq<char>) -> Set<StationId> {
    let full = crate::names::station_name(name);
    if holds_name(table, full) {
        Set::new(|station: StationId| lists(table, full, station))
    } else {
        Set::new(
            |station: StationId|
                exists|alias: Seq<char>| #[trigger]
                    lists(table, alias, station) && similar(full, alias),
        )
    }
}

/// The stations that a rider-facing name may stand for, in ascending order.
pub fn resolve_station(table: &Vec<StationAlias>, name: &str) -> (result: Vec<StationId>)
    requires
        alias_table(table@),
    ensures
        crate::ordered::ascending(result@),
        result@.to_set() == stations_named(table@, name@),
{
    let normalized = normalize_station_name(name);
    let ghost full = normalized@;
    if let Some(at) = find_alias(table, &normalized) {
        let stations = table[at].stations.clone();
        proof {
            let i = at as int;
            assert(stations@ =~= table@[i].stations@);
            assert(holds_name(table@, full));
            assert forall|s: StationId| stations@.to_set().contains(s) <==> lists(
                table@,
                full,
                s,
            ) by {
                if lists(table@, full, s) {
                    let k = choose|k: int|
                        0 <= k < table@.len() && (#[trigger] table@[k]).name@ == full
                            && table@[k].stations@.contains(s);
                    assert(k == i);
                }
            }
            assert(stations@.to_set() =~= stations_named(table@, name@));
        }
        return stations;
    }
    let mut result: Vec<StationId> = Vec::new();
    proof {
        assert(!holds_name(table@, full));
    }
    let long_name = normalized.as_str().unicode_len() >= 5;
    for i in 0..table.len()
        invariant
            alias_table(table@),
            full == normalized@,
            long_name == (full.len() >= 5),
            crate::ordered::ascending(result@),
            forall|s: StationId| #[trigger]
                result@.to_set().contains(s) <==> exists|j: int|
                    0 <= j < i && (#[trigger] table@[j]).stations@.contains(s) && similar(
                        full,
                        table@[j].name@,
                    ),
    {
        let alias = &table[i];
        if alias.name.as_str().unicode_len() >= 5 && long_name && (has_prefix(
            alias.name.as_str(),
            normalized.as_str(),
        ) || has_prefix(normalized.as_str(), alias.name.as_str())) {
            let ghost before = result@;
            for k in 0..alias.stations.len()
                invariant
                    crate::ordered::ascending(result@),
                    forall|s: StationId| #[trigger]
                        result@.to_set().contains(s) <==> before.to_set().contains(s) || exists|
                            j: int,
                        |
                            0 <= j < k && alias.stations@[j] == s,
            {
                let ghost so_far = result@;
                insert_ascending(&mut result, alias.stations[k]);
                proof {
                    assert forall|s: StationId| #[trigger]
                        result@.to_set().contains(s) <==> before.to_set().contains(s) || exists|
                            j: int,
                        |
                            0 <= j < k + 1 && alias.stations@[j] == s by {
                        assert(result@.to_set().contains(s) <==> so_far.to_set().contains(s) || s
                            == alias.stations@[k as int]);
                    }
                }
            }
            proof {
                assert forall|s: StationId| #[trigger]
                    result@.to_set().contains(s) <==> exists|j: int|
                        0 <= j < i + 1 && (#[trigger] table@[j]).stations@.contains(s) && similar(
                            full,
                            table@[j].name@,
                        ) by {
                    if alias.stations@.contains(s) {
                        assert(table@[i as int].stations@.contains(s));
                    }
                    if result@.to_set().contains(s) && !before.to_set().contains(s) {
                        assert(table@[i as int].stations@.contains(s));
                    }
                }
            }
        } else {
            proof {
                assert(!similar(full, table@[i as int].name@));
            }
        }
    }
    proof {
        assert forall|s: StationId| result@.to_set().contains(s) <==> stations_named(
            table@,
            name@,
        ).contains(s) by {
            if result@.to_set().contains(s) {
                let j = choose|j: int|
                    0 <= j < table@.len() && (#[trigger] table@[j]).stations@.contains(s)
                        && similar(full, table@[j].name@);
                assert(lists(table@, table@[j].name@, s));
            }
            if stations_named(table@, name@).contains(s) {
                let alias = choose|alias: Seq<char>| #[trigger]
                    lists(table@, alias, s) && similar(full, alias);
                let j = choose|j: int|
                    0 <= j < table@.len() && (#[trigger] table@[j]).name@ == alias
                        && table@[j].stations@.contains(s);
                assert(table@[j].stations@.contains(s) && similar(full, table@[j].name@));
            }
        }
        assert(result@.to_set() =~= stations_named(table@, name@));
    }
    result
}

/// A name that the table holds stands for the stations listed under it and for no others.
pub proof fn held_name_resolves(table: Seq<StationAlias>, name: Seq<char>, i: int, station: StationId)
    requires
        distinct_names(table),
        0 <= i < table.len(),
        table[i].name@ == crate::names::station_name(name),
    ensures
        stations_named(table, name).contains(station) <==> table[i].stations@.contains(station),
{
    let full = crate::names::station_name(name);
    assert(holds_name(table, full));
    if lists(table, full, station) {
        let k = choose|k: int|
            0 <= k < table.len() && (#[trigger] table[k]).name@ == full
                && table[k].stations@.contains(station);
        assert(k == i);
    }
}

/// A name that the table does not hold stands for the stations listed under a name that begins
/// with it or that it begins with, where both have at least five characters, and for no others.
pub proof fn other_name_resolves(table: Seq<StationAlias>, name: Seq<char>, station: StationId)
    requires
        forall|i: int|
            0 <= i < table.len() ==> (#[trigger] table[i]).name@ != crate::names::station_name(
                name,
            ),
    ensures
        stations_named(table, name).contains(station) <==> exists|i: int|
            0 <= i < table.len() && (#[trigger] table[i]).stations@.contains(station) && ({
                let full = crate::names::station_name(name);
                let alias = table[i].name@;
                &&& full.len() >= 5 && alias.len() >= 5
                &&& if full.len() <= alias.len() {
                    alias.take(full.len() as int) == full
                } else {
                    full.take(alias.len() as int) == alias
                }
            }),
{
    let full = crate::names::station_name(name);
    assert(!holds_name(table, full));
    assert forall|alias: Seq<char>| #[trigger] similar(full, alias) <==> {
        &&& full.len() >= 5 && alias.len() >= 5
        &&& if full.len() <= alias.len() {
            alias.take(full.len() as int) == full
        } else {
            full.take(alias.len() as int) == alias
        }
    } by {
        if full.len() <= alias.len() {
            assert(alias.take(full.len() as int) == full <==> full =~= alias.subrange(
                0,
                full.len() as int,
            ));
            if full.len() == alias.len() && alias.is_prefix_of(full) {
                assert(alias =~= full);
            }
        } else {
            assert(full.take(alias.len() as int) == alias <==> alias =~= full.subrange(
                0,
                alias.len() as int,
            ));
        }
    }
    if stations_named(table, name).contains(station) {
        let alias = choose|alias: Seq<char>| #[trigger]
            lists(table, alias, station) && similar(full, alias);
        let i = choose|i: int|
            0 <= i < table.len() && (#[trigger] table[i]).name@ == alias
                && table[i].stations@.contains(station);
        assert(table[i].stations@.contains(station) && similar(full, table[i].name@));
    }
    if exists|i: int|
        0 <= i < table.len() && (#[trigger] table[i]).stations@.contains(station) && similar(
            full,
            table[i].name@,
        ) {
        let i = choose|i: int|
            0 <= i < table.len() && (#[trigger] table[i]).stations@.contains(station) && similar(
                full,
                table[i].name@,
            );
        assert(lists(table, table[i].name@, station));
    }
}

/// Riders may know a station by the common form of its name, of at least one character. Every
/// other name by which they may know it has at least four.
pub proof fn station_is_known_by_name(name: Seq<char>)
    ensures
        crate::names::station_name(name).len() > 0 ==> known_as(
            name,
            crate::names::station_name(name),
        ),
        forall|alias: Seq<char>| #[trigger]
            known_as(name, alias) ==> alias.len() >= 4 || alias.len() > 0 && alias
                == crate::names::station_name(name),
{
    reveal_strlit("H E HOLMES");
    reveal_strlit("HAMILTON E HOLMES");
    assert("H E HOLMES"@.len() == 10 && "HAMILTON E HOLMES"@.len() == 17);
}

/// Riders may know a station by each part of its name between slashes, hyphens and ampersands,
/// where the common form of the part has at least four characters.
pub proof fn station_is_known_by_parts(before: Seq<char>, part: Seq<char>, after: Seq<char>)
    requires
        before.len() == 0 || before.last() == '/' || before.last() == '-' || before.last() == '&',
        after.len() == 0 || after[0] == '/' || after[0] == '-' || after[0] == '&',
        forall|i: int|
            0 <= i < part.len() ==> (#[trigger] part[i]) != '/' && part[i] != '-' && part[i] != '&',
        crate::names::station_name(part).len() >= 4,
    ensures
        known_as(before + part + after, crate::names::station_name(part)),
{
    let name = before + part + after;
    let from = before.len() as int;
    let to = from + part.len();
    assert(name.subrange(from, to) =~= part);
    assert forall|k: int| from <= k < to implies !separator(#[trigger] name[k]) by {
        assert(name[k] == part[k - from]);
    }
    if from > 0 {
        assert(name[from - 1] == before.last());
    }
    if to < name.len() {
        assert(name[to] == after[0]);
    }
    assert(component_alias(name, crate::names::station_name(part), from, to));
}

/// Riders may leave out a last word "center" or "park" of the name of a station where at least
/// four characters remain, and may know Hamilton E. Holmes by either form of its name.
pub proof fn station_is_known_without_suffix(name: Seq<char>, alias: Seq<char>)
    ensures
        alias.len() >= 4 && crate::names::station_name(name) == alias + " CENTER"@ ==> known_as(
            name,
            alias,
        ),
        alias.len() >= 4 && crate::names::station_name(name) == alias + " PARK"@ ==> known_as(
            name,
            alias,
        ),
        crate::names::station_name(name) == "H E HOLMES"@ ==> known_as(
            name,
            "HAMILTON E HOLMES"@,
        ),
        crate::names::station_name(name) == "HAMILTON E HOLMES"@ ==> known_as(
            name,
            "H E HOLMES"@,
        ),
{
}

/// Whether a name is parted at slashes, hyphens and ampersands into `part` and what stands
/// before and after it.
pub open spec fn parted(
    name: Seq<char>,
    before: Seq<char>,
    part: Seq<char>,
    after: Seq<char>,
) -> bool {
    &&& name == before + part + after
    &&& before.len() == 0 || before.last() == '/' || before.last() == '-' || before.last() == '&'
    &&& after.len() == 0 || after[0] == '/' || after[0] == '-' || after[0] == '&'
    &&& forall|i: int|
        0 <= i < part.len() ==> (#[trigger] part[i]) != '/' && part[i] != '-' && part[i] != '&'
}

/// Riders know a station by no other name: one that is not the common form of its whole name,
/// of a part of it, of it without a generic last word, or the other form of Hamilton E. Holmes.
pub proof fn station_is_known_by_no_other_name(name: Seq<char>, alias: Seq<char>)
    requires
        known_as(name, alias),
        alias != crate::names::station_name(name),
        !(alias == "H E HOLMES"@ && crate::names::station_name(name) == "HAMILTON E HOLMES"@),
        !(alias == "HAMILTON E HOLMES"@ && crate::names::station_name(name) == "H E HOLMES"@),
        crate::names::station_name(name) != alias + " CENTER"@,
        crate::names::station_name(name) != alias + " PARK"@,
    ensures
        exists|before: Seq<char>, part: Seq<char>, after: Seq<char>| #[trigger]
            parted(name, before, part, after) && alias == crate::names::station_name(part),
        alias.len() >= 4,
{
    let (from, to) = choose|from: int, to: int| #[trigger] component_alias(name, alias, from, to);
    assert(component_alias(name, alias, from, to));
    let before = name.take(from);
    let part = name.subrange(from, to);
    let after = name.skip(to);
    assert(name =~= before + part + after);
    assert forall|i: int| 0 <= i < part.len() implies (#[trigger] part[i]) != '/' && part[i] != '-'
        && part[i] != '&' by {
        assert(part[i] == name[from + i]);
        assert(!separator(name[from + i]));
    }
    assert(parted(name, before, part, after));
}

/// A station is listed under a name where riders may know it so, and not at all where they do
/// not.
pub proof fn listed_where_known(name: Seq<char>, alias: Seq<char>)
    ensures
        times_known(name, alias) > 0 <==> known_as(name, alias),
{
    lemma_times_known(name, alias);
}

/// Whether a part of a name stands for a station under `alias`, counted as one or none.
pub open spec fn part_counts(part: Seq<char>, alias: Seq<char>) -> int {
    if crate::names::station_name(part) == alias && alias.len() >= 4 {
        1
    } else {
        0
    }
}

/// Whether a text holds no slash, hyphen or ampersand.
pub open spec fn unparted(text: Seq<char>) -> bool {
    forall|i: int|
        0 <= i < text.len() ==> (#[trigger] text[i]) != '/' && text[i] != '-' && text[i] != '&'
}

proof fn lemma_times_in_front(front: Seq<char>, name: Seq<char>, alias: Seq<char>, count: int)
    requires
        0 <= count <= front.len() + 1,
        front.len() < name.len(),
        name.take(front.len() as int) == front,
        separator(name[front.len() as int]),
    ensures
        component_times(name, alias, count) == component_times(front, alias, count),
    decreases count,
{
    if count > 0 {
        lemma_times_in_front(front, name, alias, count - 1);
        let to = count - 1;
        lemma_same_start(front, name, to);
        let from = component_start(front, to);
        lemma_component_start(front, to);
        assert(name.subrange(from, to) =~= front.subrange(from, to));
        assert forall|k: int| 0 <= k < front.len() implies #[trigger] front[k] == name[k] by {
            assert(name.take(front.len() as int)[k] == name[k]);
        }
        assert(component(front, from, to) <==> component(name, from, to)) by {
            if component(front, from, to) {
                assert forall|k: int| from <= k < to implies !separator(#[trigger] name[k]) by {
                    assert(front[k] == name[k]);
                }
            }
        }
    }
}

proof fn lemma_same_start(front: Seq<char>, name: Seq<char>, to: int)
    requires
        0 <= to <= front.len() < name.len(),
        name.take(front.len() as int) == front,
    ensures
        component_start(name, to) == component_start(front, to),
    decreases to,
{
    if to > 0 {
        assert(name.take(front.len() as int)[to - 1] == name[to - 1]);
        if !separator(name[to - 1]) {
            lemma_same_start(front, name, to - 1);
        }
    }
}

proof fn lemma_times_in_part(name: Seq<char>, alias: Seq<char>, from: int, count: int)
    requires
        0 <= from < count <= name.len() + 1,
        from == 0 || separator(name[from - 1]),
        forall|k: int| from <= k < name.len() ==> !separator(#[trigger] name[k]),
    ensures
        component_times(name, alias, count) == component_times(name, alias, from) + (if count
            == name.len() + 1 {
            part_counts(name.skip(from), alias)
        } else {
            0
        }),
    decreases count,
{
    let to = count - 1;
    if to > from {
        lemma_times_in_part(name, alias, from, count - 1);
    }
    if to < name.len() {
        assert(!separator(name[to]));
    } else {
        lemma_component_start(name, to);
        let start = component_start(name, to);
        if start > from {
            assert(separator(name[start - 1]));
        }
        assert(start == from);
        assert(name.subrange(from, to) =~= name.skip(from));
        assert(component(name, from, to));
    }
}

/// A name without a slash, hyphen or ampersand is counted as one part.
pub proof fn part_is_counted(part: Seq<char>, alias: Seq<char>)
    requires
        unparted(part),
    ensures
        component_times(part, alias, part.len() as int + 1) == part_counts(part, alias),
{
    assert(part.skip(0) =~= part);
    assert forall|k: int| 0 <= k < part.len() implies !separator(#[trigger] part[k]) by {}
    lemma_times_in_part(part, alias, 0, part.len() as int + 1);
    assert(component_times(part, alias, 0) == 0);
}

/// A name is counted once for each of its parts: a last part after a slash, hyphen or ampersand
/// adds itself to what stands before it.
pub proof fn parts_are_counted(front: Seq<char>, mark: char, part: Seq<char>, alias: Seq<char>)
    requires
        unparted(part),
        mark == '/' || mark == '-' || mark == '&',
    ensures
        component_times(front.push(mark) + part, alias, front.len() as int + part.len() + 2)
            == component_times(front, alias, front.len() as int + 1) + part_counts(part, alias),
{
    let name = front.push(mark) + part;
    let from = front.len() as int + 1;
    assert(name.len() == front.len() + 1 + part.len());
    assert(name[from - 1] == mark);
    assert(component_times(name, alias, from) == component_times(front, alias, from)) by {
        assert(name.take(front.len() as int) =~= front);
        lemma_times_in_front(front, name, alias, from);
    }
    assert(name.skip(from) == part) by {
        assert(name.skip(from) =~= part);
    }
    assert(component_times(name, alias, name.len() as int + 1) == component_times(
        name,
        alias,
        from,
    ) + part_counts(name.skip(from), alias)) by {
        assert forall|k: int| from <= k < name.len() implies !separator(#[trigger] name[k]) by {
            assert(name[k] == part[k - from]);
        }
        lemma_times_in_part(name, alias, from, name.len() as int + 1);
    }
}

/// A station is listed under a name once for its whole name, once for each part that has that
/// common form, and once for each generic last word that is left out.
pub proof fn listed_once_for_each_way(name: Seq<char>, alias: Seq<char>)
    ensures
        ({
            let full = crate::names::station_name(name);
            let parts = component_times(name, alias, name.len() as int + 1);
            let rest = times_known(name, alias) - parts;
            &&& full == alias && alias.len() > 0 ==> rest == 1
            &&& full == alias + " CENTER"@ && alias.len() >= 4 ==> rest == 1
            &&& full == alias + " PARK"@ && alias.len() >= 4 ==> rest == 1
            &&& full == "H E HOLMES"@ && alias == "HAMILTON E HOLMES"@ ==> rest == 1
            &&& full == "HAMILTON E HOLMES"@ && alias == "H E HOLMES"@ ==> rest == 1
            &&& full != alias && full != alias + " CENTER"@ && full != alias + " PARK"@ && full
                != "H E HOLMES"@ && full != "HAMILTON E HOLMES"@ ==> rest == 0
        }),
{
    reveal_strlit("H E HOLMES");
    reveal_strlit("HAMILTON E HOLMES");
    reveal_strlit(" CENTER");
    reveal_strlit(" PARK");
    let full = crate::names::station_name(name);
    assert(" CENTER"@.len() == 7 && " PARK"@.len() == 5);
    assert("H E HOLMES"@.len() == 10 && "HAMILTON E HOLMES"@.len() == 17);
    assert("H E HOLMES"@[9] == 'S' && "HAMILTON E HOLMES"@[16] == 'S');
    assert(" CENTER"@[6] == 'R' && " PARK"@[4] == 'K');
    let center = alias + " CENTER"@;
    let park = alias + " PARK"@;
    assert(center[center.len() - 1] == 'R');
    assert(park[park.len() - 1] == 'K');
    assert(center.len() == alias.len() + 7 && park.len() == alias.len() + 5);
}

} // verus!
