//! Gathering the rows of each train.
use vstd::prelude::*;

use crate::models::MartaTrainRow;
use crate::names::{normalize_line, normalize_station_name};
use crate::text::{trim, uppercase};

verus! {

/// What tells trains apart.
#[derive(Clone, Debug)]
pub struct TrainKey {
    pub train_id: String,
    pub line: String,
    pub direction: String,
    pub destination: String,
}

/// What a train key says.
pub struct TrainName {
    pub train_id: Seq<char>,
    pub line: Seq<char>,
    pub direction: Seq<char>,
    pub destination: Seq<char>,
}

impl View for TrainKey {
    type V = TrainName;

    open spec fn view(&self) -> TrainName {
        TrainName {
            train_id: self.train_id@,
            line: self.line@,
            direction: self.direction@,
            destination: self.destination@,
        }
    }
}

/// The train of a row.
pub open spec fn train_of(row: MartaTrainRow) -> TrainName {
    TrainName {
        train_id: crate::text::trimmed(row.train_id@),
        line: crate::names::line_name(row.line@),
        direction: crate::text::uppercased(crate::text::trimmed(row.direction@)),
        destination: crate::names::station_name(row.destination@),
    }
}

/// Reads the train of a row.
pub fn train_key(row: &MartaTrainRow) -> (key: TrainKey)
    ensures
        key@ == train_of(*row),
{
    TrainKey {
        train_id: trim(row.train_id.as_str()),
        line: normalize_line(row.line.as_str()),
        direction: uppercase(trim(row.direction.as_str()).as_str()),
        destination: normalize_station_name(row.destination.as_str()),
    }
}

/// The first of the groups with a train, or their number.
pub open spec fn group_of(groups: Seq<Seq<MartaTrainRow>>, train: TrainName) -> int
    decreases groups.len(),
{
    if groups.len() == 0 || train_of(groups[0][0]) == train {
        0
    } else {
        1 + group_of(groups.drop_first(), train)
    }
}

/// The groups with a row added to that of its train.
pub open spec fn with_row(groups: Seq<Seq<MartaTrainRow>>, row: MartaTrainRow) -> Seq<
    Seq<MartaTrainRow>,
> {
    let at = group_of(groups, train_of(row));
    if at < groups.len() {
        groups.update(at, groups[at].push(row))
    } else {
        groups.push(seq![row])
    }
}

/// The live rows of each train, in the order in which the trains come.
pub open spec fn live_groups(rows: Seq<MartaTrainRow>) -> Seq<Seq<MartaTrainRow>>
    decreases rows.len(),
{
    if rows.len() == 0 {
        Seq::empty()
    } else if crate::models::live(rows.last()) {
        with_row(live_groups(rows.drop_last()), rows.last())
    } else {
        live_groups(rows.drop_last())
    }
}

/// How many of the rows are not live.
pub open spec fn not_live(rows: Seq<MartaTrainRow>) -> int
    decreases rows.len(),
{
    if rows.len() == 0 {
        0
    } else if crate::models::live(rows.last()) {
        not_live(rows.drop_last())
    } else {
        not_live(rows.drop_last()) + 1
    }
}

/// The live rows of a train.
pub open spec fn rows_of(rows: Seq<MartaTrainRow>, train: TrainName) -> Seq<MartaTrainRow> {
    rows.filter(|row: MartaTrainRow| crate::models::live(row) && train_of(row) == train)
}

/// How many rows the groups hold.
pub open spec fn grouped_count(groups: Seq<Seq<MartaTrainRow>>) -> int
    decreases groups.len(),
{
    if groups.len() == 0 {
        0
    } else {
        grouped_count(groups.drop_last()) + groups.last().len()
    }
}

/// The rows that vectors of rows hold.
pub open spec fn row_groups(groups: Seq<Vec<MartaTrainRow>>) -> Seq<Seq<MartaTrainRow>> {
    groups.map_values(|group: Vec<MartaTrainRow>| group@)
}

proof fn lemma_group_of(groups: Seq<Seq<MartaTrainRow>>, train: TrainName, at: int)
    requires
        0 <= at <= groups.len(),
        forall|g: int| 0 <= g < at ==> train_of((#[trigger] groups[g])[0]) != train,
        at == groups.len() || train_of(groups[at][0]) == train,
    ensures
        group_of(groups, train) == at,
    decreases at,
{
    if at > 0 {
        assert(train_of(groups[0][0]) != train);
        let rest = groups.drop_first();
        assert forall|g: int| 0 <= g < at - 1 implies train_of((#[trigger] rest[g])[0])
            != train by {
            assert(rest[g] == groups[g + 1]);
        }
        lemma_group_of(rest, train, at - 1);
    }
}

/// Each group has rows, and the keys are those of the groups.
spec fn keys_fit(keys: Seq<TrainKey>, groups: Seq<Seq<MartaTrainRow>>) -> bool {
    &&& keys.len() == groups.len()
    &&& forall|g: int|
        0 <= g < groups.len() ==> (#[trigger] groups[g]).len() > 0 && keys[g]@ == train_of(
            groups[g][0],
        )
}

/// The position of a train among keys, or their number.
fn find_train(keys: &Vec<TrainKey>, key: &TrainKey) -> (at: usize)
    ensures
        at <= keys@.len(),
        forall|g: int| 0 <= g < at ==> (#[trigger] keys@[g])@ != key@,
        at < keys@.len() ==> keys@[at as int]@ == key@,
{
    let mut at: usize = 0;
    while at < keys.len()
        invariant
            at <= keys@.len(),
            forall|g: int| 0 <= g < at ==> (#[trigger] keys@[g])@ != key@,
        decreases keys@.len() - at,
    {
        let other = &keys[at];
        if other.train_id == key.train_id && other.line == key.line && other.direction
            == key.direction && other.destination == key.destination {
            return at;
        }
        at += 1;
    }
    at
}

/// Gathers the live rows of each train, and counts the other rows.
pub fn group_live_rows(rows: Vec<MartaTrainRow>) -> (result: (Vec<Vec<MartaTrainRow>>, usize))
    ensures
        row_groups(result.0@) == live_groups(rows@),
        result.1 == not_live(rows@),
{
    let ghost all = rows@;
    let count: usize = rows.len();
    let mut ignored: usize = 0;
    let mut keys: Vec<TrainKey> = Vec::new();
    let mut groups: Vec<Vec<MartaTrainRow>> = Vec::new();
    proof {
        assert(row_groups(groups@) =~= live_groups(all.take(0)));
    }
    for row in it: rows
        invariant
            it.seq() == all,
            all.len() == count,
            row_groups(groups@) == live_groups(all.take(it.index() as int)),
            keys_fit(keys@, row_groups(groups@)),
            ignored == not_live(all.take(it.index() as int)),
            ignored <= it.index(),
    {
        let ghost i = it.index() as int;
        proof {
            assert(row == all[i]);
            assert(all.take(i + 1).drop_last() =~= all.take(i));
            assert(all.take(i + 1).last() == row);
        }
        if !row.is_live() {
            ignored += 1;
        } else {
            let ghost before = row_groups(groups@);
            let key = train_key(&row);
            let at = find_train(&keys, &key);
            proof {
                assert forall|g: int| 0 <= g < at implies train_of((#[trigger] before[g])[0])
                    != key@ by {
                    assert(keys@[g]@ != key@);
                }
                if at < keys@.len() {
                    assert(before[at as int].len() > 0);
                }
                lemma_group_of(before, key@, at as int);
            }
            if at < groups.len() {
                let ghost old_group = groups@[at as int]@;
                groups[at].push(row);
                proof {
                    assert(row_groups(groups@) =~= before.update(at as int, old_group.push(row)));
                }
            } else {
                let mut group: Vec<MartaTrainRow> = Vec::new();
                group.push(row);
                keys.push(key);
                groups.push(group);
                proof {
                    assert(group@ =~= seq![row]);
                    assert(row_groups(groups@) =~= before.push(seq![row]));
                }
            }
        }
    }
    proof {
        assert(all.take(all.len() as int) =~= all);
    }
    (groups, ignored)
}

/// Each group holds the live rows of one train in their order, no two groups are of one train,
/// every train with a live row has a group, and no row is lost: what is not in a group is not
/// live.
pub proof fn groups_partition(rows: Seq<MartaTrainRow>)
    ensures
        forall|g: int|
            0 <= g < live_groups(rows).len() ==> (#[trigger] live_groups(rows)[g]).len() > 0
                && live_groups(rows)[g] == rows_of(rows, train_of(live_groups(rows)[g][0])),
        forall|g: int, h: int|
            0 <= g < h < live_groups(rows).len() ==> train_of((#[trigger] live_groups(rows)[g])[0])
                != train_of((#[trigger] live_groups(rows)[h])[0]),
        forall|i: int|
            0 <= i < rows.len() && crate::models::live(#[trigger] rows[i]) ==> group_of(
                live_groups(rows),
                train_of(rows[i]),
            ) < live_groups(rows).len(),
        grouped_count(live_groups(rows)) + not_live(rows) == rows.len(),
    decreases rows.len(),
{
    reveal(Seq::filter);
    let groups = live_groups(rows);
    if rows.len() > 0 {
        let before_rows = rows.drop_last();
        let row = rows.last();
        groups_partition(before_rows);
        let before = live_groups(before_rows);
        if crate::models::live(row) {
            let train = train_of(row);
            let at = group_of(before, train);
            lemma_group_found(before, train);
            lemma_no_group(before_rows, before, train);
            assert forall|g: int| 0 <= g < groups.len() implies (#[trigger] groups[g]).len() > 0
                && groups[g] == rows_of(rows, train_of(groups[g][0])) by {
                if at < before.len() {
                    assert(before[g].len() > 0 && before[g] == rows_of(
                        before_rows,
                        train_of(before[g][0]),
                    ));
                    assert(groups[g][0] == before[g][0]);
                    if g != at {
                        if g < at {
                            assert(train_of(before[g][0]) != train_of(before[at][0]));
                        } else {
                            assert(train_of(before[at][0]) != train_of(before[g][0]));
                        }
                    }
                } else if g < before.len() {
                    assert(before[g].len() > 0 && before[g] == rows_of(
                        before_rows,
                        train_of(before[g][0]),
                    ));
                    assert(train_of(before[g][0]) != train);
                } else {
                    assert(rows_of(before_rows, train).len() == 0);
                    assert(rows_of(rows, train) =~= seq![row]);
                }
            }
            assert forall|g: int, h: int| 0 <= g < h < groups.len() implies train_of(
                (#[trigger] groups[g])[0],
            ) != train_of((#[trigger] groups[h])[0]) by {
                assert(before[g].len() > 0);
                assert(groups[g][0] == before[g][0]);
                if h < before.len() {
                    assert(before[h].len() > 0);
                    assert(groups[h][0] == before[h][0]);
                    assert(train_of(before[g][0]) != train_of(before[h][0]));
                } else {
                    assert(train_of(before[g][0]) != train);
                }
            }
            assert forall|i: int| 0 <= i < rows.len() && crate::models::live(
                #[trigger] rows[i],
            ) implies group_of(groups, train_of(rows[i])) < groups.len() by {
                if i < before_rows.len() {
                    assert(before_rows[i] == rows[i]);
                    lemma_group_found(before, train_of(rows[i]));
                    let g = group_of(before, train_of(rows[i]));
                    assert(groups[g][0] == before[g][0]) by {
                        assert(before[g].len() > 0);
                    }
                    lemma_group_kept(groups, train_of(rows[i]), g);
                } else if at < before.len() {
                    assert(groups[at][0] == before[at][0]) by {
                        assert(before[at].len() > 0);
                    }
                    lemma_group_kept(groups, train, at);
                } else {
                    lemma_group_kept(groups, train, before.len() as int);
                }
            }
            if at < before.len() {
                lemma_count_update(before, at, row);
            } else {
                assert(groups.drop_last() =~= before);
            }
        } else {
            assert forall|g: int| 0 <= g < groups.len() implies (#[trigger] groups[g]).len() > 0
                && groups[g] == rows_of(rows, train_of(groups[g][0])) by {
                assert(before[g] == rows_of(before_rows, train_of(before[g][0])));
            }
            assert forall|i: int| 0 <= i < rows.len() && crate::models::live(
                #[trigger] rows[i],
            ) implies group_of(groups, train_of(rows[i])) < groups.len() by {
                assert(before_rows[i] == rows[i]);
            }
        }
    }
}

proof fn lemma_group_found(groups: Seq<Seq<MartaTrainRow>>, train: TrainName)
    ensures
        0 <= group_of(groups, train) <= groups.len(),
        group_of(groups, train) < groups.len() ==> train_of(groups[group_of(groups, train)][0])
            == train,
        forall|g: int|
            0 <= g < group_of(groups, train) ==> train_of((#[trigger] groups[g])[0]) != train,
    decreases groups.len(),
{
    if groups.len() > 0 && train_of(groups[0][0]) != train {
        let rest = groups.drop_first();
        lemma_group_found(rest, train);
        assert forall|g: int| 0 <= g < group_of(groups, train) implies train_of(
            (#[trigger] groups[g])[0],
        ) != train by {
            if g > 0 {
                assert(rest[g - 1] == groups[g]);
            }
        }
    }
}

proof fn lemma_group_kept(groups: Seq<Seq<MartaTrainRow>>, train: TrainName, at: int)
    requires
        0 <= at < groups.len(),
        train_of(groups[at][0]) == train,
    ensures
        group_of(groups, train) < groups.len(),
{
    lemma_group_found(groups, train);
}

/// A train without a group has no live row.
proof fn lemma_no_group(
    rows: Seq<MartaTrainRow>,
    groups: Seq<Seq<MartaTrainRow>>,
    train: TrainName,
)
    requires
        forall|i: int|
            0 <= i < rows.len() && crate::models::live(#[trigger] rows[i]) ==> group_of(
                groups,
                train_of(rows[i]),
            ) < groups.len(),
    ensures
        group_of(groups, train) >= groups.len() ==> rows_of(rows, train).len() == 0,
    decreases rows.len(),
{
    reveal(Seq::filter);
    if rows.len() > 0 {
        let shorter = rows.drop_last();
        assert forall|i: int| 0 <= i < shorter.len() && crate::models::live(
            #[trigger] shorter[i],
        ) implies group_of(groups, train_of(shorter[i])) < groups.len() by {
            assert(shorter[i] == rows[i]);
        }
        lemma_no_group(shorter, groups, train);
        assert(rows[rows.len() - 1] == rows.last());
    }
}

proof fn lemma_count_update(groups: Seq<Seq<MartaTrainRow>>, at: int, row: MartaTrainRow)
    requires
        0 <= at < groups.len(),
    ensures
        grouped_count(groups.update(at, groups[at].push(row))) == grouped_count(groups) + 1,
    decreases groups.len(),
{
    let grown = groups.update(at, groups[at].push(row));
    if at == groups.len() - 1 {
        assert(grown.drop_last() =~= groups.drop_last());
    } else {
        lemma_count_update(groups.drop_last(), at, row);
        assert(grown.drop_last() =~= groups.drop_last().update(
            at,
            groups.drop_last()[at].push(row),
        ));
    }
}

/// Whether two rows are of one train: its id, its line and its direction are the same, white
/// space at the ends and in the last two the case of letters aside, and so is the common form of
/// its destination.
pub open spec fn one_train(row: MartaTrainRow, other: MartaTrainRow) -> bool {
    &&& crate::text::trimmed(row.train_id@) == crate::text::trimmed(other.train_id@)
    &&& crate::text::uppercased(crate::text::trimmed(row.line@)) == crate::text::uppercased(
        crate::text::trimmed(other.line@),
    )
    &&& crate::text::uppercased(crate::text::trimmed(row.direction@)) == crate::text::uppercased(
        crate::text::trimmed(other.direction@),
    )
    &&& crate::names::station_name(row.destination@) == crate::names::station_name(
        other.destination@,
    )
}

proof fn lemma_one_train(row: MartaTrainRow, other: MartaTrainRow)
    ensures
        one_train(row, other) <==> train_of(row) == train_of(other),
{
}

proof fn lemma_not_live(rows: Seq<MartaTrainRow>)
    ensures
        not_live(rows) == rows.filter(|row: MartaTrainRow| !crate::models::live(row)).len(),
    decreases rows.len(),
{
    reveal(Seq::filter);
    if rows.len() > 0 {
        lemma_not_live(rows.drop_last());
    }
}

/// Each group holds the live rows of one train in their order, rows of one train are in one
/// group, no live row is without a group, and the rows that are counted as ignored are those
/// that are not live.
pub proof fn one_group_for_each_train(rows: Seq<MartaTrainRow>)
    ensures
        forall|g: int|
            0 <= g < live_groups(rows).len() ==> (#[trigger] live_groups(rows)[g]).len() > 0
                && live_groups(rows)[g] == rows.filter(
                |row: MartaTrainRow|
                    crate::models::live(row) && one_train(row, live_groups(rows)[g][0]),
            ),
        forall|g: int, h: int|
            0 <= g < h < live_groups(rows).len() ==> !one_train(
                (#[trigger] live_groups(rows)[g])[0],
                (#[trigger] live_groups(rows)[h])[0],
            ),
        forall|i: int|
            0 <= i < rows.len() && crate::models::live(#[trigger] rows[i]) ==> exists|g: int|
                0 <= g < live_groups(rows).len() && (#[trigger] live_groups(rows)[g]).contains(
                    rows[i],
                ),
        not_live(rows) == rows.filter(|row: MartaTrainRow| !crate::models::live(row)).len(),
{
    groups_partition(rows);
    lemma_not_live(rows);
    let groups = live_groups(rows);
    assert forall|g: int| 0 <= g < groups.len() implies (#[trigger] groups[g]).len() > 0
        && groups[g] == rows.filter(
        |row: MartaTrainRow| crate::models::live(row) && one_train(row, groups[g][0]),
    ) by {
        let train = train_of(groups[g][0]);
        let of_train = |row: MartaTrainRow| crate::models::live(row) && train_of(row) == train;
        let alike = |row: MartaTrainRow| crate::models::live(row) && one_train(row, groups[g][0]);
        assert forall|row: MartaTrainRow| #[trigger] of_train(row) == alike(row) by {
            lemma_one_train(row, groups[g][0]);
        }
        assert(of_train =~= alike);
    }
    assert forall|g: int, h: int| 0 <= g < h < groups.len() implies !one_train(
        (#[trigger] groups[g])[0],
        (#[trigger] groups[h])[0],
    ) by {
        lemma_one_train(groups[g][0], groups[h][0]);
    }
    assert forall|i: int| 0 <= i < rows.len() && crate::models::live(
        #[trigger] rows[i],
    ) implies exists|g: int|
        0 <= g < groups.len() && (#[trigger] groups[g]).contains(rows[i]) by {
        let train = train_of(rows[i]);
        let g = group_of(groups, train);
        lemma_group_found(groups, train);
        let of_train = |row: MartaTrainRow| crate::models::live(row) && train_of(row) == train;
        assert(groups[g] == rows_of(rows, train));
        rows.lemma_filter_contains(of_train, i);
        assert(groups[g].contains(rows[i]));
    }
}

/// The groups come in the order in which their trains do: before any row of a train, the train
/// of each earlier group has one.
pub proof fn groups_follow_rows(rows: Seq<MartaTrainRow>, g: int, h: int, j: int)
    requires
        0 <= g < h < live_groups(rows).len(),
        0 <= j < rows.len(),
        crate::models::live(rows[j]),
        one_train(rows[j], live_groups(rows)[h][0]),
    ensures
        exists|i: int|
            0 <= i < j && crate::models::live(#[trigger] rows[i]) && one_train(
                rows[i],
                live_groups(rows)[g][0],
            ),
    decreases rows.len(),
{
    let shorter = rows.drop_last();
    let row = rows.last();
    let groups = live_groups(rows);
    let before = live_groups(shorter);
    groups_partition(rows);
    groups_partition(shorter);
    lemma_one_train(rows[j], groups[h][0]);
    let train = train_of(row);
    let at = group_of(before, train);
    lemma_group_found(before, train);
    assert(g < before.len());
    assert(before[g].len() > 0);
    assert(groups[g][0] == before[g][0]);
    if j < shorter.len() {
        assert(shorter[j] == rows[j]);
        let held = group_of(before, train_of(rows[j]));
        lemma_group_found(before, train_of(rows[j]));
        assert(before[held].len() > 0);
        assert(groups[held][0] == before[held][0]);
        if held < h {
            assert(train_of(groups[held][0]) != train_of(groups[h][0]));
        } else if h < held {
            assert(train_of(groups[h][0]) != train_of(groups[held][0]));
        }
        groups_follow_rows(shorter, g, h, j);
        let i = choose|i: int|
            0 <= i < j && crate::models::live(#[trigger] shorter[i]) && one_train(
                shorter[i],
                before[g][0],
            );
        assert(rows[i] == shorter[i]);
    } else {
        let first = train_of(before[g][0]);
        let of_first = |row: MartaTrainRow| crate::models::live(row) && train_of(row) == first;
        assert(before[g] == rows_of(shorter, first));
        shorter.lemma_filter_pred(of_first, 0);
        assert(shorter.filter(of_first).contains(before[g][0]));
        shorter.lemma_filter_contains_rev(of_first, before[g][0]);
        let i = choose|i: int| 0 <= i < shorter.len() && shorter[i] == before[g][0];
        lemma_one_train(shorter[i], groups[g][0]);
        assert(rows[i] == shorter[i]);
    }
}

} // verus!
