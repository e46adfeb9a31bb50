//! Vectors in ascending order: of values that stand once, and of values sorted by a key.
use vstd::prelude::*;

verus! {

/// A type whose values are told apart and ordered by a number.
pub trait Ordinal: Sized + Copy {
    /// The number of a value.
    spec fn number(self) -> int;

    /// Whether this value comes before `other`.
    fn is_less(self, other: Self) -> (answer: bool)
        ensures
            answer == (self.number() < other.number()),
    ;

    /// Different values have different numbers.
    proof fn number_tells_apart(self, other: Self)
        ensures
            self.number() == other.number() ==> self == other,
    ;
}

impl Ordinal for u32 {
    open spec fn number(self) -> int {
        self as int
    }

    fn is_less(self, other: Self) -> (answer: bool) {
        self < other
    }

    proof fn number_tells_apart(self, other: Self) {
    }
}

impl Ordinal for i32 {
    open spec fn number(self) -> int {
        self as int
    }

    fn is_less(self, other: Self) -> (answer: bool) {
        self < other
    }

    proof fn number_tells_apart(self, other: Self) {
    }
}

/// Each value comes before the next.
pub open spec fn ascending<T: Ordinal>(values: Seq<T>) -> bool {
    forall|i: int, j: int|
        0 <= i < j < values.len() ==> (#[trigger] values[i]).number() < (
        #[trigger] values[j]).number()
}

/// Adds `value` unless it is there.
pub fn insert_ascending<T: Ordinal>(values: &mut Vec<T>, value: T)
    requires
        ascending(old(values)@),
    ensures
        ascending(final(values)@),
        final(values)@.to_set() == old(values)@.to_set().insert(value),
{
    let ghost before = values@;
    let mut at: usize = values.len();
    while at > 0 && value.is_less(values[at - 1])
        invariant
            values@ == before,
            at <= before.len(),
            ascending(before),
            forall|i: int|
                at <= i < before.len() ==> value.number() < (#[trigger] before[i]).number(),
        decreases at,
    {
        at -= 1;
    }
    if at > 0 && !values[at - 1].is_less(value) {
        proof {
            value.number_tells_apart(before[at - 1]);
            assert(before.to_set().contains(before[at - 1]));
            assert(before.to_set() =~= before.to_set().insert(value));
        }
        return;
    }
    values.insert(at, value);
    proof {
        let after = values@;
        assert(after == before.insert(at as int, value));
        assert forall|i: int, j: int| 0 <= i < j < after.len() implies (
        #[trigger] after[i]).number() < (#[trigger] after[j]).number() by {
            if i == at {
                assert(after[j] == before[j - 1]);
            } else if i < at && j > at {
                assert(after[i] == before[i]);
                assert(after[j] == before[j - 1]);
            } else if j == at {
                assert(after[i] == before[i]);
                if i < at - 1 {
                    assert(before[i].number() < before[at - 1].number());
                }
            } else if j < at {
                assert(after[i] == before[i] && after[j] == before[j]);
            } else {
                assert(after[i] == before[i - 1] && after[j] == before[j - 1]);
            }
        }
        assert forall|x: T| after.to_set().contains(x) <==> before.to_set().insert(
            value,
        ).contains(x) by {
            if after.contains(x) {
                let k = choose|k: int| 0 <= k < after.len() && after[k] == x;
                if k < at {
                    assert(before[k] == x);
                } else if k > at {
                    assert(before[k - 1] == x);
                }
            }
            if before.contains(x) {
                let k = choose|k: int| 0 <= k < before.len() && before[k] == x;
                if k < at {
                    assert(after[k] == x);
                } else {
                    assert(after[k + 1] == x);
                }
            }
            if x == value {
                assert(after[at as int] == x);
            }
        }
        assert(after.to_set() =~= before.to_set().insert(value));
    }
}

/// Two ascending vectors with the same values are the same.
pub proof fn ascending_is_unique<T: Ordinal>(left: Seq<T>, right: Seq<T>)
    requires
        ascending(left),
        ascending(right),
        left.to_set() == right.to_set(),
    ensures
        left == right,
    decreases left.len(),
{
    if left.len() == 0 {
        if right.len() > 0 {
            assert(right.to_set().contains(right[0]));
            assert(left.contains(right[0]));
        }
        assert(left =~= right);
    } else {
        assert(left.to_set().contains(left.last()));
        assert(right.contains(left.last()));
        let i = choose|i: int| 0 <= i < right.len() && right[i] == left.last();
        assert(right.to_set().contains(right.last()));
        assert(left.contains(right.last()));
        let j = choose|j: int| 0 <= j < left.len() && left[j] == right.last();
        if i < right.len() - 1 {
            assert(right[i].number() < right[right.len() - 1].number());
            if j < left.len() - 1 {
                assert(left[j].number() < left[left.len() - 1].number());
            }
            assert(false);
        }
        assert(right.last() == left.last());
        let l = left.drop_last();
        let r = right.drop_last();
        assert forall|x: T| l.to_set().contains(x) <==> r.to_set().contains(x) by {
            if l.contains(x) {
                let k = choose|k: int| 0 <= k < l.len() && l[k] == x;
                assert(left[k].number() < left[left.len() - 1].number());
                assert(left.to_set().contains(left[k]));
                assert(right.contains(x));
                let m = choose|m: int| 0 <= m < right.len() && right[m] == x;
                assert(r[m] == x);
            }
            if r.contains(x) {
                let k = choose|k: int| 0 <= k < r.len() && r[k] == x;
                assert(right[k].number() < right[right.len() - 1].number());
                assert(right.to_set().contains(right[k]));
                assert(left.contains(x));
                let m = choose|m: int| 0 <= m < left.len() && left[m] == x;
                assert(l[m] == x);
            }
        }
        assert(l.to_set() =~= r.to_set());
        assert forall|a: int, b: int| 0 <= a < b < l.len() implies (#[trigger] l[a]).number() < (
        #[trigger] l[b]).number() by {
            assert(left[a].number() < left[b].number());
        }
        assert forall|a: int, b: int| 0 <= a < b < r.len() implies (#[trigger] r[a]).number() < (
        #[trigger] r[b]).number() by {
            assert(right[a].number() < right[b].number());
        }
        ascending_is_unique(l, r);
        assert(left =~= l.push(left.last()));
        assert(right =~= r.push(right.last()));
    }
}

/// A type whose values are sorted by a key.
pub trait Keyed: Sized {
    /// The key of a value.
    spec fn sort_key(self) -> int;

    /// Computes the key.
    fn key(&self) -> (key: i64)
        ensures
            key == self.sort_key(),
    ;
}

/// The key of each value of a type.
pub open spec fn sort_keys<T: Keyed>() -> spec_fn(T) -> int {
    |value: T| value.sort_key()
}

/// `sorted` with `value` before the first value whose key is no less.
pub open spec fn key_inserted<T>(sorted: Seq<T>, value: T, key: spec_fn(T) -> int) -> Seq<T>
    decreases sorted.len(),
{
    if sorted.len() == 0 || key(value) <= key(sorted[0]) {
        seq![value] + sorted
    } else {
        seq![sorted[0]] + key_inserted(sorted.drop_first(), value, key)
    }
}

/// The values by ascending key; values with the same key keep their order.
pub open spec fn key_sorted<T>(values: Seq<T>, key: spec_fn(T) -> int) -> Seq<T>
    decreases values.len(),
{
    if values.len() == 0 {
        Seq::empty()
    } else {
        key_inserted(key_sorted(values.drop_first(), key), values[0], key)
    }
}

/// Keys do not fall.
pub open spec fn keys_ascend<T>(values: Seq<T>, key: spec_fn(T) -> int) -> bool {
    forall|i: int, j: int|
        0 <= i < j < values.len() ==> key(#[trigger] values[i]) <= key(#[trigger] values[j])
}

/// An insertion at the first position with a key that is no less.
proof fn lemma_insertion<T>(sorted: Seq<T>, value: T, key: spec_fn(T) -> int, at: int)
    requires
        0 <= at <= sorted.len(),
        forall|i: int| 0 <= i < at ==> key(#[trigger] sorted[i]) < key(value),
        at == sorted.len() || key(value) <= key(sorted[at]),
    ensures
        key_inserted(sorted, value, key) == sorted.insert(at, value),
    decreases at,
{
    if at == 0 {
        assert(seq![value] + sorted =~= sorted.insert(0, value));
    } else {
        let rest = sorted.drop_first();
        assert(key(sorted[0]) < key(value));
        assert forall|i: int| 0 <= i < at - 1 implies key(#[trigger] rest[i]) < key(value) by {
            assert(rest[i] == sorted[i + 1]);
        }
        lemma_insertion(rest, value, key, at - 1);
        assert(seq![sorted[0]] + rest.insert(at - 1, value) =~= sorted.insert(at, value));
    }
}

/// The values with one key.
pub open spec fn with_key<T>(key: spec_fn(T) -> int, of: int) -> spec_fn(T) -> bool {
    |value: T| key(value) == of
}

/// Whether the values with each key are the same, in the same order.
pub open spec fn same_by_key<T>(left: Seq<T>, right: Seq<T>, key: spec_fn(T) -> int) -> bool {
    forall|of: int| #[trigger] left.filter(with_key(key, of)) == right.filter(with_key(key, of))
}

/// Values in ascending order of their keys are settled by the values with each key.
proof fn lemma_sorted_unique<T>(left: Seq<T>, right: Seq<T>, key: spec_fn(T) -> int)
    requires
        keys_ascend(left, key),
        keys_ascend(right, key),
        same_by_key(left, right, key),
    ensures
        left == right,
    decreases left.len(),
{
    reveal(Seq::filter);
    if left.len() == 0 {
        if right.len() > 0 {
            let keep = with_key(key, key(right.last()));
            assert(left.filter(keep) == right.filter(keep));
        }
        assert(left =~= right);
    } else {
        let of = key(left.last());
        let keep = with_key(key, of);
        assert(left.filter(keep) == right.filter(keep));
        if right.len() == 0 {
            assert(right.filter(keep).len() == 0);
            assert(false);
        }
        lemma_last_key(left, right, key);
        lemma_last_key(right, left, key);
        let l = left.drop_last();
        let r = right.drop_last();
        assert(left.filter(keep) == l.filter(keep).push(left.last()));
        assert(right.filter(keep) == r.filter(keep).push(right.last()));
        assert(left.filter(keep).last() == left.last());
        assert(right.filter(keep).last() == right.last());
        assert forall|other: int| #[trigger] l.filter(with_key(key, other)) == r.filter(
            with_key(key, other),
        ) by {
            assert(left.filter(with_key(key, other)) == right.filter(with_key(key, other)));
            if other == of {
                assert(l.filter(keep) =~= left.filter(keep).drop_last());
                assert(r.filter(keep) =~= right.filter(keep).drop_last());
            }
        }
        assert forall|i: int, j: int| 0 <= i < j < l.len() implies key(#[trigger] l[i]) <= key(
            #[trigger] l[j],
        ) by {
            assert(key(left[i]) <= key(left[j]));
        }
        assert forall|i: int, j: int| 0 <= i < j < r.len() implies key(#[trigger] r[i]) <= key(
            #[trigger] r[j],
        ) by {
            assert(key(right[i]) <= key(right[j]));
        }
        lemma_sorted_unique(l, r, key);
        assert(left =~= l.push(left.last()));
        assert(right =~= r.push(right.last()));
    }
}

/// The last of ascending values has no smaller a key than the last of other values with the
/// same values for each key.
proof fn lemma_last_key<T>(left: Seq<T>, right: Seq<T>, key: spec_fn(T) -> int)
    requires
        keys_ascend(right, key),
        same_by_key(left, right, key),
        left.len() > 0,
    ensures
        right.len() > 0,
        key(left.last()) <= key(right.last()),
{
    reveal(Seq::filter);
    let keep = with_key(key, key(left.last()));
    assert(left.filter(keep) == right.filter(keep));
    assert(left.filter(keep).len() > 0);
    crate::sequences::lemma_filter_member(right, keep, 0);
    let value = right.filter(keep)[0];
    let i = choose|i: int| 0 <= i < right.len() && right[i] == value;
    if i < right.len() - 1 {
        assert(key(right[i]) <= key(right[right.len() - 1]));
    }
}

/// Turns the order of values round.
fn reversed<T>(values: Vec<T>) -> (result: Vec<T>)
    ensures
        result@ == values@.reverse(),
{
    let ghost all = values@;
    let mut rest: Vec<T> = values;
    let mut result: Vec<T> = Vec::new();
    while rest.len() > 0
        invariant
            rest@.len() + result@.len() == all.len(),
            rest@ == all.take(rest@.len() as int),
            forall|i: int| 0 <= i < result@.len() ==> #[trigger] result@[i] == all.reverse()[i],
        decreases rest@.len(),
    {
        if let Some(value) = rest.pop() {
            result.push(value);
        }
    }
    result
}

/// What is left to merge and what is merged, with one key.
spec fn merging<T>(
    left: Seq<T>,
    right: Seq<T>,
    merged: Seq<T>,
    key: spec_fn(T) -> int,
    of: int,
) -> Seq<T> {
    left.filter(with_key(key, of)) + right.filter(with_key(key, of)) + merged.filter(
        with_key(key, of),
    )
}

proof fn lemma_take_right<T>(
    left: Seq<T>,
    right: Seq<T>,
    merged: Seq<T>,
    key: spec_fn(T) -> int,
    of: int,
)
    requires
        right.len() > 0,
    ensures
        merging(left, right.drop_last(), seq![right.last()] + merged, key, of) == merging(
            left,
            right,
            merged,
            key,
            of,
        ),
{
    let keep = with_key(key, of);
    let one = seq![right.last()];
    Seq::filter_distributes_over_add(one, merged, keep);
    Seq::filter_distributes_over_add(right.drop_last(), one, keep);
    assert(right.drop_last() + one =~= right);
    assert(merging(left, right.drop_last(), one + merged, key, of) =~= merging(
        left,
        right,
        merged,
        key,
        of,
    ));
}

proof fn lemma_take_left<T>(
    left: Seq<T>,
    right: Seq<T>,
    merged: Seq<T>,
    key: spec_fn(T) -> int,
    of: int,
)
    requires
        left.len() > 0,
        forall|i: int| 0 <= i < right.len() ==> key(#[trigger] right[i]) < key(left.last()),
    ensures
        merging(left.drop_last(), right, seq![left.last()] + merged, key, of) == merging(
            left,
            right,
            merged,
            key,
            of,
        ),
{
    let keep = with_key(key, of);
    let one = seq![left.last()];
    Seq::filter_distributes_over_add(one, merged, keep);
    Seq::filter_distributes_over_add(left.drop_last(), one, keep);
    assert(left.drop_last() + one =~= left);
    if key(left.last()) == of {
        crate::sequences::lemma_filter_none(right, keep);
    } else {
        crate::sequences::lemma_filter_none(one, keep);
    }
    assert(merging(left.drop_last(), right, one + merged, key, of) =~= merging(
        left,
        right,
        merged,
        key,
        of,
    ));
}

/// No value of `merged` has a smaller key than one of `values`.
spec fn comes_after<T>(merged: Seq<T>, values: Seq<T>, key: spec_fn(T) -> int) -> bool {
    forall|i: int, j: int|
        0 <= i < values.len() && 0 <= j < merged.len() ==> key(#[trigger] values[i]) <= key(
            #[trigger] merged[j],
        )
}

/// A value whose key is no larger can come first.
proof fn lemma_merge_first<T>(
    value: T,
    merged: Seq<T>,
    left: Seq<T>,
    right: Seq<T>,
    key: spec_fn(T) -> int,
)
    requires
        keys_ascend(merged, key),
        comes_after(merged, left, key),
        comes_after(merged, right, key),
        forall|j: int| 0 <= j < merged.len() ==> key(value) <= key(#[trigger] merged[j]),
        forall|i: int| 0 <= i < left.len() ==> key(#[trigger] left[i]) <= key(value),
        forall|i: int| 0 <= i < right.len() ==> key(#[trigger] right[i]) <= key(value),
    ensures
        keys_ascend(seq![value] + merged, key),
        comes_after(seq![value] + merged, left, key),
        comes_after(seq![value] + merged, right, key),
{
    let all = seq![value] + merged;
    assert forall|j: int| 0 < j < all.len() implies #[trigger] all[j] == merged[j - 1] by {}
}

/// Merges values in ascending order of their keys; of values with the same key those of `left`
/// come first.
fn merge<T: Keyed>(left: Vec<T>, right: Vec<T>) -> (result: Vec<T>)
    requires
        keys_ascend(left@, sort_keys::<T>()),
        keys_ascend(right@, sort_keys::<T>()),
    ensures
        keys_ascend(result@, sort_keys::<T>()),
        forall|of: int| #[trigger]
            result@.filter(with_key(sort_keys::<T>(), of)) == left@.filter(
                with_key(sort_keys::<T>(), of),
            ) + right@.filter(with_key(sort_keys::<T>(), of)),
{
    let ghost key = sort_keys::<T>();
    let ghost all_left = left@;
    let ghost all_right = right@;
    let ghost mut merged = Seq::<T>::empty();
    let mut left: Vec<T> = left;
    let mut right: Vec<T> = right;
    let mut backwards: Vec<T> = Vec::new();
    proof {
        assert(backwards@.reverse() =~= merged);
    }
    while left.len() > 0 || right.len() > 0
        invariant
            key == sort_keys::<T>(),
            keys_ascend(left@, key),
            keys_ascend(right@, key),
            merged == backwards@.reverse(),
            keys_ascend(merged, key),
            comes_after(merged, left@, key),
            comes_after(merged, right@, key),
            forall|of: int| #[trigger]
                merging(left@, right@, merged, key, of) == merging(
                    all_left,
                    all_right,
                    Seq::<T>::empty(),
                    key,
                    of,
                ),
        decreases left@.len() + right@.len(),
    {
        let ghost old_left = left@;
        let ghost old_right = right@;
        let ghost old_merged = merged;
        let take_left = if left.len() == 0 {
            false
        } else if right.len() == 0 {
            true
        } else {
            left[left.len() - 1].key() > right[right.len() - 1].key()
        };
        let taken = if take_left {
            left.pop()
        } else {
            right.pop()
        };
        if let Some(value) = taken {
            proof {
                merged = seq![value] + merged;
                if take_left {
                    assert(left@ =~= old_left.drop_last());
                    assert(value == old_left.last());
                    assert forall|i: int| 0 <= i < old_right.len() implies key(
                        #[trigger] old_right[i],
                    ) < key(value) by {
                        if i < old_right.len() - 1 {
                            assert(key(old_right[i]) <= key(old_right[old_right.len() - 1]));
                        }
                    }
                    assert forall|i: int| 0 <= i < left@.len() implies key(#[trigger] left@[i])
                        <= key(value) by {
                        assert(key(old_left[i]) <= key(old_left[old_left.len() - 1]));
                    }
                    assert forall|j: int| 0 <= j < old_merged.len() implies key(value) <= key(
                        #[trigger] old_merged[j],
                    ) by {
                        assert(key(old_left[old_left.len() - 1]) <= key(old_merged[j]));
                    }
                } else {
                    assert(right@ =~= old_right.drop_last());
                    assert(value == old_right.last());
                    assert forall|i: int| 0 <= i < old_left.len() implies key(
                        #[trigger] old_left[i],
                    ) <= key(value) by {
                        if i < old_left.len() - 1 {
                            assert(key(old_left[i]) <= key(old_left[old_left.len() - 1]));
                        }
                    }
                    assert forall|i: int| 0 <= i < right@.len() implies key(#[trigger] right@[i])
                        <= key(value) by {
                        assert(key(old_right[i]) <= key(old_right[old_right.len() - 1]));
                    }
                    assert forall|j: int| 0 <= j < old_merged.len() implies key(value) <= key(
                        #[trigger] old_merged[j],
                    ) by {
                        assert(key(old_right[old_right.len() - 1]) <= key(old_merged[j]));
                    }
                }
                assert(comes_after(old_merged, left@, key)) by {
                    assert forall|i: int, j: int|
                        0 <= i < left@.len() && 0 <= j < old_merged.len() implies key(
                        #[trigger] left@[i],
                    ) <= key(#[trigger] old_merged[j]) by {
                        assert(left@[i] == old_left[i]);
                    }
                }
                assert(comes_after(old_merged, right@, key)) by {
                    assert forall|i: int, j: int|
                        0 <= i < right@.len() && 0 <= j < old_merged.len() implies key(
                        #[trigger] right@[i],
                    ) <= key(#[trigger] old_merged[j]) by {
                        assert(right@[i] == old_right[i]);
                    }
                }
                lemma_merge_first(value, old_merged, left@, right@, key);
                assert forall|of: int| #[trigger]
                    merging(left@, right@, merged, key, of) == merging(
                    all_left,
                    all_right,
                    Seq::<T>::empty(),
                    key,
                    of,
                ) by {
                    assert(merging(old_left, old_right, old_merged, key, of) == merging(
                        all_left,
                        all_right,
                        Seq::<T>::empty(),
                        key,
                        of,
                    ));
                    if take_left {
                        lemma_take_left(old_left, old_right, old_merged, key, of);
                    } else {
                        lemma_take_right(old_left, old_right, old_merged, key, of);
                    }
                }
                assert forall|i: int, j: int| 0 <= i < j < left@.len() implies key(
                    #[trigger] left@[i],
                ) <= key(#[trigger] left@[j]) by {
                    assert(left@[i] == old_left[i] && left@[j] == old_left[j]);
                }
                assert forall|i: int, j: int| 0 <= i < j < right@.len() implies key(
                    #[trigger] right@[i],
                ) <= key(#[trigger] right@[j]) by {
                    assert(right@[i] == old_right[i] && right@[j] == old_right[j]);
                }
            }
            backwards.push(value);
            proof {
                assert(backwards@.reverse() =~= merged);
            }
        }
    }
    proof {
        reveal(Seq::filter);
        assert(left@ =~= Seq::<T>::empty());
        assert(right@ =~= Seq::<T>::empty());
        assert forall|of: int| #[trigger]
            merged.filter(with_key(key, of)) == all_left.filter(with_key(key, of))
                + all_right.filter(with_key(key, of)) by {
            let keep = with_key(key, of);
            assert(merging(left@, right@, merged, key, of) == merging(
                all_left,
                all_right,
                Seq::<T>::empty(),
                key,
                of,
            ));
            assert(Seq::<T>::empty().filter(keep) =~= Seq::<T>::empty());
            assert(merging(left@, right@, merged, key, of) =~= merged.filter(keep));
            assert(merging(all_left, all_right, Seq::<T>::empty(), key, of) =~= all_left.filter(
                keep,
            ) + all_right.filter(keep));
        }
    }
    reversed(backwards)
}

/// Sorts by ascending key; values with the same key keep their order.
pub fn sort_by_key<T: Keyed>(values: Vec<T>) -> (result: Vec<T>)
    ensures
        result@ == key_sorted(values@, sort_keys::<T>()),
    decreases values@.len(),
{
    let ghost all = values@;
    let ghost key = sort_keys::<T>();
    if values.len() < 2 {
        proof {
            reveal_with_fuel(key_sorted, 3);
            assert(all =~= key_sorted(all, key));
        }
        return values;
    }
    let mut left: Vec<T> = values;
    let middle: usize = left.len() / 2;
    let right: Vec<T> = left.split_off(middle);
    let ghost first = left@;
    let ghost second = right@;
    let left = sort_by_key(left);
    let right = sort_by_key(right);
    proof {
        sorting_orders(first, key);
        sorting_orders(second, key);
        assert(first + second =~= all);
    }
    let result = merge(left, right);
    proof {
        sorting_orders(all, key);
        assert forall|of: int| #[trigger]
            result@.filter(with_key(key, of)) == key_sorted(all, key).filter(
                with_key(key, of),
            ) by {
            sorting_is_stable(first, key, of);
            sorting_is_stable(second, key, of);
            sorting_is_stable(all, key, of);
            Seq::filter_distributes_over_add(first, second, with_key(key, of));
        }
        lemma_sorted_unique(result@, key_sorted(all, key), key);
    }
    result
}

proof fn lemma_key_inserted<T>(sorted: Seq<T>, value: T, key: spec_fn(T) -> int)
    requires
        keys_ascend(sorted, key),
    ensures
        keys_ascend(key_inserted(sorted, value, key), key),
        key_inserted(sorted, value, key).to_multiset() == sorted.to_multiset().insert(value),
        key_inserted(sorted, value, key).len() == sorted.len() + 1,
    decreases sorted.len(),
{
    let at = first_not_less(sorted, key(value), key);
    lemma_first_not_less(sorted, key(value), key);
    lemma_insertion(sorted, value, key, at);
    let result = sorted.insert(at, value);
    vstd::seq_lib::to_multiset_insert(sorted, at, value);
    assert forall|i: int, j: int| 0 <= i < j < result.len() implies key(#[trigger] result[i])
        <= key(#[trigger] result[j]) by {
        if j < at {
            assert(result[i] == sorted[i] && result[j] == sorted[j]);
        } else if j == at {
            assert(result[i] == sorted[i]);
        } else if i == at {
            assert(result[j] == sorted[j - 1]);
            if j - 1 > at {
                assert(key(sorted[at]) <= key(sorted[j - 1]));
            }
        } else if i < at {
            assert(result[i] == sorted[i] && result[j] == sorted[j - 1]);
        } else {
            assert(result[i] == sorted[i - 1] && result[j] == sorted[j - 1]);
        }
    }
}

spec fn first_not_less<T>(sorted: Seq<T>, limit: int, key: spec_fn(T) -> int) -> int
    decreases sorted.len(),
{
    if sorted.len() == 0 || limit <= key(sorted[0]) {
        0
    } else {
        1 + first_not_less(sorted.drop_first(), limit, key)
    }
}

proof fn lemma_first_not_less<T>(sorted: Seq<T>, limit: int, key: spec_fn(T) -> int)
    ensures
        0 <= first_not_less(sorted, limit, key) <= sorted.len(),
        forall|i: int|
            0 <= i < first_not_less(sorted, limit, key) ==> key(#[trigger] sorted[i]) < limit,
        first_not_less(sorted, limit, key) == sorted.len() || limit <= key(
            sorted[first_not_less(sorted, limit, key)],
        ),
    decreases sorted.len(),
{
    if !(sorted.len() == 0 || limit <= key(sorted[0])) {
        let rest = sorted.drop_first();
        lemma_first_not_less(rest, limit, key);
        assert forall|i: int| 0 <= i < first_not_less(sorted, limit, key) implies key(
            #[trigger] sorted[i],
        ) < limit by {
            if i > 0 {
                assert(rest[i - 1] == sorted[i]);
            }
        }
    }
}

/// Sorting brings the keys into ascending order and neither adds nor loses a value.
pub proof fn sorting_orders<T>(values: Seq<T>, key: spec_fn(T) -> int)
    ensures
        keys_ascend(key_sorted(values, key), key),
        key_sorted(values, key).to_multiset() == values.to_multiset(),
        key_sorted(values, key).len() == values.len(),
    decreases values.len(),
{
    broadcast use vstd::seq_lib::group_to_multiset_ensures;

    if values.len() > 0 {
        sorting_orders(values.drop_first(), key);
        lemma_key_inserted(key_sorted(values.drop_first(), key), values[0], key);
        assert(values =~= values.drop_first().insert(0, values[0]));
        vstd::seq_lib::to_multiset_insert(values.drop_first(), 0, values[0]);
    }
}

/// Sorting keeps the order of the values with one key.
pub proof fn sorting_is_stable<T>(values: Seq<T>, key: spec_fn(T) -> int, of: int)
    ensures
        key_sorted(values, key).filter(with_key(key, of)) == values.filter(with_key(key, of)),
    decreases values.len(),
{
    let same = with_key(key, of);
    reveal(Seq::filter);
    if values.len() > 0 {
        let rest = values.drop_first();
        let sorted = key_sorted(rest, key);
        let value = values[0];
        sorting_is_stable(rest, key, of);
        sorting_orders(rest, key);
        let at = first_not_less(sorted, key(value), key);
        lemma_first_not_less(sorted, key(value), key);
        lemma_insertion(sorted, value, key, at);
        let before = sorted.take(at);
        let after = sorted.skip(at);
        let one = seq![value];
        assert(sorted.insert(at, value) =~= before + one + after);
        assert(sorted =~= before + after);
        assert(values =~= one + rest);
        Seq::filter_distributes_over_add(before + one, after, same);
        Seq::filter_distributes_over_add(before, one, same);
        Seq::filter_distributes_over_add(before, after, same);
        Seq::filter_distributes_over_add(one, rest, same);
        assert(one.drop_last() =~= Seq::<T>::empty());
        if same(value) {
            crate::sequences::lemma_filter_none(before, same);
            assert(before.filter(same) + one.filter(same) =~= one.filter(same) + before.filter(
                same,
            ));
            assert(one.filter(same) + before.filter(same) + after.filter(same) =~= one.filter(same)
                + (before.filter(same) + after.filter(same)));
        } else {
            crate::sequences::lemma_filter_none(one, same);
            assert(before.filter(same) + one.filter(same) =~= before.filter(same));
            assert(one.filter(same) + rest.filter(same) =~= rest.filter(same));
        }
    }
}

/// Sorting the images of values is sorting the values, where the images have the same keys.
pub proof fn sorting_images<T, U>(
    values: Seq<T>,
    key: spec_fn(T) -> int,
    image: spec_fn(T) -> U,
    image_key: spec_fn(U) -> int,
)
    requires
        forall|value: T| #[trigger] image_key(image(value)) == key(value),
    ensures
        key_sorted(values, key).map_values(image) == key_sorted(
            values.map_values(image),
            image_key,
        ),
    decreases values.len(),
{
    if values.len() > 0 {
        let rest = values.drop_first();
        sorting_images(rest, key, image, image_key);
        assert(values.map_values(image).drop_first() =~= rest.map_values(image));
        let sorted = key_sorted(rest, key);
        let at = first_not_less(sorted, key(values[0]), key);
        lemma_first_not_less(sorted, key(values[0]), key);
        lemma_insertion(sorted, values[0], key, at);
        let images = sorted.map_values(image);
        assert forall|i: int| 0 <= i < at implies image_key(#[trigger] images[i]) < image_key(
            image(values[0]),
        ) by {
            assert(images[i] == image(sorted[i]));
        }
        if at < sorted.len() {
            assert(images[at] == image(sorted[at]));
        }
        lemma_insertion(images, image(values[0]), image_key, at);
        assert(sorted.insert(at, values[0]).map_values(image) =~= images.insert(
            at,
            image(values[0]),
        ));
    } else {
        assert(key_sorted(values, key).map_values(image) =~= key_sorted(
            values.map_values(image),
            image_key,
        ));
    }
}

impl Keyed for u32 {
    open spec fn sort_key(self) -> int {
        self as int
    }

    fn key(&self) -> (key: i64) {
        *self as i64
    }
}

/// Sorts values and drops repeats.
pub fn sort_distinct(values: Vec<u32>) -> (result: Vec<u32>)
    ensures
        ascending(result@),
        result@.to_set() == values@.to_set(),
{
    broadcast use vstd::seq_lib::group_to_multiset_ensures;

    let ghost all = values@;
    let sorted = sort_by_key(values);
    let ghost key = sort_keys::<u32>();
    proof {
        sorting_orders(all, key);
        assert forall|value: u32| sorted@.contains(value) <==> all.contains(value) by {
            assert(sorted@.to_multiset().count(value) == all.to_multiset().count(value));
        }
    }
    let mut result: Vec<u32> = Vec::new();
    for i in 0..sorted.len()
        invariant
            key == sort_keys::<u32>(),
            keys_ascend(sorted@, key),
            ascending(result@),
            i == 0 ==> result@.len() == 0,
            i > 0 ==> result@.len() > 0 && result@.last() == sorted@[i - 1],
            forall|value: u32| #[trigger]
                result@.contains(value) <==> sorted@.take(i as int).contains(value),
    {
        let value = sorted[i];
        let ghost before = result@;
        proof {
            assert(sorted@.take(i + 1) =~= sorted@.take(i as int).push(value));
            if i > 0 {
                assert(key(sorted@[i - 1]) <= key(sorted@[i as int]));
            }
        }
        if result.len() == 0 || result[result.len() - 1] != value {
            result.push(value);
            proof {
                assert forall|a: int, b: int| 0 <= a < b < result@.len() implies (
                #[trigger] result@[a]).number() < (#[trigger] result@[b]).number() by {
                    if b == before.len() && a < before.len() - 1 {
                        assert(before[a].number() < before[before.len() - 1].number());
                    }
                }
                assert forall|other: u32| #[trigger]
                    result@.contains(other) <==> sorted@.take(i + 1).contains(other) by {
                    crate::sequences::lemma_push_contains(before, value, other);
                    crate::sequences::lemma_push_contains(sorted@.take(i as int), value, other);
                }
            }
        } else {
            proof {
                assert forall|other: u32| #[trigger]
                    result@.contains(other) <==> sorted@.take(i + 1).contains(other) by {
                    crate::sequences::lemma_push_contains(sorted@.take(i as int), value, other);
                    assert(result@[result@.len() - 1] == value);
                }
            }
        }
    }
    proof {
        assert(sorted@.take(sorted@.len() as int) =~= sorted@);
        assert(result@.to_set() =~= all.to_set());
    }
    result
}

/// Values that come in ascending rank are sorted by their keys and, where these are equal, by
/// their ranks.
pub proof fn sorting_keeps_ranks<T>(
    values: Seq<T>,
    key: spec_fn(T) -> int,
    rank: spec_fn(T) -> int,
)
    requires
        forall|i: int, j: int|
            0 <= i < j < values.len() ==> rank(#[trigger] values[i]) < rank(#[trigger] values[j]),
    ensures
        forall|i: int, j: int|
            #![trigger key_sorted(values, key)[i], key_sorted(values, key)[j]]
            0 <= i < j < key_sorted(values, key).len() ==> key(key_sorted(values, key)[i]) < key(
                key_sorted(values, key)[j],
            ) || key(key_sorted(values, key)[i]) == key(key_sorted(values, key)[j]) && rank(
                key_sorted(values, key)[i],
            ) < rank(key_sorted(values, key)[j]),
    decreases values.len(),
{
    broadcast use vstd::seq_lib::group_to_multiset_ensures;

    if values.len() > 0 {
        let rest = values.drop_first();
        let sorted = key_sorted(rest, key);
        let value = values[0];
        let result = key_sorted(values, key);
        assert forall|i: int, j: int| 0 <= i < j < rest.len() implies rank(#[trigger] rest[i])
            < rank(#[trigger] rest[j]) by {
            assert(rank(values[i + 1]) < rank(values[j + 1]));
        }
        sorting_keeps_ranks(rest, key, rank);
        sorting_orders(rest, key);
        assert forall|i: int| 0 <= i < sorted.len() implies rank(value) < rank(
            #[trigger] sorted[i],
        ) by {
            assert(sorted.contains(sorted[i]));
            assert(sorted.to_multiset().count(sorted[i]) > 0);
            assert(rest.to_multiset().count(sorted[i]) > 0);
            let k = choose|k: int| 0 <= k < rest.len() && rest[k] == sorted[i];
            assert(rank(values[0]) < rank(values[k + 1]));
        }
        let at = first_not_less(sorted, key(value), key);
        lemma_first_not_less(sorted, key(value), key);
        lemma_insertion(sorted, value, key, at);
        assert(result == sorted.insert(at, value));
        assert forall|i: int, j: int|
            #![trigger result[i], result[j]]
            0 <= i < j < result.len() implies key(result[i]) < key(result[j]) || key(result[i])
            == key(result[j]) && rank(result[i]) < rank(result[j]) by {
            let from = if i < at {
                i
            } else {
                i - 1
            };
            let to = if j < at {
                j
            } else {
                j - 1
            };
            if i == at {
                assert(result[j] == sorted[to]);
                assert(key(sorted[at]) <= key(sorted[to]));
            } else if j == at {
                assert(result[i] == sorted[i]);
            } else {
                assert(result[i] == sorted[from] && result[j] == sorted[to]);
            }
        }
    }
}

} // verus!
