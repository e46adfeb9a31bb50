//! Facts about sequences.
use vstd::prelude::*;

verus! {

/// A sequence with a value added holds that value and what it held.
pub proof fn lemma_push_contains<T>(values: Seq<T>, added: T, value: T)
    ensures
        values.push(added).contains(value) <==> values.contains(value) || value == added,
{
    let grown = values.push(added);
    if values.contains(value) {
        let k = choose|k: int| 0 <= k < values.len() && values[k] == value;
        assert(grown[k] == value);
    }
    assert(grown[values.len() as int] == added);
    if grown.contains(value) && value != added {
        let k = choose|k: int| 0 <= k < grown.len() && grown[k] == value;
        assert(values[k] == value);
    }
}

/// A filter keeps what it should.
pub proof fn lemma_filter_keeps<T>(values: Seq<T>, keep: spec_fn(T) -> bool, value: T)
    requires
        values.contains(value),
        keep(value),
    ensures
        values.filter(keep).contains(value),
    decreases values.len(),
{
    reveal(Seq::filter);
    let shorter = values.drop_last();
    let rest = shorter.filter(keep);
    if values.last() == value {
        assert(values.filter(keep) == rest.push(value));
        lemma_push_contains(rest, value, value);
    } else {
        let k = choose|k: int| 0 <= k < values.len() && values[k] == value;
        assert(shorter[k] == value);
        lemma_filter_keeps(shorter, keep, value);
        if keep(values.last()) {
            lemma_push_contains(rest, values.last(), value);
        }
    }
}

/// What a filter keeps is of the sequence and should be kept.
pub proof fn lemma_filter_member<T>(values: Seq<T>, keep: spec_fn(T) -> bool, at: int)
    requires
        0 <= at < values.filter(keep).len(),
    ensures
        keep(values.filter(keep)[at]),
        values.contains(values.filter(keep)[at]),
    decreases values.len(),
{
    reveal(Seq::filter);
    if values.len() > 0 {
        let shorter = values.drop_last();
        let rest = shorter.filter(keep);
        if at < rest.len() {
            lemma_filter_member(shorter, keep, at);
            let value = rest[at];
            let k = choose|k: int| 0 <= k < shorter.len() && shorter[k] == value;
            assert(values[k] == value);
        } else {
            assert(values[values.len() - 1] == values.last());
        }
    }
}

/// A filter that should keep nothing keeps nothing.
pub proof fn lemma_filter_none<T>(values: Seq<T>, keep: spec_fn(T) -> bool)
    requires
        forall|i: int| 0 <= i < values.len() ==> !keep(#[trigger] values[i]),
    ensures
        values.filter(keep) == Seq::<T>::empty(),
    decreases values.len(),
{
    reveal(Seq::filter);
    if values.len() > 0 {
        assert(!keep(values[values.len() - 1]));
        assert forall|i: int| 0 <= i < values.drop_last().len() implies !keep(
            #[trigger] values.drop_last()[i],
        ) by {
            assert(values.drop_last()[i] == values[i]);
        }
        lemma_filter_none(values.drop_last(), keep);
    }
}

} // verus!
