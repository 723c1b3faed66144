//! Folding a sequence into a state, one item after the other, until a step
//! fails.

use vstd::prelude::*;
use crate::error::ErrorKind;

verus! {

/// The state after every item of `items` has been taken in, in order; the
/// first failure of a step is the failure of the whole.
pub open spec fn try_fold<S, T>(
    state: S,
    items: Seq<T>,
    step: spec_fn(S, T) -> Result<S, ErrorKind>,
) -> Result<S, ErrorKind>
    decreases items.len(),
{
    if items.len() == 0 {
        Ok(state)
    } else {
        match try_fold(state, items.drop_last(), step) {
            Ok(before) => step(before, items.last()),
            Err(kind) => Err(kind),
        }
    }
}

/// Taking in one more item is one more step.
pub proof fn lemma_try_fold_next<S, T>(
    state: S,
    items: Seq<T>,
    step: spec_fn(S, T) -> Result<S, ErrorKind>,
    done: int,
)
    requires
        0 <= done < items.len(),
    ensures
        try_fold(state, items.take(done + 1), step) == (match try_fold(
            state,
            items.take(done),
            step,
        ) {
            Ok(before) => step(before, items[done]),
            Err(kind) => Err(kind),
        }),
{
    assert(items.take(done + 1).drop_last() =~= items.take(done));
    assert(items.take(done + 1).last() == items[done]);
}

/// A failure on the way is the failure of the whole.
pub proof fn lemma_try_fold_fault<S, T>(
    state: S,
    items: Seq<T>,
    step: spec_fn(S, T) -> Result<S, ErrorKind>,
    done: int,
)
    requires
        0 <= done <= items.len(),
        try_fold(state, items.take(done), step) is Err,
    ensures
        try_fold(state, items, step) == try_fold(state, items.take(done), step),
    decreases items.len(),
{
    if done < items.len() {
        assert(items.drop_last().take(done) =~= items.take(done));
        lemma_try_fold_fault(state, items.drop_last(), step, done);
    } else {
        assert(items.take(done) =~= items);
    }
}

/// Taking in all items is taking in the whole.
pub proof fn lemma_try_fold_all<S, T>(
    state: S,
    items: Seq<T>,
    step: spec_fn(S, T) -> Result<S, ErrorKind>,
)
    ensures
        try_fold(state, items.take(items.len() as int), step) == try_fold(state, items, step),
        try_fold(state, items.take(0), step) == Ok::<S, ErrorKind>(state),
{
    assert(items.take(items.len() as int) =~= items);
}

/// An item whose step leaves every state as it is can be left out.
pub proof fn lemma_try_fold_skip<S, T>(
    state: S,
    items: Seq<T>,
    step: spec_fn(S, T) -> Result<S, ErrorKind>,
    at: int,
)
    requires
        0 <= at < items.len(),
        forall|s: S| #[trigger] step(s, items[at]) == Ok::<S, ErrorKind>(s),
    ensures
        try_fold(state, items, step) == try_fold(state, items.remove(at), step),
    decreases items.len(),
{
    let fewer = items.remove(at);
    if at == items.len() - 1 {
        assert(fewer =~= items.drop_last());
    } else {
        assert(items.drop_last().remove(at) =~= fewer.drop_last());
        assert(fewer.last() == items.last());
        assert(items.drop_last()[at] == items[at]);
        lemma_try_fold_skip(state, items.drop_last(), step, at);
    }
}

/// Taking in one sequence and then another is taking in the two joined.
pub proof fn lemma_try_fold_concat<S, T>(
    state: S,
    first: Seq<T>,
    second: Seq<T>,
    step: spec_fn(S, T) -> Result<S, ErrorKind>,
)
    ensures
        try_fold(state, first + second, step) == (match try_fold(state, first, step) {
            Ok(between) => try_fold(between, second, step),
            Err(kind) => Err(kind),
        }),
    decreases second.len(),
{
    if second.len() == 0 {
        assert(first + second =~= first);
    } else {
        assert((first + second).drop_last() =~= first + second.drop_last());
        assert((first + second).last() == second.last());
        lemma_try_fold_concat(state, first, second.drop_last(), step);
    }
}

/// What holds of the first state and is kept by every step that succeeds
/// holds of the last state.
pub proof fn lemma_try_fold_keeps<S, T>(
    state: S,
    items: Seq<T>,
    step: spec_fn(S, T) -> Result<S, ErrorKind>,
    kept: spec_fn(S) -> bool,
)
    requires
        kept(state),
        forall|s: S, i: int|
            0 <= i < items.len() && kept(s) && (#[trigger] step(s, items[i])) is Ok ==> kept(
                step(s, items[i])->Ok_0,
            ),
    ensures
        try_fold(state, items, step) matches Ok(last) ==> kept(last),
    decreases items.len(),
{
    if items.len() > 0 {
        let rest = items.drop_last();
        assert forall|s: S, i: int|
            0 <= i < rest.len() && kept(s) && (#[trigger] step(s, rest[i])) is Ok implies kept(
            step(s, rest[i])->Ok_0,
        ) by {
            assert(rest[i] == items[i]);
        }
        lemma_try_fold_keeps(state, rest, step, kept);
        assert(items.last() == items[items.len() - 1]);
    }
}

/// The place of the item at which taking in `items` first fails, where it
/// fails.
pub open spec fn fault_at<S, T>(
    state: S,
    items: Seq<T>,
    step: spec_fn(S, T) -> Result<S, ErrorKind>,
) -> int
    decreases items.len(),
{
    if items.len() == 0 {
        0
    } else if try_fold(state, items.drop_last(), step) is Err {
        fault_at(state, items.drop_last(), step)
    } else {
        items.len() - 1
    }
}

/// Where the items before a place are taken in and the item at the place
/// is not, taking in the items first fails at that place.
pub proof fn lemma_fault_at<S, T>(
    state: S,
    items: Seq<T>,
    step: spec_fn(S, T) -> Result<S, ErrorKind>,
    done: int,
)
    requires
        0 <= done < items.len(),
        try_fold(state, items.take(done), step) is Ok,
        try_fold(state, items.take(done + 1), step) is Err,
    ensures
        fault_at(state, items, step) == done,
    decreases items.len(),
{
    let rest = items.drop_last();
    if done + 1 < items.len() {
        assert(rest.take(done) =~= items.take(done));
        assert(rest.take(done + 1) =~= items.take(done + 1));
        lemma_try_fold_fault(state, rest, step, done + 1);
        lemma_fault_at(state, rest, step, done);
    } else {
        assert(items.take(done + 1) =~= items);
        assert(rest =~= items.take(done));
    }
}

/// Taking in a single item is one step.
pub proof fn lemma_try_fold_one<S, T>(
    state: S,
    item: T,
    step: spec_fn(S, T) -> Result<S, ErrorKind>,
)
    ensures
        try_fold(state, seq![item], step) == step(state, item),
{
    assert(seq![item].drop_last() =~= Seq::<T>::empty());
    assert(try_fold(state, seq![item].drop_last(), step) == Ok::<S, ErrorKind>(state));
}

} // verus!
