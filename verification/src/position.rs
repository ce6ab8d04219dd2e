//! Where `MATCH` and the lookup pair find their target among the candidates
//! of a lookup line, once each candidate has been compared with the target.
//!
//! An exact search takes the first candidate that matches. An ordered search
//! assumes the line is sorted the way the match kind says, so its answer is
//! the last comparable candidate before the first one that has passed the
//! target, unless a candidate equal to the target comes first.

use std::cmp::Ordering;

use vstd::prelude::*;

verus! {

/// The position of the first candidate that matches, if any does.
pub open spec fn first_match(candidates: Seq<(u64, bool)>) -> Option<u64>
    decreases candidates.len(),
{
    if candidates.len() == 0 {
        None
    } else if candidates[0].1 {
        Some(candidates[0].0)
    } else {
        first_match(candidates.drop_first())
    }
}

/// Whether a comparison outcome ends an ordered search: the candidate equals
/// the target, or has passed it.
pub open spec fn ends_search(outcome: Option<Ordering>, passed: Ordering) -> bool {
    outcome == Some(Ordering::Equal) || outcome == Some(passed)
}

/// How many candidates an ordered search walks before it stops.
pub open spec fn stop_index(candidates: Seq<(u64, Option<Ordering>)>, passed: Ordering) -> int
    decreases candidates.len(),
{
    if candidates.len() == 0 {
        0
    } else if ends_search(candidates[0].1, passed) {
        0
    } else {
        1 + stop_index(candidates.drop_first(), passed)
    }
}

/// The position of the last candidate that could be compared with the target.
pub open spec fn last_comparable(candidates: Seq<(u64, Option<Ordering>)>) -> Option<u64>
    decreases candidates.len(),
{
    if candidates.len() == 0 {
        None
    } else if candidates.last().1 is Some {
        Some(candidates.last().0)
    } else {
        last_comparable(candidates.drop_last())
    }
}

/// The answer of an ordered search: the candidate it stops on when that one
/// equals the target, else the last comparable candidate before the stop.
pub open spec fn ordered_answer(candidates: Seq<(u64, Option<Ordering>)>, passed: Ordering) -> Option<u64> {
    let stop = stop_index(candidates, passed);
    if stop < candidates.len() && candidates[stop].1 == Some(Ordering::Equal) {
        Some(candidates[stop].0)
    } else {
        last_comparable(candidates.take(stop))
    }
}

proof fn lemma_first_match_step(candidates: Seq<(u64, bool)>, i: int)
    requires
        0 <= i < candidates.len(),
        forall|k: int| 0 <= k < i ==> !(#[trigger] candidates[k]).1,
    ensures
        first_match(candidates) == first_match(candidates.subrange(i, candidates.len() as int)),
    decreases i,
{
    if i > 0 {
        let rest = candidates.drop_first();
        assert forall|k: int| 0 <= k < i - 1 implies !(#[trigger] rest[k]).1 by {
            assert(rest[k] == candidates[k + 1]);
        }
        lemma_first_match_step(rest, i - 1);
        assert(rest.subrange(i - 1, rest.len() as int) =~= candidates.subrange(i, candidates.len() as int));
    } else {
        assert(candidates.subrange(0, candidates.len() as int) =~= candidates);
    }
}

proof fn lemma_first_match_none(candidates: Seq<(u64, bool)>)
    requires
        forall|k: int| 0 <= k < candidates.len() ==> !(#[trigger] candidates[k]).1,
    ensures
        first_match(candidates) == None::<u64>,
    decreases candidates.len(),
{
    if candidates.len() > 0 {
        let rest = candidates.drop_first();
        assert forall|k: int| 0 <= k < rest.len() implies !(#[trigger] rest[k]).1 by {
            assert(rest[k] == candidates[k + 1]);
        }
        lemma_first_match_none(rest);
    }
}

/// The first candidate that matches the target, for `MATCH` with kind 0 and
/// an exact `VLOOKUP` or `HLOOKUP`.
pub fn find_exact(candidates: &[(u64, bool)]) -> (r: Option<u64>)
    ensures
        r == first_match(candidates@),
{
    let mut i: usize = 0;
    while i < candidates.len()
        invariant
            i <= candidates@.len(),
            forall|k: int| 0 <= k < i ==> !(#[trigger] candidates@[k]).1,
        decreases candidates.len() - i,
    {
        if candidates[i].1 {
            proof {
                lemma_first_match_step(candidates@, i as int);
                let rest = candidates@.subrange(i as int, candidates@.len() as int);
                assert(rest[0] == candidates@[i as int]);
            }
            return Some(candidates[i].0);
        }
        i = i + 1;
    }
    proof {
        lemma_first_match_none(candidates@);
    }
    None
}

proof fn lemma_stop_index_bounds(candidates: Seq<(u64, Option<Ordering>)>, passed: Ordering)
    ensures
        0 <= stop_index(candidates, passed) <= candidates.len(),
        forall|k: int|
            0 <= k < stop_index(candidates, passed) ==> !ends_search(#[trigger] candidates[k].1, passed),
        stop_index(candidates, passed) < candidates.len() ==> ends_search(
            candidates[stop_index(candidates, passed)].1,
            passed,
        ),
    decreases candidates.len(),
{
    if candidates.len() > 0 && !ends_search(candidates[0].1, passed) {
        let rest = candidates.drop_first();
        lemma_stop_index_bounds(rest, passed);
        assert forall|k: int| 0 <= k < stop_index(candidates, passed) implies !ends_search(
            #[trigger] candidates[k].1,
            passed,
        ) by {
            if k > 0 {
                assert(candidates[k] == rest[k - 1]);
            }
        }
    }
}

/// The stop index is fixed by where the first stopping outcome lies.
proof fn lemma_stop_index_is(candidates: Seq<(u64, Option<Ordering>)>, passed: Ordering, i: int)
    requires
        0 <= i <= candidates.len(),
        forall|k: int| 0 <= k < i ==> !ends_search(#[trigger] candidates[k].1, passed),
        i < candidates.len() ==> ends_search(candidates[i].1, passed),
    ensures
        stop_index(candidates, passed) == i,
    decreases candidates.len(),
{
    if candidates.len() > 0 && i > 0 {
        let rest = candidates.drop_first();
        assert forall|k: int| 0 <= k < i - 1 implies !ends_search(#[trigger] rest[k].1, passed) by {
            assert(rest[k] == candidates[k + 1]);
        }
        if i - 1 < rest.len() {
            assert(rest[i - 1] == candidates[i]);
        }
        lemma_stop_index_is(rest, passed, i - 1);
    }
}

/// The last comparable candidate of a prefix, one candidate longer.
proof fn lemma_last_comparable_step(candidates: Seq<(u64, Option<Ordering>)>, i: int)
    requires
        0 <= i < candidates.len(),
    ensures
        last_comparable(candidates.take(i + 1)) == (if candidates[i].1 is Some {
            Some(candidates[i].0)
        } else {
            last_comparable(candidates.take(i))
        }),
{
    let longer = candidates.take(i + 1);
    assert(longer.last() == candidates[i]);
    assert(longer.drop_last() =~= candidates.take(i));
}

/// The position of the target in an ordered lookup line, for `MATCH` with
/// kind 1 (`passed` is `Greater`: the line ascends) or -1 (`passed` is
/// `Less`: the line descends), and an approximate `VLOOKUP` or `HLOOKUP`.
/// Each candidate carries how it compares with the target, or `None` where it
/// cannot be compared, as text with a number.
pub fn find_ordered(candidates: &[(u64, Option<Ordering>)], passed: Ordering) -> (r: Option<u64>)
    ensures
        r == ordered_answer(candidates@, passed),
{
    let mut best: Option<u64> = None;
    let mut i: usize = 0;
    let ghost mut at: int = 0;
    proof {
        lemma_stop_index_bounds(candidates@, passed);
        assert(candidates@.take(0) =~= Seq::<(u64, Option<Ordering>)>::empty());
    }
    while i < candidates.len()
        invariant
            at == i,
            i <= candidates@.len(),
            forall|k: int| 0 <= k < at ==> !ends_search(#[trigger] candidates@[k].1, passed),
            best == last_comparable(candidates@.take(at)),
        decreases candidates.len() - i,
    {
        let position = candidates[i].0;
        proof {
            lemma_last_comparable_step(candidates@, at);
        }
        match candidates[i].1 {
            None => {},
            Some(outcome) => {
                let stops = match outcome {
                    Ordering::Equal => true,
                    Ordering::Less => match passed {
                        Ordering::Less => true,
                        _ => false,
                    },
                    Ordering::Greater => match passed {
                        Ordering::Greater => true,
                        _ => false,
                    },
                };
                if stops {
                    proof {
                        lemma_stop_index_is(candidates@, passed, at);
                    }
                    match outcome {
                        Ordering::Equal => {
                            return Some(position);
                        },
                        _ => {
                            return best;
                        },
                    }
                }
                best = Some(position);
            },
        }
        i = i + 1;
        proof {
            at = at + 1;
        }
    }
    proof {
        lemma_stop_index_is(candidates@, passed, at);
    }
    best
}

/// Where an outcome stands: below the target, at it, or above it.
pub open spec fn rank(outcome: Ordering) -> int {
    match outcome {
        Ordering::Less => 0,
        Ordering::Equal => 1,
        Ordering::Greater => 2,
    }
}

/// A line sorted ascending, every candidate comparable with the target.
pub open spec fn sorted_line(candidates: Seq<(u64, Option<Ordering>)>) -> bool {
    &&& forall|k: int| 0 <= k < candidates.len() ==> (#[trigger] candidates[k]).1 is Some
    &&& forall|i: int, j: int|
        0 <= i < j < candidates.len() ==> rank((#[trigger] candidates[i]).1->0) <= rank(
            (#[trigger] candidates[j]).1->0,
        )
}

/// An ascending search over a sorted line finds the largest value at or
/// below the target: a candidate at or below it, with every later candidate
/// at or above the target, and above it when the one found is below. When
/// every candidate is above the target there is no answer.
pub proof fn lemma_ascending_finds_largest_at_or_below(candidates: Seq<(u64, Option<Ordering>)>)
    requires
        sorted_line(candidates),
    ensures
        match ordered_answer(candidates, Ordering::Greater) {
            Some(p) => exists|k: int|
                #![trigger candidates[k]]
                0 <= k < candidates.len() && candidates[k].0 == p && rank(candidates[k].1->0) <= 1 && (
                forall|m: int|
                    k < m < candidates.len() ==> rank((#[trigger] candidates[m]).1->0) >= 1 + (
                    if rank(candidates[k].1->0) == 0 {
                        1int
                    } else {
                        0int
                    })),
            None => forall|k: int|
                0 <= k < candidates.len() ==> rank((#[trigger] candidates[k]).1->0) == 2,
        },
{
    let passed = Ordering::Greater;
    lemma_stop_index_bounds(candidates, passed);
    let stop = stop_index(candidates, passed);
    assert forall|k: int| 0 <= k < stop implies rank((#[trigger] candidates[k]).1->0) == 0 by {
        assert(!ends_search(candidates[k].1, passed));
    }
    if stop < candidates.len() && candidates[stop].1 == Some(Ordering::Equal) {
        assert(candidates[stop].0 == candidates[stop].0);
    } else if stop > 0 {
        let prefix = candidates.take(stop);
        assert(prefix.last() == candidates[stop - 1]);
        assert(candidates[stop - 1].1 is Some);
        if stop < candidates.len() {
            assert(rank(candidates[stop].1->0) == 2);
        }
        assert forall|m: int| stop - 1 < m < candidates.len() implies rank(
            (#[trigger] candidates[m]).1->0,
        ) == 2 by {
            if m > stop {
                assert(rank(candidates[stop].1->0) <= rank(candidates[m].1->0));
            }
        }
        assert(candidates[stop - 1].0 == candidates[stop - 1].0);
    } else {
        assert(candidates.take(0) =~= Seq::<(u64, Option<Ordering>)>::empty());
        if candidates.len() > 0 {
            assert(rank(candidates[0].1->0) == 2);
            assert forall|k: int| 0 <= k < candidates.len() implies rank(
                (#[trigger] candidates[k]).1->0,
            ) == 2 by {
                if k > 0 {
                    assert(rank(candidates[0].1->0) <= rank(candidates[k].1->0));
                }
            }
        }
    }
}

} // verus!
