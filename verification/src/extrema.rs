//! Finding every position at which a list of vote counts is smallest or largest.

use vstd::prelude::*;

verus! {

/// Which end of the counts a search is after.
#[derive(Clone, Copy, Debug, PartialEq, Eq)]
pub enum MinOrMax {
    Min,
    Max,
}

/// `a` is at least as far towards the wanted end as `b`.
pub open spec fn reaches(mode: MinOrMax, a: usize, b: usize) -> bool {
    match mode {
        MinOrMax::Min => a <= b,
        MinOrMax::Max => b <= a,
    }
}

/// Position `i` of `list` holds the smallest (or largest) value of the whole list.
pub open spec fn is_extremum_at(list: Seq<usize>, mode: MinOrMax, i: int) -> bool {
    &&& 0 <= i < list.len()
    &&& forall|j: int| 0 <= j < list.len() ==> reaches(mode, list[i], #[trigger] list[j])
}

/// The positions below `n` that hold the extremum of `list`, in ascending order.
pub open spec fn extrema_below(list: Seq<usize>, mode: MinOrMax, n: int) -> Seq<usize>
    decreases n,
{
    if n <= 0 {
        Seq::empty()
    } else if is_extremum_at(list, mode, n - 1) {
        extrema_below(list, mode, n - 1).push((n - 1) as usize)
    } else {
        extrema_below(list, mode, n - 1)
    }
}

/// Every position that holds the extremum of `list`, in ascending order.
pub open spec fn extrema(list: Seq<usize>, mode: MinOrMax) -> Seq<usize> {
    extrema_below(list, mode, list.len() as int)
}

/// `extrema_below(list, mode, n)` lists exactly the extremal positions below `n`,
/// each once and in ascending order.
pub proof fn lemma_extrema_below(list: Seq<usize>, mode: MinOrMax, n: int)
    requires
        0 <= n <= list.len(),
        list.len() <= usize::MAX,
    ensures
        extrema_below(list, mode, n).len() <= n,
        forall|k: int|
            0 <= k < extrema_below(list, mode, n).len() ==> {
                &&& (#[trigger] extrema_below(list, mode, n)[k]) < n
                &&& is_extremum_at(list, mode, extrema_below(list, mode, n)[k] as int)
            },
        forall|i: int|
            0 <= i < n && #[trigger] is_extremum_at(list, mode, i) ==> extrema_below(
                list,
                mode,
                n,
            ).contains(i as usize),
        forall|k: int, l: int|
            0 <= k < l < extrema_below(list, mode, n).len() ==> (#[trigger] extrema_below(
                list,
                mode,
                n,
            )[k]) < (#[trigger] extrema_below(list, mode, n)[l]),
    decreases n,
{
    if n > 0 {
        lemma_extrema_below(list, mode, n - 1);
        let before = extrema_below(list, mode, n - 1);
        let now = extrema_below(list, mode, n);
        if is_extremum_at(list, mode, n - 1) {
            assert(now == before.push((n - 1) as usize));
            assert(now[before.len() as int] == (n - 1) as usize);
            assert forall|i: int| 0 <= i < n && is_extremum_at(list, mode, i) implies now.contains(
                i as usize,
            ) by {
                if i < n - 1 {
                    assert(before.contains(i as usize));
                    let k = choose|k: int| 0 <= k < before.len() && before[k] == i as usize;
                    assert(now[k] == i as usize);
                } else {
                    assert(now[before.len() as int] == i as usize);
                }
            }
        } else {
            assert(now == before);
        }
    }
}

/// The facts about `extrema` that callers lean on: it is never empty for a
/// list that is not, it is ascending, and it holds a position exactly when
/// that position attains the extremum.
pub proof fn lemma_extrema(list: Seq<usize>, mode: MinOrMax)
    requires
        0 < list.len() <= usize::MAX,
    ensures
        0 < extrema(list, mode).len() <= list.len(),
        forall|k: int|
            0 <= k < extrema(list, mode).len() ==> is_extremum_at(
                list,
                mode,
                (#[trigger] extrema(list, mode)[k]) as int,
            ),
        forall|i: int|
            #[trigger] is_extremum_at(list, mode, i) ==> extrema(list, mode).contains(i as usize),
        forall|k: int, l: int|
            0 <= k < l < extrema(list, mode).len() ==> (#[trigger] extrema(list, mode)[k]) < (
            #[trigger] extrema(list, mode)[l]),
{
    lemma_extrema_below(list, mode, list.len() as int);
    let best = lemma_extremum_exists(list, mode, list.len() as int);
    assert(is_extremum_at(list, mode, best));
    assert(extrema(list, mode).contains(best as usize));
}

/// Among the first `n` values of a list some position reaches all the others.
pub proof fn lemma_extremum_exists(list: Seq<usize>, mode: MinOrMax, n: int) -> (best: int)
    requires
        0 < n <= list.len(),
    ensures
        0 <= best < n,
        forall|j: int| 0 <= j < n ==> reaches(mode, list[best], #[trigger] list[j]),
    decreases n,
{
    if n == 1 {
        0
    } else {
        let earlier = lemma_extremum_exists(list, mode, n - 1);
        if reaches(mode, list[earlier], list[n - 1]) {
            earlier
        } else {
            n - 1
        }
    }
}

/// Returns every index at which `list` attains its minimum or its maximum,
/// as `min_or_max` asks, in ascending order.
pub fn extrema_indeces(list: &[usize], min_or_max: MinOrMax) -> (indices: Vec<usize>)
    requires
        list@.len() > 0,
    ensures
        indices@ == extrema(list@, min_or_max),
        indices@.len() > 0,
        forall|k: int|
            0 <= k < indices@.len() ==> is_extremum_at(
                list@,
                min_or_max,
                (#[trigger] indices@[k]) as int,
            ),
        forall|i: int|
            #[trigger] is_extremum_at(list@, min_or_max, i) ==> indices@.contains(i as usize),
        forall|k: int, l: int|
            0 <= k < l < indices@.len() ==> (#[trigger] indices@[k]) < (#[trigger] indices@[l]),
{
    let mut extremum: usize = list[0];
    let ghost mut holder: int = 0;
    let mut i: usize = 1;
    while i < list.len()
        invariant
            1 <= i <= list@.len(),
            0 <= holder < i,
            extremum == list@[holder],
            forall|j: int| 0 <= j < i ==> reaches(min_or_max, extremum, #[trigger] list@[j]),
        decreases list@.len() - i,
    {
        let better = match min_or_max {
            MinOrMax::Min => list[i] < extremum,
            MinOrMax::Max => list[i] > extremum,
        };
        if better {
            extremum = list[i];
            proof {
                holder = i as int;
            }
        }
        i += 1;
    }
    assert(is_extremum_at(list@, min_or_max, holder));

    let mut indices: Vec<usize> = Vec::new();
    let mut i: usize = 0;
    while i < list.len()
        invariant
            0 <= i <= list@.len(),
            0 <= holder < list@.len(),
            extremum == list@[holder],
            is_extremum_at(list@, min_or_max, holder),
            indices@ == extrema_below(list@, min_or_max, i as int),
        decreases list@.len() - i,
    {
        proof {
            assert(list@[i as int] == extremum <==> is_extremum_at(list@, min_or_max, i as int))
                by {
                if list@[i as int] == extremum {
                    assert(is_extremum_at(list@, min_or_max, i as int));
                }
                if is_extremum_at(list@, min_or_max, i as int) {
                    assert(reaches(min_or_max, list@[i as int], list@[holder]));
                    assert(reaches(min_or_max, list@[holder], list@[i as int]));
                }
            }
        }
        if list[i] == extremum {
            indices.push(i);
        }
        i += 1;
    }
    proof {
        lemma_extrema(list@, min_or_max);
    }
    indices
}

} // verus!
