//! Sequencing: the reconciled readings in ascending order of their interval end.

use vstd::prelude::*;
use crate::observation::{ObservationView, RawObservation, views};

verus! {

/// The number by which a reading is ordered: its interval end, and a number
/// below every instant where it has none.
pub open spec fn sort_key(reading: ObservationView) -> int {
    match reading.interval_end {
        Some(instant) => instant as int,
        None => i64::MIN - 1,
    }
}

/// Whether the reading at `first` goes before the one at `second`: by the
/// interval end, and among equal ones by the place in `readings`.
pub open spec fn goes_before(readings: Seq<ObservationView>, first: int, second: int) -> bool {
    sort_key(readings[first]) < sort_key(readings[second]) || (sort_key(readings[first])
        == sort_key(readings[second]) && first < second)
}

/// Whether `run` holds each place from `low` up to `high` once, the places in
/// the order in which their readings go.
pub open spec fn is_ordering(
    readings: Seq<ObservationView>,
    run: Seq<usize>,
    low: int,
    high: int,
) -> bool {
    &&& run.len() == high - low
    &&& forall|i: int| 0 <= i < run.len() ==> low <= #[trigger] run[i] < high
    &&& forall|i: int, j: int|
        0 <= i < j < run.len() ==> goes_before(readings, #[trigger] run[i] as int, #[trigger] run[j] as int)
    &&& forall|place: usize| low <= place < high ==> #[trigger] run.contains(place)
}

/// Whether the reading `first` is ordered at or before `second`.
fn not_after(first: &RawObservation, second: &RawObservation) -> (holds: bool)
    ensures
        holds == (sort_key(first@) <= sort_key(second@)),
{
    match first.interval_end {
        None => true,
        Some(early) => match second.interval_end {
            None => false,
            Some(late) => early <= late,
        },
    }
}

/// Merges the orderings of two adjoining ranges of places into that of both.
fn merge_runs(
    readings: &Vec<RawObservation>,
    left: &Vec<usize>,
    right: &Vec<usize>,
    low: usize,
    middle: usize,
    high: usize,
) -> (run: Vec<usize>)
    requires
        low <= middle <= high <= readings.len(),
        is_ordering(views(readings@), left@, low as int, middle as int),
        is_ordering(views(readings@), right@, middle as int, high as int),
    ensures
        is_ordering(views(readings@), run@, low as int, high as int),
{
    let ghost all = views(readings@);
    let mut run: Vec<usize> = Vec::with_capacity(high - low);
    let mut i: usize = 0;
    let mut j: usize = 0;
    while i < left.len() || j < right.len()
        invariant
            all == views(readings@),
            low <= middle <= high <= readings.len(),
            is_ordering(all, left@, low as int, middle as int),
            is_ordering(all, right@, middle as int, high as int),
            i <= left.len(),
            j <= right.len(),
            run.len() == i + j,
            forall|k: int| 0 <= k < run.len() ==> low <= #[trigger] run[k] < high,
            forall|k: int, l: int|
                0 <= k < l < run.len() ==> goes_before(all, #[trigger] run[k] as int, #[trigger] run[l] as int),
            forall|k: int, l: int|
                0 <= k < run.len() && i <= l < left.len() ==> goes_before(
                    all,
                    #[trigger] run[k] as int,
                    #[trigger] left[l] as int,
                ),
            forall|k: int, l: int|
                0 <= k < run.len() && j <= l < right.len() ==> goes_before(
                    all,
                    #[trigger] run[k] as int,
                    #[trigger] right[l] as int,
                ),
            forall|l: int| 0 <= l < i ==> run@.contains(#[trigger] left[l]),
            forall|l: int| 0 <= l < j ==> run@.contains(#[trigger] right[l]),
        decreases left.len() - i + right.len() - j,
    {
        let ghost before = run@;
        let take_left = if i >= left.len() {
            false
        } else if j >= right.len() {
            true
        } else {
            proof {
                assert(low <= left[i as int] < middle);
                assert(middle <= right[j as int] < high);
            }
            not_after(&readings[left[i]], &readings[right[j]])
        };
        if take_left {
            let taken = left[i];
            run.push(taken);
            proof {
                assert forall|k: int, l: int| 0 <= k < run.len() && j <= l < right.len() implies goes_before(
                    all,
                    #[trigger] run[k] as int,
                    #[trigger] right[l] as int,
                ) by {
                    if k == before.len() {
                        assert(low <= left[i as int] < middle);
                        assert(middle <= right[l] < high);
                        if l > j {
                            assert(goes_before(all, right[j as int] as int, right[l] as int));
                        }
                    } else {
                        assert(run[k] == before[k]);
                    }
                }
                assert forall|k: int, l: int| 0 <= k < run.len() && i + 1 <= l < left.len() implies goes_before(
                    all,
                    #[trigger] run[k] as int,
                    #[trigger] left[l] as int,
                ) by {
                    if k == before.len() {
                        assert(goes_before(all, left[i as int] as int, left[l] as int));
                    } else {
                        assert(run[k] == before[k]);
                    }
                }
                assert forall|k: int, l: int| 0 <= k < l < run.len() implies goes_before(
                    all,
                    #[trigger] run[k] as int,
                    #[trigger] run[l] as int,
                ) by {
                    assert(run[k] == before[k]);
                    if l < before.len() {
                        assert(run[l] == before[l]);
                    }
                }
                assert forall|l: int| 0 <= l < i + 1 implies run@.contains(#[trigger] left[l]) by {
                    if l < i {
                        let k = choose|k: int| 0 <= k < before.len() && before[k] == left[l];
                        assert(run[k] == left[l]);
                    } else {
                        assert(run[before.len() as int] == left[l]);
                    }
                }
                assert forall|l: int| 0 <= l < j implies run@.contains(#[trigger] right[l]) by {
                    let k = choose|k: int| 0 <= k < before.len() && before[k] == right[l];
                    assert(run[k] == right[l]);
                }
            }
            i += 1;
        } else {
            let taken = right[j];
            run.push(taken);
            proof {
                assert forall|k: int, l: int| 0 <= k < run.len() && i <= l < left.len() implies goes_before(
                    all,
                    #[trigger] run[k] as int,
                    #[trigger] left[l] as int,
                ) by {
                    if k == before.len() {
                        assert(low <= left[i as int] < middle);
                        assert(low <= left[l] < middle);
                        assert(middle <= right[j as int] < high);
                        if l > i {
                            assert(goes_before(all, left[i as int] as int, left[l] as int));
                        }
                    } else {
                        assert(run[k] == before[k]);
                    }
                }
                assert forall|k: int, l: int| 0 <= k < run.len() && j + 1 <= l < right.len() implies goes_before(
                    all,
                    #[trigger] run[k] as int,
                    #[trigger] right[l] as int,
                ) by {
                    if k == before.len() {
                        assert(goes_before(all, right[j as int] as int, right[l] as int));
                    } else {
                        assert(run[k] == before[k]);
                    }
                }
                assert forall|k: int, l: int| 0 <= k < l < run.len() implies goes_before(
                    all,
                    #[trigger] run[k] as int,
                    #[trigger] run[l] as int,
                ) by {
                    assert(run[k] == before[k]);
                    if l < before.len() {
                        assert(run[l] == before[l]);
                    }
                }
                assert forall|l: int| 0 <= l < i implies run@.contains(#[trigger] left[l]) by {
                    let k = choose|k: int| 0 <= k < before.len() && before[k] == left[l];
                    assert(run[k] == left[l]);
                }
                assert forall|l: int| 0 <= l < j + 1 implies run@.contains(#[trigger] right[l]) by {
                    if l < j {
                        let k = choose|k: int| 0 <= k < before.len() && before[k] == right[l];
                        assert(run[k] == right[l]);
                    } else {
                        assert(run[before.len() as int] == right[l]);
                    }
                }
            }
            j += 1;
        }
    }
    proof {
        assert forall|place: usize| low <= place < high implies #[trigger] run@.contains(place) by {
            if place < middle {
                assert(left@.contains(place));
                let l = choose|l: int| 0 <= l < left.len() && left[l] == place;
                assert(run@.contains(left[l]));
            } else {
                assert(right@.contains(place));
                let l = choose|l: int| 0 <= l < right.len() && right[l] == place;
                assert(run@.contains(right[l]));
            }
        }
    }
    run
}

/// The ordering of the places from `low` up to `high`.
fn order_range(readings: &Vec<RawObservation>, low: usize, high: usize) -> (run: Vec<usize>)
    requires
        low <= high <= readings.len(),
    ensures
        is_ordering(views(readings@), run@, low as int, high as int),
    decreases high - low,
{
    if high - low == 0 {
        Vec::new()
    } else if high - low == 1 {
        let mut run: Vec<usize> = Vec::new();
        run.push(low);
        proof {
            assert forall|place: usize| low <= place < high implies #[trigger] run@.contains(
                place,
            ) by {
                assert(run[0] == place);
            }
        }
        run
    } else {
        let middle = low + (high - low) / 2;
        let left = order_range(readings, low, middle);
        let right = order_range(readings, middle, high);
        merge_runs(readings, &left, &right, low, middle, high)
    }
}

/// The places of the readings in ascending order of their interval end;
/// readings with the same interval end keep the order they came in.
pub fn order_by_interval_end(readings: &Vec<RawObservation>) -> (order: Vec<usize>)
    ensures
        is_ordering(views(readings@), order@, 0, readings.len() as int),
{
    order_range(readings, 0, readings.len())
}

/// The readings in ascending order of their interval end, a reading without
/// one before all others. Nothing is left out or added, and readings with
/// the same interval end keep the order they came in.
pub fn sequence<'a>(readings: &'a Vec<RawObservation>) -> (ordered: Vec<&'a RawObservation>)
    ensures
        ordered.len() == readings.len(),
        forall|i: int, j: int|
            0 <= i < j < ordered.len() ==> sort_key((#[trigger] ordered[i])@) <= sort_key(
                (#[trigger] ordered[j])@,
            ),
        exists|order: Seq<usize>|
            is_ordering(views(readings@), order, 0, readings.len() as int) && forall|i: int|
                0 <= i < ordered.len() ==> *(#[trigger] ordered[i]) == readings[order[i] as int],
{
    let order = order_by_interval_end(readings);
    let mut ordered: Vec<&'a RawObservation> = Vec::with_capacity(order.len());
    let mut at: usize = 0;
    while at < order.len()
        invariant
            at <= order.len(),
            ordered.len() == at,
            is_ordering(views(readings@), order@, 0, readings.len() as int),
            forall|i: int| 0 <= i < at ==> *(#[trigger] ordered[i]) == readings[order[i] as int],
        decreases order.len() - at,
    {
        proof {
            assert(0 <= order[at as int] < readings.len());
        }
        ordered.push(&readings[order[at]]);
        at += 1;
    }
    proof {
        let all = views(readings@);
        assert forall|i: int, j: int| 0 <= i < j < ordered.len() implies sort_key(
            (#[trigger] ordered[i])@,
        ) <= sort_key((#[trigger] ordered[j])@) by {
            assert(goes_before(all, order[i] as int, order[j] as int));
            assert(0 <= order[i] < readings.len());
            assert(0 <= order[j] < readings.len());
        }
        assert(is_ordering(views(readings@), order@, 0, readings.len() as int) && forall|i: int|
            0 <= i < ordered.len() ==> *(#[trigger] ordered[i]) == readings[order@[i] as int]);
    }
    ordered
}

/// An ordering holds no place twice, so with its coverage of every place it
/// is a permutation: sequencing neither drops nor repeats a reading.
pub proof fn law_ordering_is_permutation(
    readings: Seq<ObservationView>,
    run: Seq<usize>,
    low: int,
    high: int,
)
    requires
        is_ordering(readings, run, low, high),
    ensures
        forall|i: int, j: int| 0 <= i < j < run.len() ==> #[trigger] run[i] != #[trigger] run[j],
        forall|place: usize| low <= place < high ==> #[trigger] run.contains(place),
        run.len() == high - low,
{
    assert forall|i: int, j: int| 0 <= i < j < run.len() implies #[trigger] run[i] != #[trigger] run[j] by {
        assert(goes_before(readings, run[i] as int, run[j] as int));
    }
}

/// Sequencing keeps the keys apart: where no two readings share a key, no two
/// places of the ordering lead to readings with one key.
pub proof fn law_sequenced_keys_stay_unique(readings: Seq<ObservationView>, run: Seq<usize>)
    requires
        is_ordering(readings, run, 0, readings.len() as int),
        forall|i: int, j: int|
            0 <= i < j < readings.len() ==> (#[trigger] readings[i]).key() != (
            #[trigger] readings[j]).key(),
    ensures
        forall|i: int, j: int|
            0 <= i < j < run.len() ==> readings[#[trigger] run[i] as int].key() != readings[
            #[trigger] run[j] as int].key(),
{
    law_ordering_is_permutation(readings, run, 0, readings.len() as int);
    assert forall|i: int, j: int| 0 <= i < j < run.len() implies readings[#[trigger] run[i] as int].key()
        != readings[#[trigger] run[j] as int].key() by {
        let first = run[i] as int;
        let second = run[j] as int;
        assert(0 <= run[i] < readings.len() && 0 <= run[j] < readings.len());
        assert(first != second);
        if first < second {
            assert(readings[first].key() != readings[second].key());
        } else {
            assert(readings[second].key() != readings[first].key());
        }
    }
}

} // verus!
