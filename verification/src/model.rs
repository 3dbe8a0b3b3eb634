//! What the stages share: schedules, unavailability and counting.
//!
//! A schedule has one entry for each slot of the week: the subject taught in
//! it, by its priority position, or [`UNASSIGNED`]. Each subject may come
//! with a group of slots in which it cannot be taught.
use vstd::prelude::*;

verus! {

/// The entry of a slot that no subject has.
pub const UNASSIGNED: i32 = -1;

/// The number of subjects that a schedule can name: its entries are `i32`.
pub const NAMED_SUBJECTS: usize = 0x8000_0000;

/// How many of `subject_count` subjects a schedule can name: all of them,
/// unless they are more than [`NAMED_SUBJECTS`]. The subjects beyond that
/// number get no slot and are not tried for any.
pub open spec fn named(subject_count: usize) -> usize {
    if subject_count < NAMED_SUBJECTS {
        subject_count
    } else {
        NAMED_SUBJECTS
    }
}

/// The contents of each group, in order.
pub open spec fn group_views<T>(groups: Seq<Vec<T>>) -> Seq<Seq<T>> {
    Seq::new(groups.len(), |g: int| groups[g]@)
}

/// Every entry is a subject below `subject_count`, or [`UNASSIGNED`].
pub open spec fn is_schedule(schedule: Seq<i32>, subject_count: int) -> bool {
    forall|z: int| 0 <= z < schedule.len() ==> UNASSIGNED <= #[trigger] schedule[z] < subject_count
}

/// Whether `slot` is one of the slots in which `subject` cannot be taught. A
/// subject without a group can be taught in any slot.
pub open spec fn blocked(unavailable: Seq<Seq<usize>>, subject: int, slot: int) -> bool {
    0 <= subject < unavailable.len() && exists|k: int|
        0 <= k < unavailable[subject].len() && #[trigger] unavailable[subject][k] as int == slot
}

/// In how many of the first `upto` slots the schedule has `value`.
pub open spec fn occurrences(schedule: Seq<i32>, value: int, upto: int) -> nat
    decreases upto,
{
    if upto <= 0 {
        0
    } else {
        occurrences(schedule, value, upto - 1) + if schedule[upto - 1] as int == value {
            1nat
        } else {
            0nat
        }
    }
}

/// A value is found in a stretch of slots no more often than the stretch is
/// long, and no less often in a longer stretch.
pub proof fn lemma_occurrences_bounds(schedule: Seq<i32>, value: int, upto: int, later: int)
    requires
        0 <= upto <= later,
    ensures
        occurrences(schedule, value, upto) <= upto,
        occurrences(schedule, value, upto) <= occurrences(schedule, value, later),
    decreases later,
{
    if upto < later {
        lemma_occurrences_bounds(schedule, value, upto, later - 1);
    } else if upto > 0 {
        lemma_occurrences_bounds(schedule, value, upto - 1, upto - 1);
    }
}

/// What changing the entry of one slot does to the count of a value.
pub proof fn lemma_occurrences_update(
    schedule: Seq<i32>,
    slot: int,
    entry: i32,
    value: int,
    upto: int,
)
    requires
        0 <= slot < schedule.len(),
        0 <= upto <= schedule.len(),
    ensures
        occurrences(schedule.update(slot, entry), value, upto) == occurrences(
            schedule,
            value,
            upto,
        ) + (if slot < upto && entry as int == value {
            1int
        } else {
            0int
        }) - (if slot < upto && schedule[slot] as int == value {
            1int
        } else {
            0int
        }),
    decreases upto,
{
    if upto > 0 {
        lemma_occurrences_update(schedule, slot, entry, value, upto - 1);
    }
}

/// Slots that do not hold a value add nothing to its count.
pub proof fn lemma_occurrences_tail(schedule: Seq<i32>, value: int, from: int, upto: int)
    requires
        0 <= from <= upto,
        forall|z: int| from <= z < upto ==> schedule[z] as int != value,
    ensures
        occurrences(schedule, value, upto) == occurrences(schedule, value, from),
    decreases upto - from,
{
    if from < upto {
        lemma_occurrences_tail(schedule, value, from, upto - 1);
    }
}

/// A value that is found in one of the first `upto` slots is counted.
pub proof fn lemma_occurrence_counts(schedule: Seq<i32>, value: int, slot: int, upto: int)
    requires
        0 <= slot < upto,
        schedule[slot] as int == value,
    ensures
        occurrences(schedule, value, upto) > 0,
    decreases upto,
{
    if slot < upto - 1 {
        lemma_occurrence_counts(schedule, value, slot, upto - 1);
    }
}

/// Tells how many of `subject_count` subjects a schedule can name.
pub fn named_subjects(subject_count: usize) -> (subjects: usize)
    ensures
        subjects == named(subject_count),
{
    if subject_count < NAMED_SUBJECTS {
        subject_count
    } else {
        NAMED_SUBJECTS
    }
}

/// Tells whether `slot` is in the group.
pub fn contains_slot(group: &Vec<usize>, slot: usize) -> (found: bool)
    ensures
        found <==> exists|k: int| 0 <= k < group@.len() && #[trigger] group@[k] as int == slot,
{
    let mut k: usize = 0;
    while k < group.len()
        invariant
            k <= group@.len(),
            forall|t: int| 0 <= t < k ==> group@[t] != slot,
        decreases group@.len() - k,
    {
        if group[k] == slot {
            return true;
        }
        k = k + 1;
    }
    false
}

/// Tells whether `slot` is one in which `subject` cannot be taught.
pub fn is_blocked(unavailable: &[Vec<usize>], subject: usize, slot: usize) -> (found: bool)
    ensures
        found == blocked(group_views(unavailable@), subject as int, slot as int),
{
    if subject < unavailable.len() {
        assert(group_views(unavailable@)[subject as int] == unavailable@[subject as int]@);
        contains_slot(&unavailable[subject], slot)
    } else {
        false
    }
}

} // verus!
