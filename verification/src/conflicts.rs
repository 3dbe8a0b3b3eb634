//! The conflict evaluator.
//!
//! A schedule is in conflict with the constraints wherever a subject has a
//! slot in which it cannot be taught, and wherever a subject has, counting
//! from the start of the week, more slots than its quota. The evaluator
//! counts the conflicts and lists the slots that are in conflict. It works
//! the result out afresh from the schedule each time and changes nothing.
use vstd::prelude::*;
use crate::model::{
    blocked, group_views, is_blocked, is_schedule, lemma_occurrences_bounds,
    lemma_occurrences_update, occurrences, UNASSIGNED,
};

verus! {


/// The subject of `slot` cannot be taught in it.
pub open spec fn availability_conflict(
    schedule: Seq<i32>,
    unavailable: Seq<Seq<usize>>,
    slot: int,
) -> bool {
    schedule[slot] != UNASSIGNED && blocked(unavailable, schedule[slot] as int, slot)
}

/// With `slot`, its subject has more slots than its quota.
pub open spec fn quota_conflict(schedule: Seq<i32>, quota: Seq<usize>, slot: int) -> bool {
    schedule[slot] != UNASSIGNED && occurrences(schedule, schedule[slot] as int, slot + 1)
        > quota[schedule[slot] as int]
}

/// The number of conflicts in `slot`: none, one, or two if both kinds meet.
pub open spec fn conflicts_at(
    schedule: Seq<i32>,
    unavailable: Seq<Seq<usize>>,
    quota: Seq<usize>,
    slot: int,
) -> nat {
    (if availability_conflict(schedule, unavailable, slot) {
        1nat
    } else {
        0nat
    }) + (if quota_conflict(schedule, quota, slot) {
        1nat
    } else {
        0nat
    })
}

/// The number of conflicts in the first `upto` slots.
pub open spec fn conflicts_before(
    schedule: Seq<i32>,
    unavailable: Seq<Seq<usize>>,
    quota: Seq<usize>,
    upto: int,
) -> nat
    decreases upto,
{
    if upto <= 0 {
        0
    } else {
        conflicts_before(schedule, unavailable, quota, upto - 1) + conflicts_at(
            schedule,
            unavailable,
            quota,
            upto - 1,
        )
    }
}

/// The number of conflicts in the whole schedule.
pub open spec fn conflict_count(
    schedule: Seq<i32>,
    unavailable: Seq<Seq<usize>>,
    quota: Seq<usize>,
) -> nat {
    conflicts_before(schedule, unavailable, quota, schedule.len() as int)
}

/// Those of the first `upto` slots that are in conflict, in rising order and
/// each once.
pub open spec fn conflicted_before(
    schedule: Seq<i32>,
    unavailable: Seq<Seq<usize>>,
    quota: Seq<usize>,
    upto: int,
) -> Seq<usize>
    decreases upto,
{
    if upto <= 0 {
        Seq::empty()
    } else if conflicts_at(schedule, unavailable, quota, upto - 1) > 0 {
        conflicted_before(schedule, unavailable, quota, upto - 1).push((upto - 1) as usize)
    } else {
        conflicted_before(schedule, unavailable, quota, upto - 1)
    }
}

/// The slots of the schedule that are in conflict, in rising order and each
/// once.
pub open spec fn conflicted_slots(
    schedule: Seq<i32>,
    unavailable: Seq<Seq<usize>>,
    quota: Seq<usize>,
) -> Seq<usize> {
    conflicted_before(schedule, unavailable, quota, schedule.len() as int)
}

/// The list of [`conflicted_before`] holds the slots below `upto` that are
/// in conflict, all of them, in rising order and so each once. It is no
/// longer than the conflicts are many, and not empty where there is a
/// conflict.
pub proof fn lemma_conflicted_before(
    schedule: Seq<i32>,
    unavailable: Seq<Seq<usize>>,
    quota: Seq<usize>,
    upto: int,
)
    requires
        0 <= upto <= schedule.len() <= usize::MAX,
    ensures
        conflicted_before(schedule, unavailable, quota, upto).len() <= conflicts_before(
            schedule,
            unavailable,
            quota,
            upto,
        ) <= 2 * upto,
        conflicts_before(schedule, unavailable, quota, upto) > 0 ==> conflicted_before(
            schedule,
            unavailable,
            quota,
            upto,
        ).len() > 0,
        forall|i: int|
            0 <= i < conflicted_before(schedule, unavailable, quota, upto).len() ==> {
                let slot = #[trigger] conflicted_before(schedule, unavailable, quota, upto)[i];
                slot < upto && conflicts_at(schedule, unavailable, quota, slot as int) > 0
            },
        forall|i: int, j: int|
            0 <= i < j < conflicted_before(schedule, unavailable, quota, upto).len()
                ==> conflicted_before(schedule, unavailable, quota, upto)[i] < conflicted_before(
                schedule,
                unavailable,
                quota,
                upto,
            )[j],
        forall|slot: int|
            0 <= slot < upto && conflicts_at(schedule, unavailable, quota, slot) > 0
                ==> exists|i: int|
                0 <= i < conflicted_before(schedule, unavailable, quota, upto).len()
                    && #[trigger] conflicted_before(schedule, unavailable, quota, upto)[i] as int
                    == slot,
    decreases upto,
{
    if upto > 0 {
        lemma_conflicted_before(schedule, unavailable, quota, upto - 1);
        let list = conflicted_before(schedule, unavailable, quota, upto);
        let shorter = conflicted_before(schedule, unavailable, quota, upto - 1);
        assert forall|slot: int|
            0 <= slot < upto && conflicts_at(schedule, unavailable, quota, slot) > 0 implies exists|
            i: int,
        | 0 <= i < list.len() && #[trigger] list[i] as int == slot by {
            if slot < upto - 1 {
                let i = choose|i: int| 0 <= i < shorter.len() && #[trigger] shorter[i] as int == slot;
                assert(list[i] as int == slot);
            } else {
                assert(list[list.len() - 1] as int == slot);
            }
        }
    }
}

/// The evaluator has one answer: two results that are each the evaluation
/// of the same schedule, under the same unavailability and quotas, are the
/// same, the count and the list.
pub proof fn lemma_evaluation_is_repeatable(
    schedule: Seq<i32>,
    unavailable: Seq<Seq<usize>>,
    quota: Seq<usize>,
    first: (u128, Seq<usize>),
    second: (u128, Seq<usize>),
)
    requires
        first.0 == conflict_count(schedule, unavailable, quota),
        first.1 == conflicted_slots(schedule, unavailable, quota),
        second.0 == conflict_count(schedule, unavailable, quota),
        second.1 == conflicted_slots(schedule, unavailable, quota),
    ensures
        first == second,
{
}

/// Counts the conflicts of a schedule and lists the slots that are in
/// conflict.
///
/// A slot counts once where its subject cannot be taught in it, and once
/// where its subject has, with this slot, more slots than `todos` gives it;
/// a slot where both hold counts twice, and is listed once. The count can so
/// be twice the number of slots, and is held in 128 bits for it.
pub fn get_conflict(schedule: &[i32], unavailable: &[Vec<usize>], todos: &[usize]) -> (found: (
    u128,
    Vec<usize>,
))
    requires
        is_schedule(schedule@, todos@.len() as int),
    ensures
        found.0 == conflict_count(schedule@, group_views(unavailable@), todos@),
        found.1@ == conflicted_slots(schedule@, group_views(unavailable@), todos@),
{
    let ghost groups = group_views(unavailable@);
    let n = schedule.len();
    let mut count: u128 = 0;
    let mut placed: Vec<usize> = vec![0; todos.len()];
    let mut slots: Vec<usize> = Vec::new();
    let mut z: usize = 0;
    while z < n
        invariant
            z <= n == schedule@.len(),
            groups == group_views(unavailable@),
            is_schedule(schedule@, todos@.len() as int),
            placed@.len() == todos@.len(),
            forall|s: int|
                0 <= s < todos@.len() ==> #[trigger] placed@[s] == occurrences(
                    schedule@,
                    s,
                    z as int,
                ),
            count == conflicts_before(schedule@, groups, todos@, z as int),
            count <= 2 * z,
            slots@ == conflicted_before(schedule@, groups, todos@, z as int),
        decreases n - z,
    {
        let entry = schedule[z];
        let mut conflicted = false;
        if entry != UNASSIGNED {
            let subject = entry as usize;
            if is_blocked(unavailable, subject, z) {
                count = count + 1;
                conflicted = true;
            }
            proof {
                lemma_occurrences_bounds(schedule@, subject as int, z as int, z as int);
            }
            let now = placed[subject] + 1;
            placed.set(subject, now);
            if now > todos[subject] {
                count = count + 1;
                conflicted = true;
            }
        }
        if conflicted {
            slots.push(z);
        }
        z = z + 1;
    }
    (count, slots)
}

/// Where the first `upto` slots hold no conflict, none of them is in
/// conflict.
pub proof fn lemma_no_conflict_anywhere(
    schedule: Seq<i32>,
    unavailable: Seq<Seq<usize>>,
    quota: Seq<usize>,
    upto: int,
    slot: int,
)
    requires
        0 <= slot < upto,
        conflicts_before(schedule, unavailable, quota, upto) == 0,
    ensures
        conflicts_at(schedule, unavailable, quota, slot) == 0,
    decreases upto,
{
    if slot < upto - 1 {
        lemma_no_conflict_anywhere(schedule, unavailable, quota, upto - 1, slot);
    }
}

/// In a schedule without conflicts, a subject has no more than its quota of
/// the first `upto` slots.
proof fn lemma_clean_prefix_within_quota(
    schedule: Seq<i32>,
    unavailable: Seq<Seq<usize>>,
    quota: Seq<usize>,
    subject: int,
    upto: int,
)
    requires
        conflict_count(schedule, unavailable, quota) == 0,
        0 <= subject,
        0 <= upto <= schedule.len(),
    ensures
        occurrences(schedule, subject, upto) <= quota[subject],
    decreases upto,
{
    if upto > 0 {
        lemma_clean_prefix_within_quota(schedule, unavailable, quota, subject, upto - 1);
        lemma_no_conflict_anywhere(
            schedule,
            unavailable,
            quota,
            schedule.len() as int,
            upto - 1,
        );
    }
}

/// What it means that a schedule has no conflict: no subject has a slot in
/// which it cannot be taught, and none has more slots than its quota.
pub proof fn lemma_clean_schedule(
    schedule: Seq<i32>,
    unavailable: Seq<Seq<usize>>,
    quota: Seq<usize>,
)
    requires
        conflict_count(schedule, unavailable, quota) == 0,
    ensures
        forall|slot: int|
            0 <= slot < schedule.len() && #[trigger] schedule[slot] != UNASSIGNED ==> !blocked(
                unavailable,
                schedule[slot] as int,
                slot,
            ),
        forall|subject: int|
            0 <= subject ==> #[trigger] occurrences(schedule, subject, schedule.len() as int)
                <= quota[subject],
{
    assert forall|slot: int|
        0 <= slot < schedule.len() && #[trigger] schedule[slot] != UNASSIGNED implies !blocked(
        unavailable,
        schedule[slot] as int,
        slot,
    ) by {
        lemma_no_conflict_anywhere(schedule, unavailable, quota, schedule.len() as int, slot);
    }
    assert forall|subject: int| 0 <= subject implies #[trigger] occurrences(
        schedule,
        subject,
        schedule.len() as int,
    ) <= quota[subject] by {
        lemma_clean_prefix_within_quota(
            schedule,
            unavailable,
            quota,
            subject,
            schedule.len() as int,
        );
    }
}

/// Freeing a slot ends the conflicts of that slot and starts none: the
/// first `upto` slots then hold fewer conflicts by at least those that the
/// slot held, if it is among them.
pub proof fn lemma_freeing_a_slot(
    schedule: Seq<i32>,
    unavailable: Seq<Seq<usize>>,
    quota: Seq<usize>,
    slot: int,
    upto: int,
)
    requires
        0 <= slot < schedule.len(),
        0 <= upto <= schedule.len(),
    ensures
        conflicts_before(schedule.update(slot, UNASSIGNED), unavailable, quota, upto) + (if slot
            < upto {
            conflicts_at(schedule, unavailable, quota, slot)
        } else {
            0
        }) <= conflicts_before(schedule, unavailable, quota, upto),
    decreases upto,
{
    if upto > 0 {
        lemma_freeing_a_slot(schedule, unavailable, quota, slot, upto - 1);
        if upto - 1 != slot {
            lemma_occurrences_update(
                schedule,
                slot,
                UNASSIGNED,
                schedule[upto - 1] as int,
                upto,
            );
        }
    }
}

} // verus!
