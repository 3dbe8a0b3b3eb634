//! The whole pipeline: hours, greedy placement, repair.
use rand::rngs::StdRng;
use vstd::prelude::*;
use crate::allocation::{calculate_weekly_subject_hours, week_of, Week};
use crate::basic_function::{groups_of, reconstruct_subarray, sum_lengths};
use crate::greedy::{
    greedy_schedule, is_sound_placement, lemma_no_limit_no_slot, placement, quotas_for_hours,
    slot_limit, slot_quotas, slots_for_hours, slots_in,
};
use crate::conflicts::{conflict_count, conflicts_before};
use crate::minconflicts::{min_conflict_schedule, REPAIR_ROUNDS};
use crate::model::{lemma_occurrences_bounds, named, occurrences, UNASSIGNED};

verus! {

/// The most hours that the pipeline gives one subject in a week.
pub const WEEKLY_CAP_PER_SUBJECT: u32 = 8;

/// The hours of the week of every subject, as a list.
pub open spec fn allocated(week: Week) -> Seq<u32> {
    Seq::new(week.total.len(), |i: int| week.hours(i) as u32)
}

/// A placement that is sound has no conflict in its first `upto` slots.
proof fn lemma_sound_prefix_is_clean(
    schedule: Seq<i32>,
    unavailable: Seq<Seq<usize>>,
    quota: Seq<usize>,
    cap: usize,
    subjects: int,
    upto: int,
)
    requires
        is_sound_placement(schedule, unavailable, quota, cap, subjects),
        0 <= upto <= schedule.len(),
    ensures
        conflicts_before(schedule, unavailable, quota, upto) == 0,
    decreases upto,
{
    if upto > 0 {
        lemma_sound_prefix_is_clean(schedule, unavailable, quota, cap, subjects, upto - 1);
        let subject = schedule[upto - 1] as int;
        lemma_occurrences_bounds(schedule, subject, upto, schedule.len() as int);
        if 0 <= subject {
            assert(occurrences(schedule, subject, upto) <= slot_limit(quota, cap, subject));
        }
    }
}

/// What the greedy placer makes has no conflict with the quotas and the
/// unavailability that it was made for: every placement that is sound is
/// free of conflicts.
pub proof fn lemma_sound_placement_is_clean(
    schedule: Seq<i32>,
    unavailable: Seq<Seq<usize>>,
    quota: Seq<usize>,
    cap: usize,
    subjects: int,
)
    requires
        is_sound_placement(schedule, unavailable, quota, cap, subjects),
    ensures
        conflict_count(schedule, unavailable, quota) == 0,
{
    lemma_sound_prefix_is_clean(
        schedule,
        unavailable,
        quota,
        cap,
        subjects,
        schedule.len() as int,
    );
}

/// Plans a week of `total_slot` slots from the hours of the term.
///
/// The hours of the week are shared out by
/// [`calculate_weekly_subject_hours`], with [`WEEKLY_CAP_PER_SUBJECT`] as the
/// cap, and turned into slots of `slot_minutes` minutes; so is
/// `max_weekly_hours`, which then caps the slots of one subject. The
/// subjects are placed by [`greedy_schedule`], and the placement goes through
/// [`REPAIR_ROUNDS`] rounds of repair. A greedy placement has no conflict
/// with the quotas it was made for, so the repair finds nothing to change
/// and draws no number: the result is the greedy placement. A subject that
/// has had all its hours is given none, and so no slot.
pub fn generate_greedy_mc_planning(
    total_slot: usize,
    max_weekly_hours: u32,
    slot_minutes: u32,
    subject_count: usize,
    unavailable: &[usize],
    unavailable_sub: &[usize],
    hours_done: &[u32],
    total_hours: &[u32],
    rng: &mut StdRng,
) -> (schedule: Vec<i32>)
    requires
        subject_count == total_hours@.len(),
        subject_count == hours_done@.len(),
        sum_lengths(unavailable_sub@) == unavailable@.len(),
    ensures
        schedule@ == placement(
            groups_of(unavailable@, unavailable_sub@),
            slot_quotas(
                allocated(
                    week_of(total_hours@, hours_done@, max_weekly_hours, WEEKLY_CAP_PER_SUBJECT),
                ),
                slot_minutes,
            ),
            total_slot as nat,
            slots_in(max_weekly_hours, slot_minutes),
            named(subject_count) as nat,
        ),
        schedule@.len() == total_slot,
        is_sound_placement(
            schedule@,
            groups_of(unavailable@, unavailable_sub@),
            slot_quotas(
                allocated(
                    week_of(total_hours@, hours_done@, max_weekly_hours, WEEKLY_CAP_PER_SUBJECT),
                ),
                slot_minutes,
            ),
            slots_in(max_weekly_hours, slot_minutes),
            subject_count as int,
        ),
        forall|z: int|
            0 <= z < total_slot && #[trigger] schedule@[z] != UNASSIGNED
                ==> hours_done@[schedule@[z] as int] < total_hours@[schedule@[z] as int],
{
    let max_slot = slots_for_hours(max_weekly_hours, slot_minutes);
    let groups = reconstruct_subarray(unavailable, unavailable_sub);
    let todos = calculate_weekly_subject_hours(
        subject_count,
        total_hours,
        hours_done,
        max_weekly_hours,
        WEEKLY_CAP_PER_SUBJECT,
    );
    assert(todos@ =~= allocated(
        week_of(total_hours@, hours_done@, max_weekly_hours, WEEKLY_CAP_PER_SUBJECT),
    ));
    let slot_todo = quotas_for_hours(todos.as_slice(), slot_minutes);
    let placed = greedy_schedule(
        subject_count,
        slot_todo.as_slice(),
        total_slot,
        max_slot,
        groups.as_slice(),
    );
    proof {
        lemma_sound_placement_is_clean(
            placed@,
            groups_of(unavailable@, unavailable_sub@),
            slot_todo@,
            max_slot,
            subject_count as int,
        );
    }
    let schedule = min_conflict_schedule(
        placed,
        subject_count,
        groups.as_slice(),
        slot_todo.as_slice(),
        REPAIR_ROUNDS,
        false,
        rng,
    );
    proof {
        assert forall|z: int|
            0 <= z < total_slot && #[trigger] schedule@[z] != UNASSIGNED implies hours_done@[schedule@[z] as int]
            < total_hours@[schedule@[z] as int] by {
            let s = schedule@[z] as int;
            if hours_done@[s] >= total_hours@[s] {
                assert(todos@[s] == 0);
                lemma_no_limit_no_slot(
                    schedule@,
                    groups_of(unavailable@, unavailable_sub@),
                    slot_todo@,
                    max_slot,
                    subject_count as int,
                    s,
                    z,
                );
            }
        }
    }
    schedule
}

} // verus!
