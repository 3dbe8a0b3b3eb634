//! The greedy placer.
//!
//! Subjects are placed one after the other, in priority order. Each takes
//! the earliest slots that are still free and in which it can be taught,
//! until it has as many as its quota or the cap allows. A slot that a
//! subject has taken stays with it.
use vstd::prelude::*;
use crate::basic_function::{groups_of, reconstruct_subarray, sum_lengths};
use crate::model::{
    blocked, group_views, is_blocked, is_schedule, lemma_occurrence_counts,
    lemma_occurrences_tail, lemma_occurrences_update, named, named_subjects, occurrences,
    NAMED_SUBJECTS, UNASSIGNED,
};

verus! {

/// The number of slots that a subject may take: its quota, and never more
/// than the cap.
pub open spec fn slot_limit(quota: Seq<usize>, cap: usize, subject: int) -> nat {
    if quota[subject] < cap {
        quota[subject] as nat
    } else {
        cap as nat
    }
}

/// Whether `subject` could take `slot`: the slot is free and the subject can
/// be taught in it.
pub open spec fn is_open(
    schedule: Seq<i32>,
    unavailable: Seq<Seq<usize>>,
    subject: int,
    slot: int,
) -> bool {
    schedule[slot] == UNASSIGNED && !blocked(unavailable, subject, slot)
}

/// The number of slots before `slot` that `subject` could take.
pub open spec fn open_before(
    schedule: Seq<i32>,
    unavailable: Seq<Seq<usize>>,
    subject: int,
    slot: int,
) -> nat
    decreases slot,
{
    if slot <= 0 {
        0
    } else {
        open_before(schedule, unavailable, subject, slot - 1) + if is_open(
            schedule,
            unavailable,
            subject,
            slot - 1,
        ) {
            1nat
        } else {
            0nat
        }
    }
}

/// The schedule after `subject` has taken the first `limit` slots that it
/// could take, or all of them if there are fewer.
pub open spec fn with_subject(
    schedule: Seq<i32>,
    unavailable: Seq<Seq<usize>>,
    subject: int,
    limit: nat,
) -> Seq<i32> {
    Seq::new(
        schedule.len(),
        |z: int|
            if is_open(schedule, unavailable, subject, z) && open_before(
                schedule,
                unavailable,
                subject,
                z,
            ) < limit {
                subject as i32
            } else {
                schedule[z]
            },
    )
}

/// The schedule of `total_slots` slots after the first `subjects` subjects
/// have been placed, each within [`slot_limit`].
pub open spec fn placement(
    unavailable: Seq<Seq<usize>>,
    quota: Seq<usize>,
    total_slots: nat,
    cap: usize,
    subjects: nat,
) -> Seq<i32>
    decreases subjects,
{
    if subjects == 0 {
        Seq::new(total_slots, |z: int| UNASSIGNED)
    } else {
        with_subject(
            placement(unavailable, quota, total_slots, cap, (subjects - 1) as nat),
            unavailable,
            subjects - 1,
            slot_limit(quota, cap, subjects - 1),
        )
    }
}

/// What is asked of a finished placement besides its slots: every entry is
/// a subject or [`UNASSIGNED`], no subject has a slot in which it cannot be
/// taught, and none has more slots than [`slot_limit`] gives it.
pub open spec fn is_sound_placement(
    schedule: Seq<i32>,
    unavailable: Seq<Seq<usize>>,
    quota: Seq<usize>,
    cap: usize,
    subjects: int,
) -> bool {
    &&& is_schedule(schedule, subjects)
    &&& forall|z: int|
        0 <= z < schedule.len() && #[trigger] schedule[z] != UNASSIGNED ==> !blocked(
            unavailable,
            schedule[z] as int,
            z,
        )
    &&& forall|s: int|
        0 <= s < subjects ==> #[trigger] occurrences(schedule, s, schedule.len() as int)
            <= slot_limit(quota, cap, s)
}

/// The placer has one answer: two schedules that are each the placement of
/// the same subjects, under the same quotas, cap and unavailability, into
/// the same number of slots, are the same schedule.
pub proof fn lemma_placement_is_determined(
    first: Seq<i32>,
    second: Seq<i32>,
    unavailable: Seq<Seq<usize>>,
    quota: Seq<usize>,
    total_slots: nat,
    cap: usize,
    subjects: nat,
)
    requires
        first == placement(unavailable, quota, total_slots, cap, subjects),
        second == placement(unavailable, quota, total_slots, cap, subjects),
    ensures
        first == second,
{
}

/// No slot is given twice: a slot that a subject has taken is still that
/// subject's when later subjects have been placed.
pub proof fn lemma_taken_slots_stay(
    unavailable: Seq<Seq<usize>>,
    quota: Seq<usize>,
    total_slots: nat,
    cap: usize,
    earlier: nat,
    later: nat,
    slot: int,
)
    requires
        earlier <= later,
        0 <= slot < total_slots,
    ensures
        placement(unavailable, quota, total_slots, cap, earlier).len() == total_slots,
        placement(unavailable, quota, total_slots, cap, later).len() == total_slots,
        placement(unavailable, quota, total_slots, cap, earlier)[slot] != UNASSIGNED ==> placement(
            unavailable,
            quota,
            total_slots,
            cap,
            later,
        )[slot] == placement(unavailable, quota, total_slots, cap, earlier)[slot],
    decreases later,
{
    if later > 0 {
        if earlier < later {
            lemma_taken_slots_stay(
                unavailable,
                quota,
                total_slots,
                cap,
                earlier,
                (later - 1) as nat,
                slot,
            );
        } else {
            lemma_taken_slots_stay(
                unavailable,
                quota,
                total_slots,
                cap,
                (earlier - 1) as nat,
                (later - 1) as nat,
                slot,
            );
        }
    }
}

/// A subject that may take no slot holds none: where the quota or the cap
/// is zero, no entry of a sound placement is that subject.
pub proof fn lemma_no_limit_no_slot(
    schedule: Seq<i32>,
    unavailable: Seq<Seq<usize>>,
    quota: Seq<usize>,
    cap: usize,
    subjects: int,
    subject: int,
    slot: int,
)
    requires
        is_sound_placement(schedule, unavailable, quota, cap, subjects),
        0 <= subject < subjects,
        slot_limit(quota, cap, subject) == 0,
        0 <= slot < schedule.len(),
    ensures
        schedule[slot] as int != subject,
{
    if schedule[slot] as int == subject {
        lemma_occurrence_counts(schedule, subject, slot, schedule.len() as int);
    }
}

/// The count of [`open_before`] does not fall from a slot to a later one.
proof fn lemma_open_before_monotone(
    schedule: Seq<i32>,
    unavailable: Seq<Seq<usize>>,
    subject: int,
    slot: int,
    later: int,
)
    requires
        0 <= slot <= later,
    ensures
        open_before(schedule, unavailable, subject, slot) <= open_before(
            schedule,
            unavailable,
            subject,
            later,
        ),
    decreases later - slot,
{
    if slot < later {
        lemma_open_before_monotone(schedule, unavailable, subject, slot, later - 1);
    }
}

/// Lets `subject` take the first `limit` slots that it can take.
fn place_subject(
    schedule: &mut Vec<i32>,
    subject: usize,
    limit: usize,
    unavailable: &[Vec<usize>],
)
    requires
        subject <= 0x7FFF_FFFF,
        is_schedule(old(schedule)@, subject as int),
    ensures
        final(schedule)@ == with_subject(
            old(schedule)@,
            group_views(unavailable@),
            subject as int,
            limit as nat,
        ),
        is_schedule(final(schedule)@, subject + 1),
        forall|z: int|
            0 <= z < old(schedule)@.len() ==> #[trigger] final(schedule)@[z] == old(schedule)@[z]
                || (old(schedule)@[z] == UNASSIGNED && final(schedule)@[z] == subject && !blocked(
                group_views(unavailable@),
                subject as int,
                z,
            )),
        occurrences(final(schedule)@, subject as int, old(schedule)@.len() as int) <= limit,
        forall|s: int|
            0 <= s < subject ==> occurrences(final(schedule)@, s, old(schedule)@.len() as int)
                == occurrences(old(schedule)@, s, old(schedule)@.len() as int),
{
    let ghost before = schedule@;
    let ghost groups = group_views(unavailable@);
    let n = schedule.len();
    let mut taken: usize = 0;
    let mut z: usize = 0;
    while z < n && taken < limit
        invariant
            z <= n == before.len() == schedule@.len(),
            subject <= 0x7FFF_FFFF,
            groups == group_views(unavailable@),
            is_schedule(before, subject as int),
            taken <= limit,
            taken == open_before(before, groups, subject as int, z as int),
            taken == occurrences(schedule@, subject as int, z as int),
            forall|t: int|
                0 <= t < z ==> schedule@[t] == with_subject(
                    before,
                    groups,
                    subject as int,
                    limit as nat,
                )[t],
            forall|t: int| z <= t < n ==> schedule@[t] == before[t],
            forall|s: int|
                0 <= s < subject ==> occurrences(schedule@, s, n as int) == occurrences(
                    before,
                    s,
                    n as int,
                ),
        decreases n - z,
    {
        if schedule[z] == UNASSIGNED && !is_blocked(unavailable, subject, z) {
            let ghost earlier = schedule@;
            schedule.set(z, subject as i32);
            taken = taken + 1;
            proof {
                lemma_occurrences_update(
                    earlier,
                    z as int,
                    subject as i32,
                    subject as int,
                    z as int + 1,
                );
                assert forall|s: int| 0 <= s < subject implies occurrences(schedule@, s, n as int)
                    == occurrences(before, s, n as int) by {
                    lemma_occurrences_update(earlier, z as int, subject as i32, s, n as int);
                }
            }
        }
        z = z + 1;
    }
    proof {
        let after = with_subject(before, groups, subject as int, limit as nat);
        assert forall|t: int| z <= t < n implies schedule@[t] == after[t] by {
            lemma_open_before_monotone(before, groups, subject as int, z as int, t);
        }
        assert(schedule@ =~= after);
        lemma_occurrences_tail(schedule@, subject as int, z as int, n as int);
    }
}

/// Places the subjects into a week of `total_slots` slots.
///
/// Subject `s` may take up to `slot_quota[s]` slots, and never more than
/// `max_slots_per_subject`; `unavailable[s]`, where the list has it, holds
/// the slots in which it cannot be taught. The subjects are placed in the
/// order of their positions, each into the earliest slots that are free and
/// in which it can be taught. A subject that finds too few of them gets
/// fewer slots; that is no failure. A schedule can name no more than
/// [`NAMED_SUBJECTS`] subjects; those beyond get no slot.
pub fn greedy_schedule(
    subject_count: usize,
    slot_quota: &[usize],
    total_slots: usize,
    max_slots_per_subject: usize,
    unavailable: &[Vec<usize>],
) -> (schedule: Vec<i32>)
    requires
        subject_count <= slot_quota@.len(),
    ensures
        schedule@ == placement(
            group_views(unavailable@),
            slot_quota@,
            total_slots as nat,
            max_slots_per_subject,
            named(subject_count) as nat,
        ),
        schedule@.len() == total_slots,
        is_sound_placement(
            schedule@,
            group_views(unavailable@),
            slot_quota@,
            max_slots_per_subject,
            subject_count as int,
        ),
{
    let ghost groups = group_views(unavailable@);
    let mut schedule: Vec<i32> = vec![UNASSIGNED; total_slots];
    let subjects = named_subjects(subject_count);
    let mut subject: usize = 0;
    while subject < subjects
        invariant
            subject <= subjects <= slot_quota@.len(),
            subjects <= NAMED_SUBJECTS,
            groups == group_views(unavailable@),
            schedule@.len() == total_slots,
            schedule@ == placement(
                groups,
                slot_quota@,
                total_slots as nat,
                max_slots_per_subject,
                subject as nat,
            ),
            is_sound_placement(
                schedule@,
                groups,
                slot_quota@,
                max_slots_per_subject,
                subject as int,
            ),
        decreases subjects - subject,
    {
        let quota = slot_quota[subject];
        let limit = if quota < max_slots_per_subject {
            quota
        } else {
            max_slots_per_subject
        };
        place_subject(&mut schedule, subject, limit, unavailable);
        subject = subject + 1;
    }
    proof {
        assert forall|s: int| 0 <= s < subject_count implies #[trigger] occurrences(
            schedule@,
            s,
            schedule@.len() as int,
        ) <= slot_limit(slot_quota@, max_slots_per_subject, s) by {
            if s >= subjects {
                lemma_occurrences_tail(schedule@, s, 0, schedule@.len() as int);
            }
        }
    }
    schedule
}

/// The number of slots that `hours` hours make, rounded down. No hours make
/// no slots. A slot lasts `slot_minutes / 60` whole hours; one of less than
/// an hour lasts none, and then any hours at all set no limit to the number
/// of slots.
pub open spec fn slots_in(hours: u32, slot_minutes: u32) -> usize {
    if hours == 0 {
        0
    } else if slot_minutes / 60 == 0 {
        usize::MAX
    } else {
        (hours / (slot_minutes / 60)) as usize
    }
}

/// The slots that each subject's hours make.
pub open spec fn slot_quotas(hours: Seq<u32>, slot_minutes: u32) -> Seq<usize> {
    Seq::new(hours.len(), |s: int| slots_in(hours[s], slot_minutes))
}

/// Turns hours into slots of `slot_minutes` minutes, as [`slots_in`] says.
pub fn slots_for_hours(hours: u32, slot_minutes: u32) -> (slots: usize)
    ensures
        slots == slots_in(hours, slot_minutes),
{
    let slot_hours: u32 = slot_minutes / 60;
    if hours == 0 {
        0
    } else if slot_hours == 0 {
        usize::MAX
    } else {
        (hours / slot_hours) as usize
    }
}

/// Turns the hours of every subject into slots.
pub fn quotas_for_hours(hours: &[u32], slot_minutes: u32) -> (quotas: Vec<usize>)
    ensures
        quotas@ == slot_quotas(hours@, slot_minutes),
{
    let mut quotas: Vec<usize> = Vec::new();
    let mut s: usize = 0;
    while s < hours.len()
        invariant
            s <= hours@.len(),
            quotas@.len() == s,
            forall|t: int| 0 <= t < s ==> quotas@[t] == slots_in(hours@[t], slot_minutes),
        decreases hours@.len() - s,
    {
        quotas.push(slots_for_hours(hours[s], slot_minutes));
        s = s + 1;
    }
    quotas
}

/// Plans a week of `total_slot` slots by greedy placement, from hours and
/// flat buffers.
///
/// `todo[s]` gives the hours that subject `s` is to be taught this week and
/// `max_hours` the hours that one subject may have at most; both are turned
/// into slots of `slot_minutes` minutes as [`slots_in`] says. `unavailable`
/// holds, group after group, the slots in which the subjects cannot be
/// taught, and `unavailable_sub` the length of each group, which together
/// must use `unavailable` up. The result is that of [`greedy_schedule`]. A
/// subject with no hours to do gets no slot.
pub fn generate_greedy_planning(
    total_slot: usize,
    max_hours: u32,
    slot_minutes: u32,
    subject_count: usize,
    todo: &[u32],
    unavailable: &[usize],
    unavailable_sub: &[usize],
) -> (schedule: Vec<i32>)
    requires
        subject_count <= todo@.len(),
        sum_lengths(unavailable_sub@) == unavailable@.len(),
    ensures
        schedule@ == placement(
            groups_of(unavailable@, unavailable_sub@),
            slot_quotas(todo@, slot_minutes),
            total_slot as nat,
            slots_in(max_hours, slot_minutes),
            named(subject_count) as nat,
        ),
        schedule@.len() == total_slot,
        is_sound_placement(
            schedule@,
            groups_of(unavailable@, unavailable_sub@),
            slot_quotas(todo@, slot_minutes),
            slots_in(max_hours, slot_minutes),
            subject_count as int,
        ),
        forall|z: int|
            0 <= z < total_slot && #[trigger] schedule@[z] != UNASSIGNED ==> todo@[schedule@[z] as int]
                != 0,
{
    let groups = reconstruct_subarray(unavailable, unavailable_sub);
    let quotas = quotas_for_hours(todo, slot_minutes);
    let max_slots = slots_for_hours(max_hours, slot_minutes);
    let schedule = greedy_schedule(
        subject_count,
        quotas.as_slice(),
        total_slot,
        max_slots,
        groups.as_slice(),
    );
    proof {
        assert forall|z: int|
            0 <= z < total_slot && #[trigger] schedule@[z] != UNASSIGNED implies todo@[schedule@[z] as int]
            != 0 by {
            if todo@[schedule@[z] as int] == 0 {
                lemma_no_limit_no_slot(
                    schedule@,
                    groups_of(unavailable@, unavailable_sub@),
                    quotas@,
                    max_slots,
                    subject_count as int,
                    schedule@[z] as int,
                    z,
                );
            }
        }
    }
    schedule
}

} // verus!
