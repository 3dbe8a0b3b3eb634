//! The min-conflicts repair.
//!
//! A round of repair picks a slot that is in conflict, at random, and gives
//! it the entry that leaves the fewest conflicts; among several such entries
//! it picks at random. The repair makes a fixed number of rounds. Freeing a
//! slot always ends its conflicts, so every round that finds a conflict
//! leaves fewer of them.
use rand::rngs::StdRng;
use vstd::prelude::*;
use crate::basic_function::{groups_of, reconstruct_subarray, sum_lengths};
use crate::conflicts::{
    conflict_count, conflicted_slots, conflicts_at, get_conflict, lemma_clean_schedule,
    lemma_conflicted_before, lemma_freeing_a_slot,
};
use crate::greedy::{quotas_for_hours, slot_quotas};
use crate::model::{
    group_views, is_schedule, lemma_occurrence_counts, named, named_subjects, NAMED_SUBJECTS,
    UNASSIGNED,
};
use crate::random::random_below;

verus! {

/// The `c`-th entry that the repair tries for a slot: the subjects in their
/// order, and after the last of them [`UNASSIGNED`].
pub open spec fn candidate(subject_count: int, c: int) -> i32 {
    if c < subject_count {
        c as i32
    } else {
        UNASSIGNED
    }
}

/// The number of conflicts of the schedule with `entry` in `slot` and all
/// other slots as they are.
pub open spec fn count_with(
    schedule: Seq<i32>,
    unavailable: Seq<Seq<usize>>,
    quota: Seq<usize>,
    slot: int,
    entry: i32,
) -> nat {
    conflict_count(schedule.update(slot, entry), unavailable, quota)
}

/// The least number of conflicts that one of the first `upto` candidates
/// leaves, `upto` being at least one.
pub open spec fn least_count(
    schedule: Seq<i32>,
    unavailable: Seq<Seq<usize>>,
    quota: Seq<usize>,
    subject_count: int,
    slot: int,
    upto: int,
) -> nat
    decreases upto,
{
    let last = count_with(schedule, unavailable, quota, slot, candidate(subject_count, upto - 1));
    if upto <= 1 {
        last
    } else {
        let others = least_count(schedule, unavailable, quota, subject_count, slot, upto - 1);
        if last < others {
            last
        } else {
            others
        }
    }
}

/// The least number of conflicts that any entry in `slot` leaves.
pub open spec fn least_conflicts(
    schedule: Seq<i32>,
    unavailable: Seq<Seq<usize>>,
    quota: Seq<usize>,
    subject_count: int,
    slot: int,
) -> nat {
    least_count(schedule, unavailable, quota, subject_count, slot, subject_count + 1)
}

/// Those of the first `upto` candidates that leave exactly `count`
/// conflicts, in their order.
pub open spec fn ties_before(
    schedule: Seq<i32>,
    unavailable: Seq<Seq<usize>>,
    quota: Seq<usize>,
    subject_count: int,
    slot: int,
    count: nat,
    upto: int,
) -> Seq<i32>
    decreases upto,
{
    if upto <= 0 {
        Seq::empty()
    } else {
        let others = ties_before(schedule, unavailable, quota, subject_count, slot, count, upto - 1);
        let entry = candidate(subject_count, upto - 1);
        if count_with(schedule, unavailable, quota, slot, entry) == count {
            others.push(entry)
        } else {
            others
        }
    }
}

/// The entries that leave the fewest conflicts when put in `slot`: the
/// subjects among them in their order, then [`UNASSIGNED`] if it is one.
pub open spec fn tied_values(
    schedule: Seq<i32>,
    unavailable: Seq<Seq<usize>>,
    quota: Seq<usize>,
    subject_count: int,
    slot: int,
) -> Seq<i32> {
    ties_before(
        schedule,
        unavailable,
        quota,
        subject_count,
        slot,
        least_conflicts(schedule, unavailable, quota, subject_count, slot),
        subject_count + 1,
    )
}

/// No candidate among the first `upto` leaves fewer conflicts than
/// [`least_count`] says.
pub proof fn lemma_least_count_is_least(
    schedule: Seq<i32>,
    unavailable: Seq<Seq<usize>>,
    quota: Seq<usize>,
    subject_count: int,
    slot: int,
    upto: int,
    c: int,
)
    requires
        0 <= c < upto,
    ensures
        least_count(schedule, unavailable, quota, subject_count, slot, upto) <= count_with(
            schedule,
            unavailable,
            quota,
            slot,
            candidate(subject_count, c),
        ),
    decreases upto,
{
    if c < upto - 1 {
        lemma_least_count_is_least(schedule, unavailable, quota, subject_count, slot, upto - 1, c);
    }
}

/// The list of [`ties_before`] holds candidates that leave `count`
/// conflicts; it is empty where `count` is less than the least that any of
/// them leaves, and not empty where it is that least.
pub proof fn lemma_ties_before(
    schedule: Seq<i32>,
    unavailable: Seq<Seq<usize>>,
    quota: Seq<usize>,
    subject_count: int,
    slot: int,
    count: nat,
    upto: int,
)
    requires
        0 <= upto <= subject_count + 1,
        subject_count <= NAMED_SUBJECTS,
    ensures
        forall|t: int|
            0 <= t < ties_before(
                schedule,
                unavailable,
                quota,
                subject_count,
                slot,
                count,
                upto,
            ).len() ==> {
                let entry = #[trigger] ties_before(
                    schedule,
                    unavailable,
                    quota,
                    subject_count,
                    slot,
                    count,
                    upto,
                )[t];
                UNASSIGNED <= entry < subject_count && count_with(
                    schedule,
                    unavailable,
                    quota,
                    slot,
                    entry,
                ) == count
            },
        upto >= 1 && count < least_count(schedule, unavailable, quota, subject_count, slot, upto)
            ==> ties_before(schedule, unavailable, quota, subject_count, slot, count, upto).len()
            == 0,
        upto >= 1 && count == least_count(schedule, unavailable, quota, subject_count, slot, upto)
            ==> ties_before(schedule, unavailable, quota, subject_count, slot, count, upto).len()
            > 0,
    decreases upto,
{
    if upto > 0 {
        lemma_ties_before(schedule, unavailable, quota, subject_count, slot, count, upto - 1);
        let ties = ties_before(schedule, unavailable, quota, subject_count, slot, count, upto);
        let others = ties_before(schedule, unavailable, quota, subject_count, slot, count, upto - 1);
        let entry = candidate(subject_count, upto - 1);
        assert forall|t: int| 0 <= t < ties.len() implies UNASSIGNED <= #[trigger] ties[t]
            < subject_count && count_with(schedule, unavailable, quota, slot, ties[t]) == count by {
            if t < others.len() {
                assert(ties[t] == others[t]);
            } else {
                assert(ties[t] == entry);
            }
        }
    }
}

/// The entry that a number stands for: a number below `subject_count` is
/// that subject, and `subject_count` itself is [`UNASSIGNED`]. It turns a
/// number drawn, or the place of an entry among those tried, into the entry.
pub fn entry_for_draw(draw: usize, subject_count: usize) -> (entry: i32)
    requires
        draw <= subject_count,
        subject_count <= NAMED_SUBJECTS,
    ensures
        entry == candidate(subject_count as int, draw as int),
{
    if draw < subject_count {
        draw as i32
    } else {
        UNASSIGNED
    }
}

/// Finds the entries that leave the fewest conflicts when put in `slot`.
///
/// Every subject that a schedule can name is tried, in order, and then
/// [`UNASSIGNED`]; the schedule is evaluated with each, all other slots as
/// they are. The result lists
/// the entries that leave the fewest conflicts, in the order in which they
/// were tried. It is never empty, and what it holds leaves no more conflicts
/// than the schedule has now.
pub fn best_values(
    schedule: &Vec<i32>,
    slot: usize,
    subject_count: usize,
    unavailable: &[Vec<usize>],
    todos: &[usize],
) -> (tied: Vec<i32>)
    requires
        slot < schedule@.len(),
        is_schedule(schedule@, subject_count as int),
        subject_count <= todos@.len(),
    ensures
        tied@ == tied_values(
            schedule@,
            group_views(unavailable@),
            todos@,
            named(subject_count) as int,
            slot as int,
        ),
        tied@.len() > 0,
        forall|t: int|
            0 <= t < tied@.len() ==> UNASSIGNED <= #[trigger] tied@[t] < subject_count
                && count_with(schedule@, group_views(unavailable@), todos@, slot as int, tied@[t])
                == least_conflicts(
                schedule@,
                group_views(unavailable@),
                todos@,
                named(subject_count) as int,
                slot as int,
            ),
        least_conflicts(
            schedule@,
            group_views(unavailable@),
            todos@,
            named(subject_count) as int,
            slot as int,
        ) <= conflict_count(schedule@, group_views(unavailable@), todos@),
{
    let ghost groups = group_views(unavailable@);
    let subjects = named_subjects(subject_count);
    let ghost n = subjects as int;
    let mut trial = schedule.clone();
    let mut best: u128 = 0;
    let mut tied: Vec<i32> = Vec::new();
    let mut c: usize = 0;
    while c <= subjects
        invariant
            c <= subjects + 1,
            n == subjects <= todos@.len(),
            subjects <= NAMED_SUBJECTS,
            groups == group_views(unavailable@),
            slot < schedule@.len() == trial@.len(),
            is_schedule(schedule@, n),
            forall|z: int| 0 <= z < trial@.len() && z != slot ==> trial@[z] == schedule@[z],
            c > 0 ==> best == least_count(schedule@, groups, todos@, n, slot as int, c as int),
            c > 0 ==> tied@ == ties_before(
                schedule@,
                groups,
                todos@,
                n,
                slot as int,
                best as nat,
                c as int,
            ),
        decreases subjects + 1 - c,
    {
        let entry = entry_for_draw(c, subjects);
        trial.set(slot, entry);
        assert(trial@ =~= schedule@.update(slot as int, entry));
        let (count, _) = get_conflict(trial.as_slice(), unavailable, todos);
        if c == 0 || count < best {
            proof {
                lemma_ties_before(schedule@, groups, todos@, n, slot as int, count as nat, c as int);
                assert(ties_before(schedule@, groups, todos@, n, slot as int, count as nat, c as int)
                    =~= Seq::<i32>::empty());
            }
            best = count;
            tied = vec![entry];
        } else if count == best {
            tied.push(entry);
        }
        c = c + 1;
    }
    proof {
        lemma_ties_before(schedule@, groups, todos@, n, slot as int, best as nat, n + 1);
        let now = schedule@[slot as int];
        let c_now = if now == UNASSIGNED {
            n
        } else {
            now as int
        };
        assert(schedule@.update(slot as int, now) =~= schedule@);
        lemma_least_count_is_least(schedule@, groups, todos@, n, slot as int, n + 1, c_now);
    }
    tied
}

/// The rounds that the planners let the repair run.
pub const REPAIR_ROUNDS: u32 = 1000;

/// Whether the repair may pick the `i`-th of the slots in conflict and give
/// it the `t`-th of the entries that suit it best.
pub open spec fn is_choice(
    before: Seq<i32>,
    unavailable: Seq<Seq<usize>>,
    quota: Seq<usize>,
    subject_count: int,
    i: int,
    t: int,
) -> bool {
    let slots = conflicted_slots(before, unavailable, quota);
    0 <= i < slots.len() && 0 <= t < tied_values(
        before,
        unavailable,
        quota,
        subject_count,
        slots[i] as int,
    ).len()
}

/// The schedule after that choice.
pub open spec fn repaired(
    before: Seq<i32>,
    unavailable: Seq<Seq<usize>>,
    quota: Seq<usize>,
    subject_count: int,
    i: int,
    t: int,
) -> Seq<i32> {
    let slot = conflicted_slots(before, unavailable, quota)[i] as int;
    before.update(slot, tied_values(before, unavailable, quota, subject_count, slot)[t])
}

/// Whether one round of repair can turn `before` into `after`. A schedule
/// without conflicts stays as it is. In any other, one of the slots in
/// conflict gets one of the entries that leave the fewest conflicts.
pub open spec fn is_repair_step(
    before: Seq<i32>,
    after: Seq<i32>,
    unavailable: Seq<Seq<usize>>,
    quota: Seq<usize>,
    subject_count: int,
) -> bool {
    if conflict_count(before, unavailable, quota) == 0 {
        after == before
    } else {
        exists|i: int, t: int|
            is_choice(before, unavailable, quota, subject_count, i, t) && after == #[trigger] repaired(
                before,
                unavailable,
                quota,
                subject_count,
                i,
                t,
            )
    }
}

/// Whether `rounds` rounds of repair can turn `before` into `after`.
pub open spec fn repairs_to(
    before: Seq<i32>,
    after: Seq<i32>,
    unavailable: Seq<Seq<usize>>,
    quota: Seq<usize>,
    subject_count: int,
    rounds: nat,
) -> bool
    decreases rounds,
{
    if rounds == 0 {
        after == before
    } else {
        exists|last: Seq<i32>|
            repairs_to(before, last, unavailable, quota, subject_count, (rounds - 1) as nat)
                && #[trigger] is_repair_step(last, after, unavailable, quota, subject_count)
    }
}

/// A round of repair keeps the length of a schedule and leaves it a
/// schedule. It never adds to the number of conflicts, and where there is a
/// conflict it leaves fewer than it found.
pub proof fn lemma_repair_step_helps(
    before: Seq<i32>,
    after: Seq<i32>,
    unavailable: Seq<Seq<usize>>,
    quota: Seq<usize>,
    subject_count: int,
)
    requires
        is_schedule(before, subject_count),
        0 <= subject_count <= NAMED_SUBJECTS,
        before.len() <= usize::MAX,
        is_repair_step(before, after, unavailable, quota, subject_count),
    ensures
        after.len() == before.len(),
        is_schedule(after, subject_count),
        conflict_count(after, unavailable, quota) <= conflict_count(before, unavailable, quota),
        conflict_count(before, unavailable, quota) > 0 ==> conflict_count(
            after,
            unavailable,
            quota,
        ) < conflict_count(before, unavailable, quota),
{
    if conflict_count(before, unavailable, quota) != 0 {
        let (i, t) = choose|i: int, t: int|
            is_choice(before, unavailable, quota, subject_count, i, t) && after == #[trigger] repaired(
                before,
                unavailable,
                quota,
                subject_count,
                i,
                t,
            );
        lemma_conflicted_before(before, unavailable, quota, before.len() as int);
        let slot = conflicted_slots(before, unavailable, quota)[i] as int;
        let least = least_conflicts(before, unavailable, quota, subject_count, slot);
        lemma_ties_before(
            before,
            unavailable,
            quota,
            subject_count,
            slot,
            least,
            subject_count + 1,
        );
        lemma_least_count_is_least(
            before,
            unavailable,
            quota,
            subject_count,
            slot,
            subject_count + 1,
            subject_count,
        );
        lemma_freeing_a_slot(before, unavailable, quota, slot, before.len() as int);
        assert(conflicts_at(before, unavailable, quota, slot) > 0);
        assert(least <= count_with(before, unavailable, quota, slot, UNASSIGNED));
    }
}

/// However many rounds of repair a schedule goes through, it keeps its
/// length, stays a schedule and gains no conflict; one without conflicts
/// comes out as it went in. Every round ends at least one conflict while
/// there is one, so as many rounds as the schedule has conflicts leave none.
pub proof fn lemma_repair_helps(
    before: Seq<i32>,
    after: Seq<i32>,
    unavailable: Seq<Seq<usize>>,
    quota: Seq<usize>,
    subject_count: int,
    rounds: nat,
)
    requires
        is_schedule(before, subject_count),
        0 <= subject_count <= NAMED_SUBJECTS,
        before.len() <= usize::MAX,
        repairs_to(before, after, unavailable, quota, subject_count, rounds),
    ensures
        after.len() == before.len(),
        is_schedule(after, subject_count),
        conflict_count(after, unavailable, quota) <= conflict_count(before, unavailable, quota),
        conflict_count(before, unavailable, quota) == 0 ==> after == before,
        conflict_count(after, unavailable, quota) == 0 || conflict_count(
            after,
            unavailable,
            quota,
        ) + rounds <= conflict_count(before, unavailable, quota),
    decreases rounds,
{
    if rounds > 0 {
        let last = choose|last: Seq<i32>|
            repairs_to(before, last, unavailable, quota, subject_count, (rounds - 1) as nat)
                && #[trigger] is_repair_step(last, after, unavailable, quota, subject_count);
        lemma_repair_helps(before, last, unavailable, quota, subject_count, (rounds - 1) as nat);
        lemma_repair_step_helps(last, after, unavailable, quota, subject_count);
    }
}

/// A round after `rounds` rounds makes `rounds + 1` rounds.
pub proof fn lemma_one_more_round(
    before: Seq<i32>,
    last: Seq<i32>,
    after: Seq<i32>,
    unavailable: Seq<Seq<usize>>,
    quota: Seq<usize>,
    subject_count: int,
    rounds: nat,
)
    requires
        repairs_to(before, last, unavailable, quota, subject_count, rounds),
        is_repair_step(last, after, unavailable, quota, subject_count),
    ensures
        repairs_to(before, after, unavailable, quota, subject_count, rounds + 1),
{
}

/// A schedule without conflicts is what any number of rounds makes of it.
pub proof fn lemma_clean_stays(
    schedule: Seq<i32>,
    unavailable: Seq<Seq<usize>>,
    quota: Seq<usize>,
    subject_count: int,
    rounds: nat,
)
    requires
        conflict_count(schedule, unavailable, quota) == 0,
    ensures
        repairs_to(schedule, schedule, unavailable, quota, subject_count, rounds),
    decreases rounds,
{
    if rounds > 0 {
        lemma_clean_stays(schedule, unavailable, quota, subject_count, (rounds - 1) as nat);
        lemma_one_more_round(
            schedule,
            schedule,
            schedule,
            unavailable,
            quota,
            subject_count,
            (rounds - 1) as nat,
        );
    }
}

/// Once the repair has made a schedule free of conflicts, further rounds
/// leave it as it is.
pub proof fn lemma_more_rounds_when_clean(
    before: Seq<i32>,
    after: Seq<i32>,
    unavailable: Seq<Seq<usize>>,
    quota: Seq<usize>,
    subject_count: int,
    rounds: nat,
    more: nat,
)
    requires
        repairs_to(before, after, unavailable, quota, subject_count, rounds),
        conflict_count(after, unavailable, quota) == 0,
    ensures
        repairs_to(before, after, unavailable, quota, subject_count, rounds + more),
    decreases more,
{
    if more > 0 {
        lemma_more_rounds_when_clean(
            before,
            after,
            unavailable,
            quota,
            subject_count,
            rounds,
            (more - 1) as nat,
        );
        lemma_one_more_round(
            before,
            after,
            after,
            unavailable,
            quota,
            subject_count,
            (rounds + more - 1) as nat,
        );
    }
}

/// One round of repair.
///
/// The schedule is evaluated. If it has no conflict, it stays as it is and
/// nothing is drawn. Otherwise one of the slots in conflict is drawn, and
/// from the entries that [`best_values`] finds for it one is drawn and put
/// in the slot. The result tells whether the schedule was free of conflicts.
///
/// The slot is drawn from the list of the slots in conflict, by an index
/// below the length of that list, and not by one below the number of
/// conflicts: a slot with two conflicts stands in the list once and is as
/// likely to be drawn as any other, and every draw names a slot of the list.
/// Where several entries leave the fewest conflicts, each is as likely as
/// any other. The slot's present entry is among those tried, so the entry
/// drawn never leaves more conflicts than there were.
pub fn repair_round(
    schedule: &mut Vec<i32>,
    subject_count: usize,
    unavailable: &[Vec<usize>],
    todos: &[usize],
    rng: &mut StdRng,
) -> (clean: bool)
    requires
        is_schedule(old(schedule)@, subject_count as int),
        subject_count <= todos@.len(),
    ensures
        is_repair_step(
            old(schedule)@,
            final(schedule)@,
            group_views(unavailable@),
            todos@,
            named(subject_count) as int,
        ),
        clean == (conflict_count(old(schedule)@, group_views(unavailable@), todos@) == 0),
        final(schedule)@.len() == old(schedule)@.len(),
        is_schedule(final(schedule)@, subject_count as int),
        !clean ==> conflict_count(final(schedule)@, group_views(unavailable@), todos@)
            < conflict_count(old(schedule)@, group_views(unavailable@), todos@),
{
    let ghost groups = group_views(unavailable@);
    let ghost before = schedule@;
    let (count, slots) = get_conflict(schedule.as_slice(), unavailable, todos);
    if count == 0 {
        return true;
    }
    proof {
        assert(before.len() == schedule.len());
        lemma_conflicted_before(before, groups, todos@, before.len() as int);
    }
    let i = random_below(rng, slots.len());
    let slot = slots[i];
    let tied = best_values(schedule, slot, subject_count, unavailable, todos);
    let t = random_below(rng, tied.len());
    schedule.set(slot, tied[t]);
    proof {
        assert(schedule@ == repaired(before, groups, todos@, named(subject_count) as int, i as int, t as int));
        lemma_repair_step_helps(before, schedule@, groups, todos@, named(subject_count) as int);
    }
    false
}

/// Repairs a schedule by min-conflicts local search.
///
/// [`repair_round`] is run `max_rounds` times. A round that finds no
/// conflict changes nothing, so with `stop_when_clean` the rounds end at the
/// first such round, and the result is the same. A schedule without
/// conflicts comes back as it is. Every other round ends at least one
/// conflict: the result has no conflict left, or `max_rounds` fewer than the
/// schedule had.
pub fn min_conflict_schedule(
    schedule: Vec<i32>,
    subject_count: usize,
    unavailable: &[Vec<usize>],
    todos: &[usize],
    max_rounds: u32,
    stop_when_clean: bool,
    rng: &mut StdRng,
) -> (repaired: Vec<i32>)
    requires
        is_schedule(schedule@, subject_count as int),
        subject_count <= todos@.len(),
    ensures
        repairs_to(
            schedule@,
            repaired@,
            group_views(unavailable@),
            todos@,
            named(subject_count) as int,
            max_rounds as nat,
        ),
        repaired@.len() == schedule@.len(),
        is_schedule(repaired@, subject_count as int),
        conflict_count(repaired@, group_views(unavailable@), todos@) <= conflict_count(
            schedule@,
            group_views(unavailable@),
            todos@,
        ),
        conflict_count(schedule@, group_views(unavailable@), todos@) == 0 ==> repaired@
            == schedule@,
        conflict_count(repaired@, group_views(unavailable@), todos@) == 0 || conflict_count(
            repaired@,
            group_views(unavailable@),
            todos@,
        ) + max_rounds <= conflict_count(schedule@, group_views(unavailable@), todos@),
{
    let ghost groups = group_views(unavailable@);
    let ghost before = schedule@;
    assert(before.len() == schedule.len());
    let mut current = schedule;
    let mut round: u32 = 0;
    while round < max_rounds
        invariant
            round <= max_rounds,
            before.len() <= usize::MAX,
            groups == group_views(unavailable@),
            subject_count <= todos@.len(),
            current@.len() == before.len(),
            is_schedule(current@, subject_count as int),
            repairs_to(before, current@, groups, todos@, named(subject_count) as int, round as nat),
        ensures
            repairs_to(before, current@, groups, todos@, named(subject_count) as int, max_rounds as nat),
        decreases max_rounds - round,
    {
        let ghost last = current@;
        let clean = repair_round(&mut current, subject_count, unavailable, todos, rng);
        round = round + 1;
        proof {
            lemma_one_more_round(
                before,
                last,
                current@,
                groups,
                todos@,
                named(subject_count) as int,
                (round - 1) as nat,
            );
        }
        if clean && stop_when_clean {
            proof {
                lemma_more_rounds_when_clean(
                    before,
                    current@,
                    groups,
                    todos@,
                    named(subject_count) as int,
                    round as nat,
                    (max_rounds - round) as nat,
                );
            }
            break;
        }
    }
    proof {
        lemma_repair_helps(
            before,
            current@,
            groups,
            todos@,
            named(subject_count) as int,
            max_rounds as nat,
        );
    }
    current
}

/// A schedule of `total_slot` slots in which every slot has, by chance, one
/// of the subjects or [`UNASSIGNED`], each with the same chance.
pub fn random_schedule(total_slot: usize, subject_count: usize, rng: &mut StdRng) -> (schedule: Vec<
    i32,
>)
    ensures
        schedule@.len() == total_slot,
        is_schedule(schedule@, subject_count as int),
{
    let subjects = named_subjects(subject_count);
    let mut schedule: Vec<i32> = Vec::new();
    let mut z: usize = 0;
    while z < total_slot
        invariant
            z <= total_slot,
            subjects == named(subject_count),
            schedule@.len() == z,
            is_schedule(schedule@, subject_count as int),
        decreases total_slot - z,
    {
        let draw = random_below(rng, subjects + 1);
        schedule.push(entry_for_draw(draw, subjects));
        z = z + 1;
    }
    schedule
}

/// Plans a week of `total_slot` slots by repair alone, from hours and flat
/// buffers.
///
/// `todo[s]` gives the hours that subject `s` is to be taught this week;
/// they are turned into slots of `slot_minutes` minutes. `unavailable`
/// holds, group after group, the slots in which the subjects cannot be
/// taught, and `unavailable_sub` the length of each group. The repair starts
/// from a [`random_schedule`] and runs [`REPAIR_ROUNDS`] rounds, all of them.
/// A week of so few slots that it cannot hold more conflicts than that comes
/// out without conflict, and in it a subject with no hours to do has no slot.
pub fn min_conflicts_planning(
    total_slot: usize,
    slot_minutes: u32,
    subject_count: usize,
    todo: &[u32],
    unavailable: &[usize],
    unavailable_sub: &[usize],
    rng: &mut StdRng,
) -> (schedule: Vec<i32>)
    requires
        subject_count <= todo@.len(),
        sum_lengths(unavailable_sub@) == unavailable@.len(),
    ensures
        schedule@.len() == total_slot,
        is_schedule(schedule@, subject_count as int),
        exists|start: Seq<i32>|
            start.len() == total_slot && is_schedule(start, subject_count as int)
                && #[trigger] repairs_to(
                start,
                schedule@,
                groups_of(unavailable@, unavailable_sub@),
                slot_quotas(todo@, slot_minutes),
                named(subject_count) as int,
                REPAIR_ROUNDS as nat,
            ),
        2 * total_slot <= REPAIR_ROUNDS ==> conflict_count(
            schedule@,
            groups_of(unavailable@, unavailable_sub@),
            slot_quotas(todo@, slot_minutes),
        ) == 0,
        2 * total_slot <= REPAIR_ROUNDS ==> forall|z: int|
            0 <= z < total_slot && #[trigger] schedule@[z] != UNASSIGNED ==> todo@[schedule@[z] as int]
                != 0,
{
    let groups = reconstruct_subarray(unavailable, unavailable_sub);
    let quotas = quotas_for_hours(todo, slot_minutes);
    let start = random_schedule(total_slot, subject_count, rng);
    proof {
        lemma_conflicted_before(
            start@,
            groups_of(unavailable@, unavailable_sub@),
            slot_quotas(todo@, slot_minutes),
            total_slot as int,
        );
    }
    let schedule = min_conflict_schedule(
        start,
        subject_count,
        groups.as_slice(),
        quotas.as_slice(),
        REPAIR_ROUNDS,
        false,
        rng,
    );
    proof {
        if 2 * total_slot <= REPAIR_ROUNDS {
            lemma_clean_schedule(schedule@, groups_of(unavailable@, unavailable_sub@), quotas@);
            assert forall|z: int|
                0 <= z < total_slot && #[trigger] schedule@[z] != UNASSIGNED implies todo@[schedule@[z] as int]
                != 0 by {
                lemma_occurrence_counts(schedule@, schedule@[z] as int, z, total_slot as int);
            }
        }
    }
    schedule
}

} // verus!
