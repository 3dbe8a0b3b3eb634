//! The weekly hour allocator.
//!
//! A week's budget of hours is shared out among the subjects in two steps.
//! Each subject first gets its proportional share of the budget, by weight,
//! cut down to what it may still receive. The hours that this leaves over
//! then go out one at a time, in rounds, to the subjects that have room for
//! more: the subject with the fewest hours done is served first.
use vstd::prelude::*;

verus! {

/// What the allocator is asked: the hours each subject needs over the term
/// and has had so far, by priority position, the budget of the week and the
/// most that one subject may get in it.
pub struct Week {
    pub total: Seq<u32>,
    pub done: Seq<u32>,
    pub budget: u32,
    pub cap: u32,
}

impl Week {
    /// The number of subjects.
    pub open spec fn len(self) -> int {
        self.total.len() as int
    }

    /// The weight of the subject at position `i`: the hours it needs over the
    /// term, times the number of subjects from it to the end of the list.
    pub open spec fn weight(self, i: int) -> nat {
        ((self.len() - i) * self.total[i]) as nat
    }

    /// The weights of the first `n` subjects, added up.
    pub open spec fn weight_sum(self, n: int) -> nat
        decreases n,
    {
        if n <= 0 {
            0
        } else {
            self.weight_sum(n - 1) + self.weight(n - 1)
        }
    }

    /// The weights of all subjects, added up.
    pub open spec fn total_weight(self) -> nat {
        self.weight_sum(self.len())
    }

    /// The part of the budget that falls to subject `i` by its weight, rounded
    /// down; nothing where no subject has any weight.
    pub open spec fn proportional_share(self, i: int) -> nat {
        if self.total_weight() > 0 {
            ((self.weight(i) * self.budget) / (self.total_weight() as int)) as nat
        } else {
            0
        }
    }

    /// The most that subject `i` may get this week: the hours it still lacks,
    /// and never more than the cap.
    pub open spec fn limit(self, i: int) -> nat {
        let lacking = if self.total[i] > self.done[i] {
            self.total[i] - self.done[i]
        } else {
            0
        };
        if lacking < self.cap {
            lacking as nat
        } else {
            self.cap as nat
        }
    }

    /// What subject `i` gets in the first step: its proportional share, cut
    /// down to its limit.
    pub open spec fn first_share(self, i: int) -> nat {
        if self.proportional_share(i) < self.limit(i) {
            self.proportional_share(i)
        } else {
            self.limit(i)
        }
    }

    /// The first shares of the first `n` subjects, added up.
    pub open spec fn first_share_sum(self, n: int) -> nat
        decreases n,
    {
        if n <= 0 {
            0
        } else {
            self.first_share_sum(n - 1) + self.first_share(n - 1)
        }
    }

    /// The hours of the budget that the first step leaves over.
    pub open spec fn left_over(self) -> nat {
        (self.budget - self.first_share_sum(self.len())) as nat
    }

    /// The hours that subject `i` can still take after the first step.
    pub open spec fn room(self, i: int) -> nat {
        (self.limit(i) - self.first_share(i)) as nat
    }

    /// The order in which left-over hours are offered: fewer hours done come
    /// first, then the greater weight, then the earlier position.
    pub open spec fn comes_before(self, i: int, j: int) -> bool {
        ||| self.done[i] < self.done[j]
        ||| self.done[i] == self.done[j] && self.weight(i) > self.weight(j)
        ||| self.done[i] == self.done[j] && self.weight(i) == self.weight(j) && i < j
    }

    /// The subjects that, given `level` more hours each, still have room.
    pub open spec fn hungry(self, level: nat) -> Set<int> {
        Set::new(|j: int| 0 <= j < self.len() && self.room(j) > level)
    }

    /// Those of them that are served before subject `i`.
    pub open spec fn hungry_before(self, level: nat, i: int) -> Set<int> {
        Set::new(|j: int| 0 <= j < self.len() && self.room(j) > level && self.comes_before(j, i))
    }

    /// `room(i)`, or `level` if that is less.
    pub open spec fn filled(self, i: int, level: nat) -> nat {
        if self.room(i) < level {
            self.room(i)
        } else {
            level
        }
    }

    /// The left-over hours that subject `i` gets, when every subject with room
    /// has had `level` of them already and `budget` hours are still to go out.
    ///
    /// A round gives one hour to each subject that still has room. While the
    /// budget pays for a whole round, the round is made. A budget too small
    /// for that goes to the first subjects in the order of
    /// [`Week::comes_before`].
    pub open spec fn extra_hours(self, i: int, level: nat, budget: nat) -> nat
        decreases budget,
    {
        let eaters = self.hungry(level).len();
        if eaters == 0 {
            self.filled(i, level)
        } else if budget < eaters {
            if self.room(i) > level && self.hungry_before(level, i).len() < budget {
                level + 1
            } else {
                self.filled(i, level)
            }
        } else {
            self.extra_hours(i, level + 1, (budget - eaters) as nat)
        }
    }

    /// The hours that subject `i` is given this week.
    pub open spec fn hours(self, i: int) -> nat {
        self.first_share(i) + self.extra_hours(i, 0, self.left_over())
    }
}

/// The hours of a list, added up.
pub open spec fn hours_sum(hours: Seq<u32>) -> nat
    decreases hours.len(),
{
    if hours.len() == 0 {
        0
    } else {
        hours_sum(hours.drop_last()) + hours.last() as nat
    }
}

/// The question that the allocator is asked, as a [`Week`].
pub open spec fn week_of(total: Seq<u32>, done: Seq<u32>, budget: u32, cap: u32) -> Week {
    Week { total, done, budget, cap }
}

/// `order` lists the subjects that have room after the first step, each
/// once, in the order of [`Week::comes_before`].
pub open spec fn in_priority_order(week: Week, order: Seq<usize>) -> bool {
    &&& forall|a: int, b: int|
        0 <= a < b < order.len() ==> week.comes_before(order[a] as int, order[b] as int)
    &&& forall|k: int|
        0 <= k < order.len() ==> order[k] < week.len() && week.room(order[k] as int) > 0
    &&& forall|j: int|
        0 <= j < week.len() && week.room(j) > 0 ==> exists|k: int|
            0 <= k < order.len() && #[trigger] order[k] as int == j
}

/// How many of the first `k` subjects of `order` still have room after
/// `level` more hours.
pub open spec fn served(week: Week, order: Seq<usize>, k: int, level: nat) -> nat
    decreases k,
{
    if k <= 0 {
        0
    } else {
        served(week, order, k - 1, level) + if week.room(order[k - 1] as int) > level {
            1nat
        } else {
            0nat
        }
    }
}

/// Adding an hour list's last entry to the sum of the others gives its sum.
proof fn lemma_hours_sum_push(hours: Seq<u32>, last: u32)
    ensures
        hours_sum(hours.push(last)) == hours_sum(hours) + last,
{
    assert(hours.push(last).drop_last() =~= hours);
}

/// Changing one entry changes the sum by as much.
proof fn lemma_hours_sum_update(hours: Seq<u32>, i: int, value: u32)
    requires
        0 <= i < hours.len(),
    ensures
        hours_sum(hours.update(i, value)) == hours_sum(hours) - hours[i] + value,
    decreases hours.len(),
{
    let changed = hours.update(i, value);
    if i == hours.len() - 1 {
        assert(changed.drop_last() =~= hours.drop_last());
    } else {
        lemma_hours_sum_update(hours.drop_last(), i, value);
        assert(changed.drop_last() =~= hours.drop_last().update(i, value));
    }
}

/// No entry of an hour list is more than the sum of them all.
pub proof fn lemma_hours_sum_bounds_each(hours: Seq<u32>, i: int)
    requires
        0 <= i < hours.len(),
    ensures
        hours[i] <= hours_sum(hours),
    decreases hours.len(),
{
    if i < hours.len() - 1 {
        lemma_hours_sum_bounds_each(hours.drop_last(), i);
    }
}

/// A prefix of the subjects weighs no more than all of them.
proof fn lemma_weight_sum_monotone(week: Week, n: int, m: int)
    requires
        0 <= n <= m,
    ensures
        week.weight_sum(n) <= week.weight_sum(m),
    decreases m - n,
{
    if n < m {
        lemma_weight_sum_monotone(week, n, m - 1);
    }
}

/// The first shares of a prefix of the subjects take no greater part of the
/// budget than the prefix has of the weight.
proof fn lemma_first_shares_by_weight(week: Week, n: int)
    requires
        0 <= n <= week.len(),
    ensures
        week.total_weight() * week.first_share_sum(n) <= week.budget * week.weight_sum(n),
        week.total_weight() == 0 ==> week.first_share_sum(n) == 0,
    decreases n,
{
    let all = week.total_weight() as int;
    let b = week.budget as int;
    if n <= 0 {
        assert(all * 0 <= b * 0) by (nonlinear_arith);
    } else {
        lemma_first_shares_by_weight(week, n - 1);
        let w = week.weight(n - 1) as int;
        let share = week.first_share(n - 1) as int;
        let before = week.first_share_sum(n - 1) as int;
        let weight_before = week.weight_sum(n - 1) as int;
        assert(week.first_share_sum(n) == before + share);
        assert(week.weight_sum(n) == weight_before + w);
        if all > 0 {
            assert(share <= (w * b) / all);
            assert(all * (before + share) <= b * (weight_before + w)) by (nonlinear_arith)
                requires
                    all > 0,
                    0 <= share <= (w * b) / all,
                    0 <= w,
                    0 <= b,
                    all * before <= b * weight_before,
            ;
        } else {
            assert(share == 0);
            assert(all * (before + share) <= b * (weight_before + w)) by (nonlinear_arith)
                requires
                    all == 0,
                    0 <= w,
                    0 <= b,
                    0 <= weight_before,
            ;
        }
    }
}

/// The first step never gives out more than the budget.
pub proof fn lemma_first_shares_within_budget(week: Week, n: int)
    requires
        0 <= n <= week.len(),
    ensures
        week.first_share_sum(n) <= week.budget,
{
    lemma_first_shares_by_weight(week, n);
    lemma_weight_sum_monotone(week, n, week.len());
    let all = week.total_weight() as int;
    let part = week.weight_sum(n) as int;
    let b = week.budget as int;
    let sum = week.first_share_sum(n) as int;
    if all > 0 {
        assert(sum <= b) by (nonlinear_arith)
            requires
                all > 0,
                0 <= part <= all,
                0 <= b,
                0 <= sum,
                all * sum <= b * part,
        ;
    }
}

/// In a list in priority order, a subject comes before another exactly when
/// it stands before it, and no subject stands twice.
pub proof fn lemma_position_order(week: Week, order: Seq<usize>, a: int, b: int)
    requires
        in_priority_order(week, order),
        0 <= a < order.len(),
        0 <= b < order.len(),
    ensures
        week.comes_before(order[a] as int, order[b] as int) <==> a < b,
        order[a] == order[b] <==> a == b,
{
    if b < a {
        assert(week.comes_before(order[b] as int, order[a] as int));
    }
}

/// How the sets that [`Week::extra_hours`] counts are read off a list in
/// priority order: the subjects with room that are served before the `k`-th
/// of the list are those among its first `k`, and all the subjects with room
/// are those in the list.
pub proof fn lemma_served_counts(week: Week, order: Seq<usize>, k: int, level: nat)
    requires
        in_priority_order(week, order),
        0 <= k <= order.len(),
    ensures
        k < order.len() ==> week.hungry_before(level, order[k] as int).finite()
            && week.hungry_before(level, order[k] as int).len() == served(week, order, k, level),
        k == order.len() ==> week.hungry(level).finite() && week.hungry(level).len() == served(
            week,
            order,
            k,
            level,
        ),
    decreases k,
{
    let target = if k < order.len() {
        week.hungry_before(level, order[k] as int)
    } else {
        week.hungry(level)
    };
    if k == 0 {
        assert forall|j: int| !target.contains(j) by {
            if target.contains(j) {
                let t = choose|t: int| 0 <= t < order.len() && #[trigger] order[t] as int == j;
                lemma_position_order(week, order, t, 0);
            }
        }
        assert(target =~= Set::empty());
    } else {
        lemma_served_counts(week, order, k - 1, level);
        let x = order[k - 1] as int;
        let before = week.hungry_before(level, x);
        let next = if week.room(x) > level {
            before.insert(x)
        } else {
            before
        };
        assert forall|j: int| target.contains(j) <==> next.contains(j) by {
            if 0 <= j < week.len() && week.room(j) > level {
                let t = choose|t: int| 0 <= t < order.len() && #[trigger] order[t] as int == j;
                lemma_position_order(week, order, t, k - 1);
                if k < order.len() {
                    lemma_position_order(week, order, t, k);
                }
            }
        }
        assert(target =~= next);
    }
}

/// The count of [`served`] grows with `k`, by one wherever a subject has room.
pub proof fn lemma_served_monotone(week: Week, order: Seq<usize>, k: int, m: int, level: nat)
    requires
        0 <= k <= m,
    ensures
        served(week, order, k, level) <= served(week, order, m, level),
        forall|t: int|
            k <= t < m && week.room(#[trigger] order[t] as int) > level ==> served(
                week,
                order,
                k,
                level,
            ) < served(week, order, m, level),
    decreases m - k,
{
    if k < m {
        lemma_served_monotone(week, order, k, m - 1, level);
    }
}

/// The weight of every subject, and the sum of them where 128 bits hold it.
fn weigh(total: &[u32], Ghost(week): Ghost<Week>) -> (weighed: (Vec<u128>, Option<u128>))
    requires
        week.total == total@,
    ensures
        weighed.0@.len() == total@.len(),
        forall|j: int|
            0 <= j < total@.len() ==> #[trigger] weighed.0@[j] == week.weight(j) && weighed.0@[j]
                < 0x1_0000_0000_0000_0000_0000_0000,
        match weighed.1 {
            Some(sum) => sum == week.total_weight(),
            None => week.total_weight() > u128::MAX,
        },
{
    let n = total.len();
    let mut weights: Vec<u128> = Vec::new();
    let mut sum: Option<u128> = Some(0);
    let mut i: usize = 0;
    while i < n
        invariant
            i <= n == total@.len(),
            week.total == total@,
            weights@.len() == i,
            forall|j: int|
                0 <= j < i ==> #[trigger] weights@[j] == week.weight(j) && weights@[j]
                    < 0x1_0000_0000_0000_0000_0000_0000,
            match sum {
                Some(sum) => sum == week.weight_sum(i as int),
                None => week.weight_sum(i as int) > u128::MAX,
            },
        decreases n - i,
    {
        let places: u128 = (n - i) as u128;
        let hours: u128 = total[i] as u128;
        assert(places * hours < 0x1_0000_0000_0000_0000_0000_0000) by (nonlinear_arith)
            requires
                places <= 0xFFFF_FFFF_FFFF_FFFF,
                hours <= 0xFFFF_FFFF,
        ;
        let weight: u128 = places * hours;
        weights.push(weight);
        sum = match sum {
            Some(before) => before.checked_add(weight),
            None => None,
        };
        i = i + 1;
    }
    (weights, sum)
}

/// The most that each subject may get this week.
fn limits_of(total: &[u32], done: &[u32], cap: u32, Ghost(week): Ghost<Week>) -> (limits: Vec<u32>)
    requires
        week.total == total@,
        week.done == done@,
        week.cap == cap,
        total@.len() == done@.len(),
    ensures
        limits@.len() == total@.len(),
        forall|j: int| 0 <= j < total@.len() ==> limits@[j] == week.limit(j),
{
    let n = total.len();
    let mut limits: Vec<u32> = Vec::new();
    let mut i: usize = 0;
    while i < n
        invariant
            i <= n == total@.len() == done@.len(),
            week.total == total@,
            week.done == done@,
            week.cap == cap,
            limits@.len() == i,
            forall|j: int| 0 <= j < i ==> limits@[j] == week.limit(j),
        decreases n - i,
    {
        let lacking: u32 = if total[i] > done[i] {
            total[i] - done[i]
        } else {
            0
        };
        limits.push(if lacking < cap { lacking } else { cap });
        i = i + 1;
    }
    limits
}

/// The first step: every subject's proportional share, cut down to its
/// limit, and what it leaves of the budget.
fn first_shares(
    weights: &Vec<u128>,
    weight_total: Option<u128>,
    limits: &Vec<u32>,
    budget: u32,
    Ghost(week): Ghost<Week>,
) -> (shared: (Vec<u32>, u32))
    requires
        week.budget == budget,
        weights@.len() == week.len() == limits@.len(),
        forall|j: int|
            0 <= j < week.len() ==> #[trigger] weights@[j] == week.weight(j) && weights@[j]
                < 0x1_0000_0000_0000_0000_0000_0000,
        forall|j: int| 0 <= j < week.len() ==> limits@[j] == week.limit(j),
        match weight_total {
            Some(sum) => sum == week.total_weight(),
            None => week.total_weight() > u128::MAX,
        },
    ensures
        shared.0@.len() == week.len(),
        forall|j: int| 0 <= j < week.len() ==> shared.0@[j] == week.first_share(j),
        hours_sum(shared.0@) == week.first_share_sum(week.len()),
        shared.1 == week.left_over(),
        shared.1 + hours_sum(shared.0@) == budget,
{
    let n = weights.len();
    let mut hours: Vec<u32> = Vec::new();
    let mut remaining: u32 = budget;
    let mut i: usize = 0;
    while i < n
        invariant
            i <= n == week.len(),
            week.budget == budget,
            weights@.len() == n == limits@.len(),
            forall|j: int|
                0 <= j < n ==> #[trigger] weights@[j] == week.weight(j) && weights@[j]
                    < 0x1_0000_0000_0000_0000_0000_0000,
            forall|j: int| 0 <= j < n ==> limits@[j] == week.limit(j),
            match weight_total {
                Some(sum) => sum == week.total_weight(),
                None => week.total_weight() > u128::MAX,
            },
            hours@.len() == i,
            forall|j: int| 0 <= j < i ==> hours@[j] == week.first_share(j),
            hours_sum(hours@) == week.first_share_sum(i as int),
            remaining + week.first_share_sum(i as int) == budget,
        decreases n - i,
    {
        let weight: u128 = weights[i];
        let all_of_it: u128 = budget as u128;
        assert(weight * all_of_it < 0x1_0000_0000_0000_0000_0000_0000_0000_0000)
            by (nonlinear_arith)
            requires
                weight < 0x1_0000_0000_0000_0000_0000_0000,
                all_of_it <= 0xFFFF_FFFF,
        ;
        let product: u128 = weight * all_of_it;
        let share: u32 = match weight_total {
            Some(sum) => {
                if sum > 0 {
                    proof {
                        lemma_weight_sum_monotone(week, i + 1, n as int);
                        assert(product / sum <= all_of_it) by (nonlinear_arith)
                            requires
                                product == weight * all_of_it,
                                weight <= sum,
                                sum > 0,
                        ;
                    }
                    (product / sum) as u32
                } else {
                    0
                }
            },
            None => {
                proof {
                    let all = week.total_weight() as int;
                    assert(product as int / all == 0) by (nonlinear_arith)
                        requires
                            0 <= product < all,
                    ;
                }
                0
            },
        };
        let first: u32 = if share < limits[i] {
            share
        } else {
            limits[i]
        };
        proof {
            lemma_first_shares_within_budget(week, i + 1);
            lemma_hours_sum_push(hours@, first);
        }
        hours.push(first);
        remaining = remaining - first;
        i = i + 1;
    }
    (hours, remaining)
}

/// Whether subject `a`, which stands after subject `b` in the list, is
/// nevertheless offered left-over hours before it.
fn overtakes(done: &[u32], weights: &Vec<u128>, a: usize, b: usize) -> (yes: bool)
    requires
        a < done@.len() == weights@.len(),
        b < done@.len(),
    ensures
        yes == (done@[a as int] < done@[b as int] || (done@[a as int] == done@[b as int]
            && weights@[a as int] > weights@[b as int])),
{
    done[a] < done[b] || (done[a] == done[b] && weights[a] > weights[b])
}

/// The subjects with room after the first step, in the order in which the
/// left-over hours are offered.
fn priority_order(
    done: &[u32],
    weights: &Vec<u128>,
    limits: &Vec<u32>,
    hours: &Vec<u32>,
    Ghost(week): Ghost<Week>,
) -> (order: Vec<usize>)
    requires
        week.done == done@,
        week.len() == done@.len() == weights@.len() == limits@.len() == hours@.len(),
        forall|j: int| 0 <= j < week.len() ==> weights@[j] == week.weight(j),
        forall|j: int| 0 <= j < week.len() ==> limits@[j] == week.limit(j),
        forall|j: int| 0 <= j < week.len() ==> hours@[j] == week.first_share(j),
    ensures
        in_priority_order(week, order@),
{
    let n = done.len();
    let mut order: Vec<usize> = Vec::new();
    let mut i: usize = 0;
    while i < n
        invariant
            i <= n == week.len(),
            week.done == done@,
            n == done@.len() == weights@.len() == limits@.len() == hours@.len(),
            forall|j: int| 0 <= j < n ==> weights@[j] == week.weight(j),
            forall|j: int| 0 <= j < n ==> limits@[j] == week.limit(j),
            forall|j: int| 0 <= j < n ==> hours@[j] == week.first_share(j),
            forall|a: int, b: int|
                0 <= a < b < order@.len() ==> week.comes_before(order@[a] as int, order@[b] as int),
            forall|k: int| 0 <= k < order@.len() ==> order@[k] < i && week.room(order@[k] as int) > 0,
            forall|j: int|
                0 <= j < i && week.room(j) > 0 ==> exists|k: int|
                    0 <= k < order@.len() && #[trigger] order@[k] as int == j,
        decreases n - i,
    {
        if hours[i] < limits[i] {
            let mut at: usize = order.len();
            while at > 0 && overtakes(done, weights, i, order[at - 1])
                invariant
                    at <= order@.len(),
                    i < n == week.len(),
                    week.done == done@,
                    n == done@.len() == weights@.len(),
                    forall|j: int| 0 <= j < n ==> weights@[j] == week.weight(j),
                    forall|k: int| 0 <= k < order@.len() ==> order@[k] < i,
                    forall|k: int|
                        at <= k < order@.len() ==> week.comes_before(i as int, order@[k] as int),
                decreases at,
            {
                at = at - 1;
            }
            let ghost before = order@;
            proof {
                assert forall|k: int| 0 <= k < at implies week.comes_before(
                    before[k] as int,
                    i as int,
                ) by {
                    if k < at - 1 {
                        assert(week.comes_before(before[k] as int, before[at - 1] as int));
                    }
                }
            }
            order.insert(at, i);
            proof {
                assert forall|j: int| 0 <= j < i + 1 && week.room(j) > 0 implies exists|k: int|
                    0 <= k < order@.len() && #[trigger] order@[k] as int == j by {
                    if j == i {
                        assert(order@[at as int] as int == j);
                    } else {
                        let k = choose|k: int| 0 <= k < before.len() && #[trigger] before[k] as int == j;
                        if k < at {
                            assert(order@[k] as int == j);
                        } else {
                            assert(order@[k + 1] as int == j);
                        }
                    }
                }
            }
        }
        i = i + 1;
    }
    order
}

/// The state in the middle of a round: the first `k` subjects of the order
/// have had their hour of this round, the others not yet.
spec fn mid_round(week: Week, order: Seq<usize>, hours: Seq<u32>, level: nat, k: int) -> bool {
    &&& hours.len() == week.len()
    &&& forall|t: int|
        0 <= t < k ==> hours[#[trigger] order[t] as int] == week.first_share(order[t] as int)
            + week.filled(order[t] as int, level + 1)
    &&& forall|t: int|
        k <= t < order.len() ==> hours[#[trigger] order[t] as int] == week.first_share(
            order[t] as int,
        ) + week.filled(order[t] as int, level)
    &&& forall|j: int|
        0 <= j < week.len() && week.room(j) == 0 ==> #[trigger] hours[j] == week.first_share(j)
}

/// What [`mid_round`] says of every place of the order, it says of every
/// subject.
proof fn lemma_mid_round_by_subject(
    week: Week,
    order: Seq<usize>,
    hours: Seq<u32>,
    level: nat,
    k: int,
    j: int,
) -> (t: int)
    requires
        in_priority_order(week, order),
        mid_round(week, order, hours, level, k),
        0 <= k <= order.len(),
        0 <= j < week.len(),
    ensures
        week.room(j) == 0 ==> t == -1 && hours[j] == week.first_share(j) + week.filled(j, level)
            && week.filled(j, level) == week.filled(j, level + 1),
        week.room(j) > 0 ==> 0 <= t < order.len() && order[t] == j,
        week.room(j) > 0 && t < k ==> hours[j] == week.first_share(j) + week.filled(j, level + 1),
        week.room(j) > 0 && t >= k ==> hours[j] == week.first_share(j) + week.filled(j, level),
{
    if week.room(j) > 0 {
        let t = choose|t: int| 0 <= t < order.len() && #[trigger] order[t] as int == j;
        t
    } else {
        -1
    }
}

/// Hands the left-over hours out in rounds, one hour at a time.
fn hand_out(
    order: &Vec<usize>,
    limits: &Vec<u32>,
    hours: &mut Vec<u32>,
    left_over: u32,
    Ghost(week): Ghost<Week>,
)
    requires
        in_priority_order(week, order@),
        week.len() == limits@.len() == old(hours)@.len(),
        forall|j: int| 0 <= j < week.len() ==> limits@[j] == week.limit(j),
        forall|j: int| 0 <= j < week.len() ==> old(hours)@[j] == week.first_share(j),
        left_over == week.left_over(),
        left_over + hours_sum(old(hours)@) == week.budget,
    ensures
        final(hours)@.len() == week.len(),
        forall|j: int| 0 <= j < week.len() ==> final(hours)@[j] == week.hours(j),
        forall|j: int| 0 <= j < week.len() ==> final(hours)@[j] <= week.limit(j),
        hours_sum(final(hours)@) <= week.budget,
{
    let mut remaining: u32 = left_over;
    let ghost mut level: nat = 0;
    assert forall|j: int| 0 <= j < week.len() implies hours@[j] == week.first_share(j)
        + week.filled(j, 0) by {}
    while remaining >= 1
        invariant_except_break
            forall|j: int|
                0 <= j < week.len() ==> hours@[j] == week.first_share(j) + week.filled(j, level),
            forall|j: int|
                0 <= j < week.len() ==> week.hours(j) == week.first_share(j) + week.extra_hours(
                    j,
                    level,
                    remaining as nat,
                ),
        invariant
            in_priority_order(week, order@),
            week.len() == limits@.len() == hours@.len(),
            forall|j: int| 0 <= j < week.len() ==> limits@[j] == week.limit(j),
            forall|j: int| 0 <= j < week.len() ==> hours@[j] <= week.limit(j),
            remaining + hours_sum(hours@) == week.budget,
        ensures
            forall|j: int| 0 <= j < week.len() ==> hours@[j] == week.hours(j),
        decreases remaining,
    {
        let at_start: u32 = remaining;
        let mut k: usize = 0;
        while k < order.len() && remaining >= 1
            invariant
                k <= order@.len(),
                in_priority_order(week, order@),
                week.len() == limits@.len() == hours@.len(),
                forall|j: int| 0 <= j < week.len() ==> limits@[j] == week.limit(j),
                forall|j: int| 0 <= j < week.len() ==> hours@[j] <= week.limit(j),
                remaining + hours_sum(hours@) == week.budget,
                remaining <= at_start,
                at_start - remaining == served(week, order@, k as int, level),
                mid_round(week, order@, hours@, level, k as int),
            decreases order@.len() - k,
        {
            let subject = order[k];
            if hours[subject] < limits[subject] {
                let ghost before = hours@;
                let more: u32 = hours[subject] + 1;
                proof {
                    lemma_hours_sum_update(before, subject as int, more);
                }
                hours.set(subject, more);
                remaining = remaining - 1;
                proof {
                    assert forall|t: int| 0 <= t < order@.len() && t != k implies hours@[order@[t] as int]
                        == before[order@[t] as int] by {
                        lemma_position_order(week, order@, t, k as int);
                    }
                }
            }
            k = k + 1;
        }
        proof {
            lemma_served_counts(week, order@, order@.len() as int, level);
            lemma_served_monotone(week, order@, k as int, order@.len() as int, level);
        }
        let ghost eaters = week.hungry(level).len();
        let ghost spent = (at_start - remaining) as nat;
        if k < order.len() {
            proof {
                assert forall|j: int| 0 <= j < week.len() implies hours@[j] == week.hours(j) by {
                    let t = lemma_mid_round_by_subject(week, order@, hours@, level, k as int, j);
                    if week.room(j) > 0 {
                        lemma_served_counts(week, order@, t, level);
                        if t < k {
                            lemma_served_monotone(week, order@, t, k as int, level);
                        } else {
                            lemma_served_monotone(week, order@, k as int, t, level);
                        }
                    }
                    if spent == eaters {
                        assert(week.extra_hours(j, level, at_start as nat) == week.extra_hours(
                            j,
                            level + 1,
                            0,
                        ));
                    }
                }
            }
            break;
        }
        proof {
            assert forall|j: int| 0 <= j < week.len() implies hours@[j] == week.first_share(j)
                + week.filled(j, level + 1) by {
                lemma_mid_round_by_subject(week, order@, hours@, level, k as int, j);
            }
        }
        if remaining == at_start {
            proof {
                assert forall|j: int| 0 <= j < week.len() implies hours@[j] == week.hours(j) by {
                    if week.room(j) > level {
                        assert(week.hungry(level).contains(j));
                    }
                }
            }
            break;
        }
        proof {
            level = level + 1;
        }
    }
}

/// Shares the hours of a week out among the subjects.
///
/// The subjects stand in priority order; `total_hours_for_subjects` and
/// `hours_done_for_subjects` give, by position, the hours each needs over
/// the term and has had so far. The result gives each its hours of this week,
/// as [`Week::hours`] defines them: the proportional share by weight, cut down
/// to what the subject still lacks and to the cap, and then the left-over
/// hours, one at a time and in rounds, to the subjects that have room for
/// more. Hours are whole, so a round never stalls: it ends when the budget
/// is used up or no subject has room.
///
/// Never more than the budget goes out, no subject gets more than the cap or
/// more than it still lacks, and a subject that has had all its hours gets
/// none.
pub fn calculate_weekly_subject_hours(
    subject_count: usize,
    total_hours_for_subjects: &[u32],
    hours_done_for_subjects: &[u32],
    max_weekly_hours_available: u32,
    cap_hours_per_subject_week: u32,
) -> (hours: Vec<u32>)
    requires
        subject_count == total_hours_for_subjects@.len(),
        subject_count == hours_done_for_subjects@.len(),
    ensures
        hours@.len() == subject_count,
        forall|i: int|
            0 <= i < subject_count ==> hours@[i] == week_of(
                total_hours_for_subjects@,
                hours_done_for_subjects@,
                max_weekly_hours_available,
                cap_hours_per_subject_week,
            ).hours(i),
        hours_sum(hours@) <= max_weekly_hours_available,
        forall|i: int| 0 <= i < subject_count ==> hours@[i] <= max_weekly_hours_available,
        forall|i: int| 0 <= i < subject_count ==> hours@[i] <= cap_hours_per_subject_week,
        forall|i: int|
            0 <= i < subject_count && hours_done_for_subjects@[i] <= total_hours_for_subjects@[i]
                ==> hours@[i] <= total_hours_for_subjects@[i] - hours_done_for_subjects@[i],
        forall|i: int|
            0 <= i < subject_count && hours_done_for_subjects@[i] >= total_hours_for_subjects@[i]
                ==> hours@[i] == 0,
{
    let ghost week = week_of(
        total_hours_for_subjects@,
        hours_done_for_subjects@,
        max_weekly_hours_available,
        cap_hours_per_subject_week,
    );
    if subject_count == 0 {
        return Vec::new();
    }
    let (weights, weight_total) = weigh(total_hours_for_subjects, Ghost(week));
    let limits = limits_of(
        total_hours_for_subjects,
        hours_done_for_subjects,
        cap_hours_per_subject_week,
        Ghost(week),
    );
    let (mut hours, left_over) = first_shares(
        &weights,
        weight_total,
        &limits,
        max_weekly_hours_available,
        Ghost(week),
    );
    let order = priority_order(hours_done_for_subjects, &weights, &limits, &hours, Ghost(week));
    hand_out(&order, &limits, &mut hours, left_over, Ghost(week));
    proof {
        assert forall|i: int| 0 <= i < subject_count implies #[trigger] hours@[i] <= week.limit(i)
            && hours@[i] <= max_weekly_hours_available by {
            lemma_hours_sum_bounds_each(hours@, i);
        }
    }
    hours
}

} // verus!
