//! Groups of values carried in one flat buffer beside a list of group lengths.
use vstd::prelude::*;
use vstd::slice::{slice_subrange, slice_to_vec};
use crate::model::group_views;

verus! {

/// The sum of all the lengths.
pub open spec fn sum_lengths(lengths: Seq<usize>) -> nat
    decreases lengths.len(),
{
    if lengths.len() == 0 {
        0
    } else {
        sum_lengths(lengths.drop_last()) + lengths.last() as nat
    }
}

/// Where group `g` begins in the flat buffer: after all the groups before it.
pub open spec fn group_start(lengths: Seq<usize>, g: int) -> nat {
    sum_lengths(lengths.take(g))
}

/// The groups that `lengths` cuts out of `flat`, one after the other.
pub open spec fn groups_of<T>(flat: Seq<T>, lengths: Seq<usize>) -> Seq<Seq<T>> {
    Seq::new(
        lengths.len(),
        |g: int| flat.subrange(group_start(lengths, g) as int, group_start(lengths, g + 1) as int),
    )
}

/// A list of lengths sums to at least as much as any of its prefixes.
pub proof fn lemma_sum_lengths_monotone(lengths: Seq<usize>, g: int)
    requires
        0 <= g <= lengths.len(),
    ensures
        group_start(lengths, g) <= sum_lengths(lengths),
    decreases lengths.len() - g,
{
    if g == lengths.len() {
        assert(lengths.take(g) =~= lengths);
    } else {
        lemma_sum_lengths_monotone(lengths, g + 1);
        assert(lengths.take(g + 1).drop_last() =~= lengths.take(g));
    }
}

/// The start of the group after `g` is the start of `g` plus its length.
pub proof fn lemma_group_start_step(lengths: Seq<usize>, g: int)
    requires
        0 <= g < lengths.len(),
    ensures
        group_start(lengths, g + 1) == group_start(lengths, g) + lengths[g],
{
    assert(lengths.take(g + 1).drop_last() =~= lengths.take(g));
}

/// The first `g` groups, one after the other, are the flat buffer up to
/// where group `g` begins.
proof fn lemma_groups_join<T>(flat: Seq<T>, lengths: Seq<usize>, g: int)
    requires
        sum_lengths(lengths) == flat.len(),
        0 <= g <= lengths.len(),
    ensures
        groups_of(flat, lengths).take(g).flatten_alt() == flat.take(
            group_start(lengths, g) as int,
        ),
    decreases g,
{
    let groups = groups_of(flat, lengths);
    lemma_sum_lengths_monotone(lengths, g);
    if g == 0 {
        assert(lengths.take(0) =~= Seq::<usize>::empty());
        assert(groups.take(0).flatten_alt() =~= flat.take(0));
    } else {
        lemma_groups_join(flat, lengths, g - 1);
        lemma_group_start_step(lengths, g - 1);
        lemma_sum_lengths_monotone(lengths, g - 1);
        assert(groups.take(g).drop_last() =~= groups.take(g - 1));
        assert(groups.take(g).flatten_alt() =~= flat.take(group_start(lengths, g) as int));
    }
}

/// Cutting a buffer into groups loses nothing and adds nothing: the groups,
/// one after the other, are the buffer again.
pub proof fn lemma_groups_give_the_buffer_back<T>(flat: Seq<T>, lengths: Seq<usize>)
    requires
        sum_lengths(lengths) == flat.len(),
    ensures
        groups_of(flat, lengths).flatten() == flat,
{
    let groups = groups_of(flat, lengths);
    lemma_groups_join(flat, lengths, lengths.len() as int);
    groups.lemma_flatten_and_flatten_alt_are_equivalent();
    assert(groups.take(lengths.len() as int) =~= groups);
    assert(lengths.take(lengths.len() as int) =~= lengths);
    assert(flat.take(flat.len() as int) =~= flat);
}

/// Adds two numbers whose sum fits in 64 bits.
pub fn add(left: u64, right: u64) -> (sum: u64)
    requires
        left + right <= u64::MAX,
    ensures
        sum == left + right,
{
    left + right
}

/// Tells whether the lengths sum to exactly `flat_len`, which is what
/// [`reconstruct_subarray`] asks of its arguments.
pub fn lengths_cover(flat_len: usize, lengths: &[usize]) -> (covered: bool)
    ensures
        covered <==> sum_lengths(lengths@) == flat_len,
{
    let mut used: usize = 0;
    let mut g: usize = 0;
    while g < lengths.len()
        invariant
            g <= lengths@.len(),
            used == group_start(lengths@, g as int),
            used <= flat_len,
        decreases lengths@.len() - g,
    {
        proof {
            lemma_group_start_step(lengths@, g as int);
            lemma_sum_lengths_monotone(lengths@, g + 1);
        }
        if lengths[g] > flat_len - used {
            return false;
        }
        used = used + lengths[g];
        g = g + 1;
    }
    assert(lengths@.take(g as int) =~= lengths@);
    used == flat_len
}

/// Cuts `flat` into consecutive groups, the `g`-th of them `lengths[g]` long.
///
/// The lengths must use the flat buffer up exactly; [`lengths_cover`] tests it.
pub fn reconstruct_subarray<T: Copy>(flat: &[T], lengths: &[usize]) -> (groups: Vec<Vec<T>>)
    requires
        sum_lengths(lengths@) == flat@.len(),
    ensures
        group_views(groups@) == groups_of(flat@, lengths@),
{
    let mut result: Vec<Vec<T>> = Vec::new();
    let flat_len = flat.len();
    let mut index: usize = 0;
    let mut g: usize = 0;
    while g < lengths.len()
        invariant
            g <= lengths@.len(),
            sum_lengths(lengths@) == flat@.len() == flat_len,
            index == group_start(lengths@, g as int),
            result@.len() == g,
            forall|k: int| 0 <= k < g ==> (#[trigger] result@[k])@ == groups_of(flat@, lengths@)[k],
        decreases lengths@.len() - g,
    {
        proof {
            lemma_group_start_step(lengths@, g as int);
            lemma_sum_lengths_monotone(lengths@, g + 1);
        }
        let len = lengths[g];
        let group = slice_to_vec(slice_subrange(flat, index, index + len));
        result.push(group);
        index = index + len;
        g = g + 1;
    }
    result
}

} // verus!
