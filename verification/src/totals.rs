//! Totals over a list of signed amounts: the plain sum, the sum without the
//! largest few, and the alternating sum.

use vstd::prelude::*;
use vstd::relations::{sorted_by, total_ordering};

verus! {

/// The sum of the amounts.
pub open spec fn sum(s: Seq<i64>) -> int
    decreases s.len(),
{
    if s.len() == 0 {
        0
    } else {
        sum(s.drop_last()) + s.last()
    }
}

/// The amounts at even positions minus those at odd positions, counting
/// positions from 0.
pub open spec fn alternating_sum(s: Seq<i64>) -> int
    decreases s.len(),
{
    if s.len() == 0 {
        0
    } else if (s.len() - 1) % 2 == 0 {
        alternating_sum(s.drop_last()) + s.last()
    } else {
        alternating_sum(s.drop_last()) - s.last()
    }
}

/// The order of the amounts, smallest first.
pub open spec fn at_most() -> spec_fn(i64, i64) -> bool {
    |a: i64, b: i64| a <= b
}

/// The amounts from the smallest to the largest.
pub open spec fn ascending(s: Seq<i64>) -> Seq<i64> {
    s.sort_by(at_most())
}

/// The sum of the amounts without the `dropped` largest ones.
pub open spec fn sum_without_largest(s: Seq<i64>, dropped: nat) -> int {
    sum(ascending(s).take(s.len() - dropped))
}

/// Sorts the amounts in place with `sort` of the standard library's slices.
/// Believed of it: afterwards the amounts are in ascending order, and they
/// are the amounts that were there before, each as often as before.
#[verifier::external_body]
fn sort_ascending(amounts: &mut Vec<i64>)
    ensures
        sorted_by(final(amounts)@, at_most()),
        final(amounts)@.to_multiset() == old(amounts)@.to_multiset(),
{
    amounts.sort();
}

/// The sum of the first `end` amounts.
fn sum_first(amounts: &Vec<i64>, end: usize) -> (acc: i128)
    requires
        end <= amounts.len(),
    ensures
        acc == sum(amounts@.take(end as int)),
{
    let mut acc: i128 = 0;
    let mut i: usize = 0;
    while i < end
        invariant
            i <= end <= amounts.len(),
            acc == sum(amounts@.take(i as int)),
            -(i * 0x8000_0000_0000_0000) <= acc <= i * 0x8000_0000_0000_0000,
        decreases end - i,
    {
        proof {
            assert(amounts@.take(i + 1).drop_last() =~= amounts@.take(i as int));
        }
        acc = acc + amounts[i] as i128;
        i += 1;
    }
    acc
}

/// The sum of all amounts.
pub fn part1(input: Vec<i64>) -> (total: i64)
    requires
        i64::MIN <= sum(input@) <= i64::MAX,
    ensures
        total == sum(input@),
{
    let acc = sum_first(&input, input.len());
    proof {
        assert(input@.take(input.len() as int) =~= input@);
    }
    acc as i64
}

/// The sum of the amounts that are left when the `voucher_quantity` largest
/// are taken away.
pub fn part2(input: Vec<i64>, voucher_quantity: usize) -> (total: i64)
    requires
        voucher_quantity <= input.len(),
        i64::MIN <= sum_without_largest(input@, voucher_quantity as nat) <= i64::MAX,
    ensures
        total == sum_without_largest(input@, voucher_quantity as nat),
{
    let mut amounts = input;
    sort_ascending(&mut amounts);
    proof {
        assert(total_ordering(at_most()));
        input@.lemma_sort_by_ensures(at_most());
        vstd::seq_lib::lemma_sorted_unique(amounts@, ascending(input@), at_most());
        assert(amounts@ == ascending(input@));
        vstd::seq_lib::to_multiset_len(amounts@);
        vstd::seq_lib::to_multiset_len(input@);
    }
    let kept = amounts.len() - voucher_quantity;
    let acc = sum_first(&amounts, kept);
    acc as i64
}

/// The sum of the amounts at even positions minus the sum of those at odd
/// positions, counting positions from 0.
pub fn part3(input: Vec<i64>) -> (total: i64)
    requires
        i64::MIN <= alternating_sum(input@) <= i64::MAX,
    ensures
        total == alternating_sum(input@),
{
    let mut acc: i128 = 0;
    let mut i: usize = 0;
    while i < input.len()
        invariant
            i <= input.len(),
            acc == alternating_sum(input@.take(i as int)),
            -(i * 0x8000_0000_0000_0000) <= acc <= i * 0x8000_0000_0000_0000,
        decreases input.len() - i,
    {
        proof {
            assert(input@.take(i + 1).drop_last() =~= input@.take(i as int));
        }
        if i % 2 == 0 {
            acc = acc + input[i] as i128;
        } else {
            acc = acc - input[i] as i128;
        }
        i += 1;
    }
    proof {
        assert(input@.take(input.len() as int) =~= input@);
    }
    acc as i64
}

} // verus!
