//! Arithmetic over lists of numbers.

use vstd::prelude::*;

verus! {

/// The sum of the elements of `s`.
pub open spec fn total(s: Seq<i32>) -> int
    decreases s.len(),
{
    if s.len() == 0 {
        0
    } else {
        total(s.drop_last()) + s.last()
    }
}

/// `a` divided by the positive number `n` and rounded toward zero: what
/// is left after the division is dropped, whatever the sign of `a`.
pub open spec fn quotient_toward_zero(a: int, n: int) -> int
    recommends
        n > 0,
{
    if a >= 0 {
        a / n
    } else {
        -((-a) / n)
    }
}

/// The average of the elements of `s`, rounded toward zero.
pub open spec fn mean(s: Seq<i32>) -> int
    recommends
        s.len() > 0,
{
    quotient_toward_zero(total(s), s.len() as int)
}

/// A sum lies between its number of elements times the least `i32` and
/// that number times the greatest.
pub proof fn lemma_total_bounds(s: Seq<i32>)
    ensures
        s.len() * i32::MIN <= total(s) <= s.len() * i32::MAX,
    decreases s.len(),
{
    if s.len() > 0 {
        lemma_total_bounds(s.drop_last());
        let n: int = s.len() as int;
        assert((n - 1) * i32::MIN + i32::MIN == n * i32::MIN) by (nonlinear_arith);
        assert((n - 1) * i32::MAX + i32::MAX == n * i32::MAX) by (nonlinear_arith);
    }
}

/// The average of numbers lies between the least of them and the greatest;
/// so an average of `i32` values is an `i32`.
pub proof fn lemma_mean_bounds(s: Seq<i32>)
    requires
        s.len() > 0,
    ensures
        i32::MIN <= mean(s) <= i32::MAX,
{
    let n: int = s.len() as int;
    let sum: int = total(s);
    lemma_total_bounds(s);
    if sum >= 0 {
        assert(sum / n <= i32::MAX) by (nonlinear_arith)
            requires
                n > 0,
                0 <= sum <= n * i32::MAX,
        ;
        assert(0 <= sum / n) by (nonlinear_arith)
            requires
                n > 0,
                0 <= sum,
        ;
    } else {
        assert((-sum) / n <= -i32::MIN) by (nonlinear_arith)
            requires
                n > 0,
                0 <= -sum <= n * (-i32::MIN),
        ;
        assert(0 <= (-sum) / n) by (nonlinear_arith)
            requires
                n > 0,
                0 <= -sum,
        ;
    }
}

/// The average of `nums`: their sum divided by their number, rounded toward
/// zero. The sum is taken exactly, however large it grows.
///
/// No numbers have no average: for an empty list the result is `None`.
pub fn average(nums: &[i32]) -> (avg: Option<i32>)
    ensures
        avg is None <==> nums@.len() == 0,
        avg matches Some(a) ==> a == mean(nums@),
{
    if nums.len() == 0 {
        return None;
    }
    let mut sum: i128 = 0;
    let mut i: usize = 0;
    while i < nums.len()
        invariant
            i <= nums.len(),
            sum == total(nums@.take(i as int)),
        decreases nums.len() - i,
    {
        proof {
            lemma_total_bounds(nums@.take(i as int));
            assert(nums@.take(i + 1).drop_last() =~= nums@.take(i as int));
            assert(i * i32::MIN >= usize::MAX * i32::MIN) by (nonlinear_arith)
                requires
                    0 <= i <= usize::MAX,
            ;
            assert(i * i32::MAX <= usize::MAX * i32::MAX) by (nonlinear_arith)
                requires
                    0 <= i <= usize::MAX,
            ;
        }
        sum = sum + nums[i] as i128;
        i = i + 1;
    }
    proof {
        assert(nums@.take(i as int) =~= nums@);
        lemma_total_bounds(nums@);
        lemma_mean_bounds(nums@);
        assert(i * i32::MIN >= usize::MAX * i32::MIN) by (nonlinear_arith)
            requires
                0 <= i <= usize::MAX,
        ;
    }
    let count: u128 = nums.len() as u128;
    if sum >= 0 {
        Some((sum as u128 / count) as i32)
    } else {
        let below: u128 = ((-sum) as u128) / count;
        Some((-(below as i128)) as i32)
    }
}

} // verus!
