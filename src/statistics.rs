//! Sums over a sequence of guess counts, from which mean, variance and
//! standard deviation follow.
use vstd::prelude::*;

verus! {

/// Why no moments could be computed.
#[derive(Clone, Copy, Debug, PartialEq, Eq)]
pub enum StatsError {
    /// The sequence holds no value.
    EmptyInput,
    /// The sum of the squares does not fit in 128 bits.
    Overflow,
}

/// The sums over a non-empty sequence of counts.
///
/// Mean is `sum / count`; variance is `sum_of_squares / count - mean^2`.
#[derive(Clone, Copy, Debug, PartialEq, Eq)]
pub struct Moments {
    /// Number of values.
    pub count: usize,
    /// Sum of the values.
    pub sum: u128,
    /// Sum of the squares of the values.
    pub sum_of_squares: u128,
}

/// Sum of the values of `s`.
pub open spec fn sum_of(s: Seq<u128>) -> int
    decreases s.len(),
{
    if s.len() == 0 {
        0
    } else {
        sum_of(s.drop_last()) + s.last()
    }
}

/// Sum of the squares of the values of `s`.
pub open spec fn sum_of_squares(s: Seq<u128>) -> int
    decreases s.len(),
{
    if s.len() == 0 {
        0
    } else {
        sum_of_squares(s.drop_last()) + s.last() * s.last()
    }
}

/// A sum of squares of naturals bounds their sum, and bounds the sum of
/// squares of any prefix.
proof fn lemma_sums_bounded(s: Seq<u128>, i: int)
    requires
        0 <= i <= s.len(),
    ensures
        0 <= sum_of(s),
        sum_of(s) <= sum_of_squares(s),
        sum_of_squares(s.take(i)) <= sum_of_squares(s),
    decreases s.len(),
{
    if s.len() > 0 {
        let x = s.last();
        assert(x <= x * x) by (nonlinear_arith);
        if i == s.len() {
            assert(s.take(i) =~= s);
            lemma_sums_bounded(s.drop_last(), 0);
        } else {
            assert(s.take(i) =~= s.drop_last().take(i));
            lemma_sums_bounded(s.drop_last(), i);
        }
    } else {
        assert(s.take(i) =~= s);
    }
}

/// Computes the number, sum and sum of squares of `values`.
///
/// Fails with `EmptyInput` on an empty sequence, and with `Overflow` when
/// the sum of squares does not fit in 128 bits.
pub fn compute_moments(values: &Vec<u128>) -> (r: Result<Moments, StatsError>)
    ensures
        values@.len() == 0 ==> r == Err::<Moments, StatsError>(StatsError::EmptyInput),
        values@.len() > 0 && sum_of_squares(values@) > u128::MAX ==> r == Err::<
            Moments,
            StatsError,
        >(StatsError::Overflow),
        values@.len() > 0 && sum_of_squares(values@) <= u128::MAX ==> r == Ok::<
            Moments,
            StatsError,
        >(
            Moments {
                count: values.len(),
                sum: sum_of(values@) as u128,
                sum_of_squares: sum_of_squares(values@) as u128,
            },
        ),
{
    let n = values.len();
    if n == 0 {
        return Err(StatsError::EmptyInput);
    }
    let mut sum: u128 = 0;
    let mut squares: u128 = 0;
    let mut i: usize = 0;
    while i < n
        invariant
            n == values@.len(),
            i <= n,
            sum == sum_of(values@.take(i as int)),
            squares == sum_of_squares(values@.take(i as int)),
        decreases n - i,
    {
        let x = values[i];
        let ghost next = values@.take(i + 1);
        proof {
            assert(next.drop_last() =~= values@.take(i as int));
            lemma_sums_bounded(values@, i + 1);
            lemma_sums_bounded(next, i + 1);
        }
        let x2 = match x.checked_mul(x) {
            Some(v) => v,
            None => {
                proof {
                    assert(sum_of_squares(next) >= x * x);
                }
                return Err(StatsError::Overflow);
            },
        };
        squares = match squares.checked_add(x2) {
            Some(v) => v,
            None => {
                return Err(StatsError::Overflow);
            },
        };
        sum = sum + x;
        i = i + 1;
    }
    proof {
        assert(values@.take(n as int) =~= values@);
    }
    Ok(Moments { count: n, sum, sum_of_squares: squares })
}

} // verus!
