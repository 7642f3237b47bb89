use vstd::prelude::*;

use crate::extent::abs_int;

verus! {

/// Relies on `num_traits::Bounded::max_value` for `i64`: the largest `i64`.
#[verifier::external_body]
pub(crate) fn scalar_max() -> (r: i64)
    ensures
        r == i64::MAX,
{
    <i64 as num_traits::Bounded>::max_value()
}

/// Relies on `num_traits::Bounded::min_value` for `i64`: the smallest `i64`.
#[verifier::external_body]
pub(crate) fn scalar_min() -> (r: i64)
    ensures
        r == i64::MIN,
{
    <i64 as num_traits::Bounded>::min_value()
}

/// Relies on `num_traits::Signed::abs` for `i128`: `-x` for a negative `x`, else `x`.
/// It negates, so `i128::MIN` is left out.
#[verifier::external_body]
pub(crate) fn abs_wide(x: &i128) -> (r: i128)
    requires
        *x > i128::MIN,
    ensures
        r == abs_int(*x as int),
{
    num_traits::Signed::abs(x)
}

} // verus!
