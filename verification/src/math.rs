//! Small integer helpers.

use vstd::prelude::*;

verus! {

/// The sum of the first `n` elements of `s`, as a mathematical integer.
pub open spec fn prefix_sum(s: Seq<i32>, n: int) -> int
    decreases n,
{
    if n <= 0 {
        0
    } else {
        prefix_sum(s, n - 1) + s[n - 1]
    }
}

/// The sum of all elements of `s`.
pub open spec fn seq_sum(s: Seq<i32>) -> int {
    prefix_sum(s, s.len() as int)
}

/// Adds two integers. The mathematical sum has to fit in an `i32`.
pub fn sum(a: i32, b: i32) -> (r: i32)
    requires
        i32::MIN <= a + b <= i32::MAX,
    ensures
        r == a + b,
{
    a + b
}

/// Adds up the elements of `a` from left to right and returns the total.
/// Every running total has to fit in an `i32`.
pub fn mean(a: Vec<i32>) -> (r: i32)
    requires
        forall|n: int| 0 <= n <= a.len() ==> i32::MIN <= #[trigger] prefix_sum(a@, n) <= i32::MAX,
    ensures
        r == seq_sum(a@),
{
    let mut total: i32 = 0;
    let mut i: usize = 0;
    while i < a.len()
        invariant
            i <= a.len(),
            total == prefix_sum(a@, i as int),
            forall|n: int| 0 <= n <= a.len() ==> i32::MIN <= #[trigger] prefix_sum(a@, n) <= i32::MAX,
        decreases a.len() - i,
    {
        assert(prefix_sum(a@, i + 1) == prefix_sum(a@, i as int) + a@[i as int]);
        total = total + a[i];
        i = i + 1;
    }
    total
}

} // verus!
