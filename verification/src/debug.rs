//! The arithmetic of the debugging modules: a counter answers each request for `n` values
//! with the next `n` counts.

use vstd::prelude::*;

verus! {

/// Answers a request for `n` values from a counter that has reached `count`: the values
/// `count + 1` to `count + n`, in order, and the count reached afterwards.
pub fn count_up(count: i32, n: usize) -> (r: (Vec<i32>, i32))
    requires
        count + n <= i32::MAX,
    ensures
        r.0@.len() == n,
        forall|k: int| 0 <= k < n ==> #[trigger] r.0@[k] == count + k + 1,
        r.1 == count + n,
{
    let mut values: Vec<i32> = Vec::new();
    let mut current = count;
    let mut i: usize = 0;
    while i < n
        invariant
            i <= n,
            count + n <= i32::MAX,
            current == count + i,
            values@.len() == i,
            forall|k: int| 0 <= k < i ==> #[trigger] values@[k] == count + k + 1,
        decreases n - i,
    {
        current = current + 1;
        values.push(current);
        i = i + 1;
    }
    (values, current)
}

} // verus!
