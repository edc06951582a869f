//! Fibonacci numbers.

use vstd::prelude::*;

verus! {

/// The Fibonacci numbers: 0, 1, and from there on the sum of the two before.
pub open spec fn fib(n: nat) -> nat
    decreases n,
{
    if n == 0 {
        0
    } else if n == 1 {
        1
    } else {
        fib((n - 1) as nat) + fib((n - 2) as nat)
    }
}

/// The Fibonacci numbers never decrease.
pub proof fn lemma_fib_monotonic(i: nat, j: nat)
    requires
        i <= j,
    ensures
        fib(i) <= fib(j),
    decreases j,
{
    if i < j {
        if j >= 2 {
            lemma_fib_monotonic(i, (j - 1) as nat);
        }
    }
}

pub fn fibonacci(n: u32) -> (val: u32)
    requires
        fib(n as nat) <= u32::MAX,
    ensures
        val == fib(n as nat),
{
    let mut first: u32 = 0;
    let mut second: u32 = 1;
    if n == 0 {
        return first;
    }
    if n == 1 {
        return second;
    }
    let mut val: u32 = second;
    let mut i: u32 = 1;
    while i < n
        invariant
            1 <= i <= n,
            first == fib((i - 1) as nat),
            second == fib(i as nat),
            val == second,
            fib(n as nat) <= u32::MAX,
        decreases n - i,
    {
        proof {
            lemma_fib_monotonic((i + 1) as nat, n as nat);
        }
        val = first + second;
        let temp = second;
        second = val;
        first = temp;
        i += 1;
    }
    val
}

} // verus!
