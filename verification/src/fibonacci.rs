//! The Fibonacci sequence, iteratively.

use vstd::prelude::*;

verus! {

/// The sequence itself: both of the first two values are 1.
pub open spec fn fib(n: nat) -> nat
    decreases n,
{
    if n < 2 {
        1
    } else {
        fib((n - 1) as nat) + fib((n - 2) as nat)
    }
}

/// The sequence never decreases.
pub proof fn lemma_fib_mono(a: nat, b: nat)
    requires
        a <= b,
    ensures
        fib(a) <= fib(b),
    decreases b,
{
    if a < b && b >= 2 {
        lemma_fib_mono(a, (b - 1) as nat);
    }
}

/// The `n`-th Fibonacci number.
pub fn fibonacci(n: usize) -> (r: usize)
    requires
        fib(n as nat) <= usize::MAX,
    ensures
        r == fib(n as nat),
{
    let mut a: usize = 1;
    let mut b: usize = 1;
    let mut result: usize = a;
    let mut x: usize = 1;
    while x < n
        invariant
            1 <= x || n == 0,
            x <= n || (n == 0 && x == 1),
            fib(n as nat) <= usize::MAX,
            n > 0 ==> a == fib((x - 1) as nat) && b == fib(x as nat) && result == b,
            n == 0 ==> result == 1,
        decreases n - x,
    {
        proof {
            lemma_fib_mono((x + 1) as nat, n as nat);
        }
        result = a + b;
        a = b;
        b = result;
        x = x + 1;
    }
    result
}

} // verus!
