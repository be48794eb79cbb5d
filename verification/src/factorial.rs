//! The factorial function, iteratively.

use vstd::prelude::*;

verus! {

/// The factorial of `n`.
pub open spec fn fact(n: nat) -> nat
    decreases n,
{
    if n == 0 {
        1
    } else {
        n * fact((n - 1) as nat)
    }
}

/// The factorial never decreases.
pub proof fn lemma_fact_mono(a: nat, b: nat)
    requires
        a <= b,
    ensures
        1 <= fact(a) <= fact(b),
    decreases b,
{
    if b == 0 {
    } else if a < b {
        lemma_fact_mono(a, (b - 1) as nat);
        assert(fact(b) == b * fact((b - 1) as nat));
        assert(1 * fact((b - 1) as nat) <= b * fact((b - 1) as nat)) by (nonlinear_arith)
            requires
                1 <= b,
                0 <= fact((b - 1) as nat),
        ;
    } else {
        lemma_fact_mono((a - 1) as nat, (b - 1) as nat);
        assert(1 * fact((b - 1) as nat) <= b * fact((b - 1) as nat)) by (nonlinear_arith)
            requires
                1 <= b,
                0 <= fact((b - 1) as nat),
        ;
    }
}

/// From three on, the factorial outgrows its argument.
pub proof fn lemma_fact_gt(n: nat)
    requires
        3 <= n,
    ensures
        fact(n) > n,
    decreases n,
{
    if n == 3 {
        assert(fact(3) == 3 * fact(2));
        assert(fact(2) == 2 * fact(1));
        assert(fact(1) == 1 * fact(0));
    } else {
        lemma_fact_gt((n - 1) as nat);
        assert(fact(n) == n * fact((n - 1) as nat));
        assert(n * fact((n - 1) as nat) > n) by (nonlinear_arith)
            requires
                n >= 2,
                fact((n - 1) as nat) >= 2,
        ;
    }
}

/// The factorial of `n`.
pub fn factorial(n: usize) -> (r: usize)
    requires
        fact(n as nat) <= usize::MAX,
    ensures
        r == fact(n as nat),
{
    let mut result: usize = 1;
    let mut x: usize = 2;
    proof {
        assert(fact(0) == 1);
        assert(fact(1) == 1 * fact(0));
        if n >= 3 {
            lemma_fact_gt(n as nat);
        }
    }
    while x <= n
        invariant
            2 <= x,
            x <= n + 1 || x == 2,
            n < usize::MAX || n <= 2,
            fact(n as nat) <= usize::MAX,
            x <= n + 1 ==> result == fact((x - 1) as nat),
            x == 2 ==> result == 1,
        decreases n + 1 - x,
    {
        proof {
            lemma_fact_mono(x as nat, n as nat);
            assert(fact(x as nat) == x * fact((x - 1) as nat));
            assert(result * x == x * result) by (nonlinear_arith);
            assert(result * x == fact(x as nat));
            assert(fact(x as nat) <= fact(n as nat));
        }
        result = result * x;
        x = x + 1;
    }
    proof {
        if n >= 2 {
            assert(result == fact(((n + 1) - 1) as nat));
        } else {
            assert(fact(0) == 1);
            assert(fact(1) == 1 * fact(0));
        }
    }
    result
}

} // verus!
