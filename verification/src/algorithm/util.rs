//! Small arithmetic helpers shared by the scheduling core.

use vstd::prelude::*;

verus! {

/// Element-wise copy of an array of plain values.
pub(crate) fn copy_vec<T: Copy>(v: &Vec<T>) -> (r: Vec<T>)
    ensures
        r@ == v@,
{
    let mut r: Vec<T> = Vec::new();
    let mut i: usize = 0;
    while i < v.len()
        invariant
            i <= v@.len(),
            r@ == v@.subrange(0, i as int),
        decreases v@.len() - i,
    {
        r.push(v[i]);
        i = i + 1;
    }
    proof {
        assert(r@ =~= v@);
    }
    r
}

/// Mathematical factorial.
pub open spec fn fact(n: nat) -> nat
    decreases n,
{
    if n == 0 {
        1
    } else {
        n * fact((n - 1) as nat)
    }
}

/// Factorial never shrinks when its argument grows.
pub proof fn lemma_fact_monotonic(a: nat, b: nat)
    requires
        a <= b,
    ensures
        fact(a) <= fact(b),
    decreases b,
{
    if a < b {
        lemma_fact_monotonic(a, (b - 1) as nat);
        assert(fact(b) == b * fact((b - 1) as nat));
        assert(fact((b - 1) as nat) <= b * fact((b - 1) as nat)) by (nonlinear_arith)
            requires
                b >= 1,
                fact((b - 1) as nat) >= 0,
        ;
        assert(fact((b - 1) as nat) >= 1) by {
            lemma_fact_monotonic(0, (b - 1) as nat);
        }
    }
}

/// The factorial of `value`, computed iteratively.
pub fn factional(value: usize) -> (r: usize)
    requires
        fact(value as nat) <= usize::MAX,
    ensures
        r as nat == fact(value as nat),
{
    let mut r: usize = 1;
    let mut k: usize = 0;
    while k < value
        invariant
            k <= value,
            r as nat == fact(k as nat),
            fact(value as nat) <= usize::MAX,
        decreases value - k,
    {
        proof {
            lemma_fact_monotonic((k + 1) as nat, value as nat);
            assert(fact((k + 1) as nat) == ((k + 1) as nat) * fact(k as nat));
            assert(((k + 1) as nat) * fact(k as nat) == fact(k as nat) * ((k + 1) as nat))
                by (nonlinear_arith);
        }
        k = k + 1;
        r = r * k;
    }
    r
}

} // verus!


