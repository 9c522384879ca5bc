use vstd::prelude::*;

verus! {

/// `base` raised to the power `exp`, over the mathematical integers.
pub open spec fn power(base: int, exp: nat) -> int
    decreases exp,
{
    if exp == 0 {
        1
    } else {
        base * power(base, (exp - 1) as nat)
    }
}

/// Any number to the power 0 is 1, and one more in the exponent is one more
/// factor of the base.
pub proof fn lemma_power_steps(base: int, exp: nat)
    ensures
        power(base, 0) == 1,
        power(base, exp + 1) == base * power(base, exp),
{
}

/// A positive base gives a positive power.
pub proof fn lemma_power_positive(base: int, exp: nat)
    requires
        base > 0,
    ensures
        power(base, exp) > 0,
    decreases exp,
{
    if exp > 0 {
        lemma_power_positive(base, (exp - 1) as nat);
        assert(base * power(base, (exp - 1) as nat) > 0) by (nonlinear_arith)
            requires
                base > 0,
                power(base, (exp - 1) as nat) > 0,
        ;
    }
}

/// For a positive base, the power grows with the exponent.
pub proof fn lemma_power_monotone(base: int, e1: nat, e2: nat)
    requires
        base > 0,
        e1 <= e2,
    ensures
        power(base, e1) <= power(base, e2),
    decreases e2,
{
    if e1 < e2 {
        lemma_power_monotone(base, e1, (e2 - 1) as nat);
        lemma_power_positive(base, (e2 - 1) as nat);
        let p = power(base, (e2 - 1) as nat);
        assert(p <= base * p) by (nonlinear_arith)
            requires
                base > 0,
                p > 0,
        ;
    }
}

/// `x` to the power `y`, computed by repeated multiplication. The caller
/// keeps the result within `u32`, where the multiplication cannot overflow.
pub fn pow(x: u32, y: u32) -> (result: u32)
    requires
        power(x as int, y as nat) <= u32::MAX,
    ensures
        result == power(x as int, y as nat),
{
    let mut result: u32 = 1;
    let mut i: u32 = 0;
    while i < y
        invariant
            i <= y,
            result == power(x as int, i as nat),
            power(x as int, y as nat) <= u32::MAX,
        decreases y - i,
    {
        proof {
            if x > 0 {
                lemma_power_monotone(x as int, (i + 1) as nat, y as nat);
            }
            assert(power(x as int, (i + 1) as nat) == x * power(x as int, i as nat));
        }
        result = result * x;
        i = i + 1;
    }
    result
}

} // verus!
