use vstd::arithmetic::div_mod::{lemma_fundamental_div_mod, lemma_mod_bound};
use vstd::prelude::*;

verus! {

/// `Math.floorDiv`: the quotient rounded towards negative infinity.
pub open spec fn floor_div_spec(a: int, b: int) -> int {
    if b > 0 {
        a / b
    } else {
        (-a) / (-b)
    }
}

/// `Math.floorMod`: what is left over after `floorDiv`, of the divisor's sign.
pub open spec fn floor_mod_spec(a: int, b: int) -> int {
    a - b * floor_div_spec(a, b)
}

proof fn lemma_floor_bounds(a: int, b: int)
    requires
        b != 0,
    ensures
        b > 0 ==> 0 <= floor_mod_spec(a, b) < b,
        b < 0 ==> b < floor_mod_spec(a, b) <= 0,
{
    if b > 0 {
        lemma_fundamental_div_mod(a, b);
        lemma_mod_bound(a, b);
    } else {
        lemma_fundamental_div_mod(-a, -b);
        lemma_mod_bound(-a, -b);
        assert(-a == (-b) * ((-a) / (-b)) + (-a) % (-b));
        assert(b * ((-a) / (-b)) == -((-b) * ((-a) / (-b)))) by (nonlinear_arith);
    }
}

pub fn floor_div(a: i32, b: i32) -> (q: i32)
    requires
        b != 0,
        !(a == i32::MIN && b == -1),
    ensures
        q == floor_div_spec(a as int, b as int),
{
    let wide_a = a as i64;
    let wide_b = b as i64;
    proof {
        lemma_floor_bounds(a as int, b as int);
        let fd = floor_div_spec(a as int, b as int);
        let fm = floor_mod_spec(a as int, b as int);
        if b > 0 {
            assert(i32::MIN <= fd <= i32::MAX) by (nonlinear_arith)
                requires
                    a == b * fd + fm,
                    0 <= fm < b,
                    b >= 1,
                    i32::MIN <= a <= i32::MAX,
            ;
        } else {
            assert(i32::MIN <= fd <= i32::MAX) by (nonlinear_arith)
                requires
                    a == b * fd + fm,
                    b < fm <= 0,
                    b <= -1,
                    i32::MIN <= a <= i32::MAX,
                    !(a == i32::MIN && b == -1),
            ;
        }
    }
    let q = if wide_b > 0 {
        wide_a.checked_div_euclid(wide_b)
    } else {
        (-wide_a).checked_div_euclid(-wide_b)
    };
    q.unwrap() as i32
}

pub fn floor_mod(a: i32, b: i32) -> (r: i32)
    requires
        b != 0,
    ensures
        r == floor_mod_spec(a as int, b as int),
        b > 0 ==> 0 <= r < b,
        b < 0 ==> b < r <= 0,
{
    proof {
        lemma_floor_bounds(a as int, b as int);
    }
    if b == -1 {
        return 0;
    }
    let q = floor_div(a, b);
    let r = (a as i64) - (b as i64) * (q as i64);
    r as i32
}

} // verus!
