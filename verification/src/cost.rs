//! The selectivity-driven cost model.
//!
//! The intended cost of a plan is a product/power formula over label size
//! estimates: a label costs its entry count, sequential composition and
//! alternation cost `min(child costs) ^ 1.1`, a star costs `child ^ 2`, and a
//! fused star form costs the product of its two children.  Verified code
//! holds no floating point, so costs are carried in exact logarithmic fixed
//! point: a cost value is `log2` of the intended cost, scaled by
//! [`COST_SCALE`].  In that space the power laws become exact integer
//! operations — `^ 1.1` is `x * 11 / 10`, squaring is doubling, a product is
//! a sum — and only the leaf logarithm is rounded (down, deterministically).
//! Ordering of plans is preserved up to that leaf rounding, and every
//! operation is a pure function of its arguments, so extraction stays
//! deterministic.

use vstd::prelude::*;
use vstd::arithmetic::power2::pow2;
use vstd::arithmetic::power2::lemma2_to64;
use vstd::arithmetic::power2::lemma_pow2_adds;
use vstd::arithmetic::power2::lemma_pow2_pos;
use vstd::arithmetic::power2::lemma_pow2_strictly_increases;
use vstd::arithmetic::div_mod::lemma_div_denominator;
use vstd::arithmetic::div_mod::lemma_div_is_ordered;
use vstd::arithmetic::div_mod::lemma_div_multiples_vanish;
use vstd::arithmetic::div_mod::lemma_multiply_divide_lt;
use crate::plan::Plan;
use crate::plan::PlanV;
use crate::plan::Term;

verus! {

/// Fixed-point scale of cost values: one unit of `log2` is this many ticks.
pub const COST_SCALE: u64 = 65536;

/// Ceiling on cost values; saturating at it keeps every operation total.
pub const COST_CAP: u64 = 0x4000_0000_0000_0000;

/// `floor(log2(n))`, with 0 for inputs below 2.
pub open spec fn spec_floor_log2(n: nat) -> nat
    decreases n,
{
    if n < 2 {
        0
    } else {
        (1 + spec_floor_log2(n / 2)) as nat
    }
}

/// The first `k` fractional bits of `log2(m / 2^63)` for a normalized
/// mantissa `m` in `[2^63, 2^64)`, read as a `k`-bit integer.  Each step
/// squares the mantissa and takes the carry bit.
pub open spec fn spec_frac_bits(m: nat, k: nat) -> nat
    decreases k,
{
    if k == 0 {
        0
    } else {
        if m * m >= 0x8000_0000_0000_0000_0000_0000_0000_0000 {
            spec_frac_bits(m * m / 0x1_0000_0000_0000_0000, (k - 1) as nat) + pow2((k - 1) as nat)
        } else {
            spec_frac_bits(m * m / 0x8000_0000_0000_0000, (k - 1) as nat)
        }
    }
}

/// `log2(n)` in fixed point: the integer part exactly, then sixteen
/// fractional bits, rounded down.  Inputs 0 and 1 both cost zero.
pub open spec fn spec_log2_fp(n: nat) -> nat {
    if n <= 1 {
        0
    } else {
        spec_floor_log2(n) * (COST_SCALE as nat) + spec_frac_bits(
            n * pow2((63 - spec_floor_log2(n)) as nat),
            16,
        )
    }
}

/// `pow2(floor_log2(n)) <= n < pow2(floor_log2(n) + 1)` for positive `n`.
pub proof fn lemma_floor_log2_bounds(n: nat)
    requires
        n >= 1,
    ensures
        pow2(spec_floor_log2(n)) <= n,
        n < pow2(spec_floor_log2(n) + 1),
    decreases n,
{
    if n < 2 {
        lemma2_to64();
    } else {
        lemma_floor_log2_bounds(n / 2);
        let e = spec_floor_log2(n / 2);
        lemma_pow2_adds(e, 1);
        lemma_pow2_adds(e + 1, 1);
        lemma2_to64();
        assert(pow2(e + 1) == pow2(e) * 2);
        assert(pow2(e + 2) == pow2(e + 1) * 2);
        assert(n / 2 * 2 <= n < (n / 2 + 1) * 2) by (nonlinear_arith);
        assert(pow2(e) <= n / 2);
        assert(pow2(e) * 2 <= n / 2 * 2) by (nonlinear_arith)
            requires pow2(e) <= n / 2;
        assert(n < (n / 2 + 1) * 2 <= pow2(e + 1) * 2) by (nonlinear_arith)
            requires n / 2 + 1 <= pow2(e + 1), n < (n / 2 + 1) * 2;
    }
}

/// Ring identity used when one fractional bit is appended.
proof fn lemma_acc_step(a: int, p: int)
    ensures
        (2 * a + 1) * p == a * (2 * p) + p,
        (2 * a) * p == a * (2 * p),
{
    vstd::arithmetic::mul::lemma_mul_is_distributive_add_other_way(p, 2 * a, 1);
    vstd::arithmetic::mul::lemma_mul_is_associative(2, a, p);
    vstd::arithmetic::mul::lemma_mul_is_associative(a, 2, p);
    vstd::arithmetic::mul::lemma_mul_is_commutative(2, a);
}

/// Computes [`spec_log2_fp`] exactly, by binary search on the exponent and
/// sixteen mantissa-squaring steps.
pub fn log2_fp(n: u64) -> (r: u64)
    ensures
        r == spec_log2_fp(n as nat),
        r < 64 * COST_SCALE,
{
    proof {
        lemma2_to64();
    }
    if n <= 1 {
        return 0;
    }
    // Integer part: e with 2^e <= n < 2^(e+1).
    let mut e: u64 = 0;
    let mut k: u64 = n;
    while k >= 2
        invariant
            1 <= k,
            n >= 2,
            e <= 64,
            spec_floor_log2(n as nat) == e + spec_floor_log2(k as nat),
            k as nat == n as nat / pow2(e as nat),
            pow2(e as nat) >= 1,
        decreases k,
    {
        proof {
            lemma_pow2_adds(e as nat, 1);
            lemma2_to64();
            lemma_div_denominator(n as int, pow2(e as nat) as int, 2);
            assert(pow2(e as nat) * 2 == pow2((e + 1) as nat));
            assert(n as nat / pow2(e as nat) / 2 == n as nat / (pow2(e as nat) * 2));
            lemma_pow2_pos((e + 1) as nat);
            if e >= 64 {
                // impossible: k = n / pow2(e) >= 2 forces pow2(e) <= n < pow2(64)
                assert(k as nat * pow2(e as nat) <= n as nat) by {
                    vstd::arithmetic::div_mod::lemma_fundamental_div_mod(
                        n as int,
                        pow2(e as nat) as int,
                    );
                    vstd::arithmetic::div_mod::lemma_mod_bound(n as int, pow2(e as nat) as int);
                };
                assert(pow2(e as nat) < pow2(64)) by (nonlinear_arith)
                    requires
                        2 * pow2(e as nat) <= k as nat * pow2(e as nat),
                        k as nat * pow2(e as nat) <= n as nat,
                        n < pow2(64),
                        k >= 2,
                        pow2(e as nat) >= 1,
                ;
                if 64 <= e {
                    lemma_pow2_strictly_increases(64, e as nat);
                }
                assert(false);
            }
        }
        k = k / 2;
        e = e + 1;
    }
    proof {
        assert(spec_floor_log2(k as nat) == 0);
        assert(spec_floor_log2(n as nat) == e);
        lemma_floor_log2_bounds(n as nat);
        lemma2_to64();
        if e >= 64 {
            if 64 < e {
                lemma_pow2_strictly_increases(64, e as nat);
            }
            assert(false);
        }
    }
    // Normalize the mantissa to [2^63, 2^64).
    let shift: u64 = 63 - e;
    let mut m: u128 = n as u128;
    let mut j: u64 = 0;
    while j < shift
        invariant
            j <= shift,
            shift == 63 - e,
            e == spec_floor_log2(n as nat),
            e <= 63,
            n >= 2,
            m == n as nat * pow2(j as nat),
            m < pow2((e + 1 + j) as nat),
        decreases shift - j,
    {
        proof {
            lemma_pow2_adds(j as nat, 1);
            lemma_pow2_adds((e + 1 + j) as nat, 1);
            lemma2_to64();
            assert(n as nat * pow2((j + 1) as nat) == n as nat * pow2(j as nat) * 2)
                by (nonlinear_arith)
                requires pow2((j + 1) as nat) == pow2(j as nat) * 2;
            lemma_pow2_pos((e + 1 + j) as nat);
            if (e + 1 + j + 1) as nat <= 127 {
                lemma_pow2_strictly_increases((e + 1 + j + 1) as nat, 128);
            }
            assert(pow2(128) == pow2(64) * pow2(64)) by {
                lemma_pow2_adds(64, 64);
            };
        }
        m = m * 2;
        j = j + 1;
    }
    proof {
        lemma_floor_log2_bounds(n as nat);
        lemma_pow2_adds(e as nat, (63 - e) as nat);
        lemma_pow2_adds((e + 1) as nat, (63 - e) as nat);
        lemma_pow2_pos((63 - e) as nat);
        lemma2_to64();
        vstd::arithmetic::power2::lemma2_to64_rest();
        assert(pow2(e as nat) * pow2((63 - e) as nat) == pow2(63));
        assert(pow2((e + 1) as nat) * pow2((63 - e) as nat) == pow2(64));
        assert(m >= pow2(63)) by (nonlinear_arith)
            requires
                m == n as nat * pow2((63 - e) as nat),
                n as nat >= pow2(e as nat),
                pow2(e as nat) * pow2((63 - e) as nat) == pow2(63),
                pow2((63 - e) as nat) >= 1,
        ;
        assert((m as nat) < pow2(64)) by (nonlinear_arith)
            requires
                m == n as nat * pow2((63 - e) as nat),
                (n as nat) < pow2((e + 1) as nat),
                pow2((e + 1) as nat) * pow2((63 - e) as nat) == pow2(64),
                pow2((63 - e) as nat) >= 1,
        ;
        assert(m >= 0x8000_0000_0000_0000u128);
        assert(m < 0x1_0000_0000_0000_0000u128);
    }
    // Sixteen fractional bits by repeated squaring.
    let ghost m0 = m as nat;
    let mut acc: u64 = 0;
    let mut i: u64 = 0;
    while i < 16
        invariant
            i <= 16,
            0x8000_0000_0000_0000u128 <= m < 0x1_0000_0000_0000_0000u128,
            acc < pow2(i as nat),
            spec_frac_bits(m0, 16) == acc * pow2((16 - i) as nat) + spec_frac_bits(
                m as nat,
                (16 - i) as nat,
            ),
        decreases 16 - i,
    {
        proof {
            lemma2_to64();
            lemma_pow2_adds(i as nat, 1);
            lemma_pow2_adds((15 - i) as nat, 1);
            assert((m as nat) * (m as nat) < 0x1_0000_0000_0000_0000_0000_0000_0000_0000)
                by (nonlinear_arith)
                requires (m as nat) < 0x1_0000_0000_0000_0000;
        }
        let m2: u128 = m * m;
        if m2 >= 0x8000_0000_0000_0000_0000_0000_0000_0000u128 {
            proof {
                lemma_div_is_ordered(
                    0x8000_0000_0000_0000_0000_0000_0000_0000,
                    m2 as int,
                    0x1_0000_0000_0000_0000,
                );
                lemma_div_multiples_vanish(0x8000_0000_0000_0000, 0x1_0000_0000_0000_0000);
                lemma_multiply_divide_lt(
                    m2 as int,
                    0x1_0000_0000_0000_0000,
                    0x1_0000_0000_0000_0000,
                );
                assert(spec_frac_bits(m as nat, (16 - i) as nat) == spec_frac_bits(
                    m2 as nat / 0x1_0000_0000_0000_0000,
                    (15 - i) as nat,
                ) + pow2((15 - i) as nat));
                assert(pow2((16 - i) as nat) == pow2((15 - i) as nat) * 2);
                lemma_acc_step(acc as int, pow2((15 - i) as nat) as int);
            }
            acc = acc * 2 + 1;
            m = m2 / 0x1_0000_0000_0000_0000u128;
        } else {
            proof {
                assert((m2 as nat) >= 0x4000_0000_0000_0000_0000_0000_0000_0000)
                    by (nonlinear_arith)
                    requires m as nat >= 0x8000_0000_0000_0000, m2 == (m as nat) * (m as nat);
                lemma_div_is_ordered(
                    0x4000_0000_0000_0000_0000_0000_0000_0000,
                    m2 as int,
                    0x8000_0000_0000_0000,
                );
                lemma_div_multiples_vanish(0x8000_0000_0000_0000, 0x8000_0000_0000_0000);
                lemma_multiply_divide_lt(m2 as int, 0x8000_0000_0000_0000, 0x1_0000_0000_0000_0000);
                assert(spec_frac_bits(m as nat, (16 - i) as nat) == spec_frac_bits(
                    m2 as nat / 0x8000_0000_0000_0000,
                    (15 - i) as nat,
                ));
                assert(pow2((16 - i) as nat) == pow2((15 - i) as nat) * 2);
                lemma_acc_step(acc as int, pow2((15 - i) as nat) as int);
            }
            acc = acc * 2;
            m = m2 / 0x8000_0000_0000_0000u128;
        }
        i = i + 1;
    }
    proof {
        lemma2_to64();
        assert(i == 16);
        assert(spec_frac_bits(m as nat, 0) == 0);
        assert(pow2((16 - i) as nat) == 1);
        assert(acc * 1 == acc);
        assert(spec_frac_bits(m0, 16) == acc);
        assert(spec_log2_fp(n as nat) == e * 65536 + acc);
    }
    e * 65536 + acc
}

/// Saturates a cost at [`COST_CAP`].
pub open spec fn spec_cap_cost(x: int) -> int {
    if x > COST_CAP as int {
        COST_CAP as int
    } else {
        x
    }
}

/// Log-space image of raising a cost to the power 1.1.
pub open spec fn spec_pow11(x: int) -> int {
    spec_cap_cost(11 * x / 10)
}

/// Cost of a label leaf: the logarithm of its entry-count estimate.
pub open spec fn spec_label_cost(nvals: nat) -> int {
    spec_log2_fp(nvals) as int
}

/// Cost of `Cat` or `Alt`: `min(children) ^ 1.1` in log space.
pub open spec fn spec_cat_cost(a: int, b: int) -> int {
    spec_pow11(if a <= b { a } else { b })
}

/// Cost of `Star`: squaring in log space.
pub open spec fn spec_star_cost(a: int) -> int {
    spec_cap_cost(2 * a)
}

/// Cost of a fused star form: the product of the two children in log space.
pub open spec fn spec_fuse_cost(a: int, b: int) -> int {
    spec_cap_cost(a + b)
}

/// Cost of one plan node given the (at most two) child class costs; the
/// second argument is ignored for unary nodes and both for leaves.
pub open spec fn spec_node_cost(n: PlanV, c0: int, c1: int) -> int {
    match n {
        PlanV::Label(m) => spec_label_cost(m.nvals),
        PlanV::Cat(_, _) => spec_cat_cost(c0, c1),
        PlanV::Alt(_, _) => spec_cat_cost(c0, c1),
        PlanV::Star(_) => spec_star_cost(c0),
        PlanV::LStar(_, _) => spec_fuse_cost(c0, c1),
        PlanV::RStar(_, _) => spec_fuse_cost(c0, c1),
    }
}

/// Deterministic cost of a whole plan tree.
pub open spec fn spec_term_cost(t: Term) -> int
    decreases t,
{
    match t {
        Term::Label(m) => spec_label_cost(m.nvals),
        Term::Cat(a, b) => spec_cat_cost(spec_term_cost(*a), spec_term_cost(*b)),
        Term::Alt(a, b) => spec_cat_cost(spec_term_cost(*a), spec_term_cost(*b)),
        Term::Star(a) => spec_star_cost(spec_term_cost(*a)),
        Term::LStar(a, b) => spec_fuse_cost(spec_term_cost(*a), spec_term_cost(*b)),
        Term::RStar(a, b) => spec_fuse_cost(spec_term_cost(*a), spec_term_cost(*b)),
    }
}

/// The deterministic, selectivity-driven cost function.
pub struct SelectivityCostFn;

impl SelectivityCostFn {
    /// Exact executable form of [`spec_node_cost`].
    pub fn cost(&self, node: &Plan, c0: u64, c1: u64) -> (r: u64)
        ensures
            r == spec_node_cost(node@, c0 as int, c1 as int),
    {
        match node {
            Plan::Label(m) => log2_fp(m.nvals as u64),
            Plan::Cat(_, _) | Plan::Alt(_, _) => {
                let m = if c0 <= c1 { c0 } else { c1 };
                let t: u128 = 11 * (m as u128) / 10;
                if t > COST_CAP as u128 {
                    COST_CAP
                } else {
                    t as u64
                }
            },
            Plan::Star(_) => {
                let t: u128 = 2 * (c0 as u128);
                if t > COST_CAP as u128 {
                    COST_CAP
                } else {
                    t as u64
                }
            },
            Plan::LStar(_, _) | Plan::RStar(_, _) => {
                let t: u128 = c0 as u128 + c1 as u128;
                if t > COST_CAP as u128 {
                    COST_CAP
                } else {
                    t as u64
                }
            },
        }
    }
}

/// Every node cost is weakly monotone in its child costs: cheaper subplans
/// never make the enclosing plan dearer.
pub proof fn lemma_node_cost_monotone(n: PlanV, a0: int, a1: int, b0: int, b1: int)
    requires
        a0 <= b0,
        a1 <= b1,
    ensures
        spec_node_cost(n, a0, a1) <= spec_node_cost(n, b0, b1),
{
    lemma_pow11_monotone(if a0 <= a1 { a0 } else { a1 }, if b0 <= b1 { b0 } else { b1 });
}

/// `x * 11 / 10` is weakly monotone.
pub proof fn lemma_pow11_monotone(x: int, y: int)
    requires
        x <= y,
    ensures
        spec_pow11(x) <= spec_pow11(y),
{
    lemma_div_is_ordered(11 * x, 11 * y, 10);
}

/// The sequential-composition cost never exceeds the 1.1-power of the
/// *larger* branch: in log space, nonnegative costs stand for plan costs of
/// at least one, and taking the minimum first can only shrink the result.
pub proof fn lemma_cat_cost_bounded(a: int, b: int)
    requires
        0 <= a,
        0 <= b,
    ensures
        spec_cat_cost(a, b) <= spec_pow11(if a <= b { b } else { a }),
{
    lemma_pow11_monotone(if a <= b { a } else { b }, if a <= b { b } else { a });
}

} // verus!
