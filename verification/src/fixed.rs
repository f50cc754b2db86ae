//! Fixed-point arithmetic for scores.
//!
//! A score is a `u64` holding the value scaled by `SCALE`, so `SCALE` itself
//! is 1.0. Every operation is exact integer arithmetic: results are
//! deterministic, and rounding always goes toward zero.

use vstd::prelude::*;
use vstd::arithmetic::div_mod::{
    lemma_fundamental_div_mod, lemma_fundamental_div_mod_converse, lemma_div_is_ordered,
    lemma_div_multiples_vanish, lemma_mod_division_less_than_divisor,
};
use vstd::arithmetic::mul::{lemma_mul_is_distributive_add, lemma_mul_inequality};

verus! {

/// 1.0 in fixed point.
pub const SCALE: u64 = 1_000_000;

/// Largest number of pages a ranking run accepts; it keeps every sum and
/// product within `u64`/`u128` range.
pub const MAX_PAGES: u64 = 1_000_000;

/// Upper bound on the total score mass of a graph: `MAX_PAGES` pages of mass
/// 1.0 each.
pub const MAX_MASS: u64 = 1_000_000_000_000;

/// Sum of a sequence of scores, as an unbounded integer.
pub open spec fn sum64(s: Seq<u64>) -> int
    decreases s.len(),
{
    if s.len() == 0 {
        0
    } else {
        sum64(s.drop_last()) + s.last()
    }
}

pub proof fn lemma_sum64_nonneg(s: Seq<u64>)
    ensures
        sum64(s) >= 0,
    decreases s.len(),
{
    if s.len() > 0 {
        lemma_sum64_nonneg(s.drop_last());
    }
}

pub proof fn lemma_sum64_push(s: Seq<u64>, v: u64)
    ensures
        sum64(s.push(v)) == sum64(s) + v,
{
    assert(s.push(v).drop_last() =~= s);
    assert(s.push(v).last() == v);
}

pub proof fn lemma_sum64_take_succ(s: Seq<u64>, i: int)
    requires
        0 <= i < s.len(),
    ensures
        sum64(s.take(i + 1)) == sum64(s.take(i)) + s[i],
{
    assert(s.take(i + 1).drop_last() =~= s.take(i));
    assert(s.take(i + 1).last() == s[i]);
}

pub proof fn lemma_sum64_concat(a: Seq<u64>, b: Seq<u64>)
    ensures
        sum64(a + b) == sum64(a) + sum64(b),
    decreases b.len(),
{
    if b.len() == 0 {
        assert(a + b =~= a);
    } else {
        assert((a + b).drop_last() =~= a + b.drop_last());
        assert((a + b).last() == b.last());
        lemma_sum64_concat(a, b.drop_last());
    }
}

pub proof fn lemma_sum64_take_le(s: Seq<u64>, i: int)
    requires
        0 <= i <= s.len(),
    ensures
        sum64(s.take(i)) <= sum64(s),
{
    assert(s =~= s.take(i) + s.skip(i));
    lemma_sum64_concat(s.take(i), s.skip(i));
    lemma_sum64_nonneg(s.skip(i));
}

pub proof fn lemma_sum64_update(s: Seq<u64>, i: int, v: u64)
    requires
        0 <= i < s.len(),
    ensures
        sum64(s.update(i, v)) == sum64(s) - s[i] + v,
    decreases s.len(),
{
    if i == s.len() - 1 {
        assert(s.update(i, v).drop_last() =~= s.drop_last());
        assert(s.update(i, v).last() == v);
    } else {
        assert(s.update(i, v).drop_last() =~= s.drop_last().update(i, v));
        assert(s.update(i, v).last() == s.last());
        lemma_sum64_update(s.drop_last(), i, v);
        assert(s.drop_last()[i] == s[i]);
    }
}

pub proof fn lemma_sum64_elem_le(s: Seq<u64>, i: int)
    requires
        0 <= i < s.len(),
    ensures
        s[i] <= sum64(s),
    decreases s.len(),
{
    lemma_sum64_nonneg(s.drop_last());
    if i < s.len() - 1 {
        lemma_sum64_elem_le(s.drop_last(), i);
        assert(s.drop_last()[i] == s[i]);
    }
}

/// A sequence of scores bounded by `c` sums to at most `len * c`.
pub proof fn lemma_sum64_all_le(s: Seq<u64>, c: u64)
    requires
        forall|i: int| 0 <= i < s.len() ==> (#[trigger] s[i]) <= c,
    ensures
        sum64(s) <= s.len() * c,
    decreases s.len(),
{
    if s.len() > 0 {
        assert forall|i: int| 0 <= i < s.drop_last().len()
            implies (#[trigger] s.drop_last()[i]) <= c by {
            assert(s.drop_last()[i] == s[i]);
        }
        lemma_sum64_all_le(s.drop_last(), c);
        assert(s.len() * c == (s.len() - 1) * c + c) by (nonlinear_arith);
    }
}

/// Flooring division distributes over a sum up to one unit.
pub proof fn lemma_div_sum_bounds(a: int, b: int, c: int)
    requires
        a >= 0,
        b >= 0,
        c >= 1,
    ensures
        a / c + b / c <= (a + b) / c,
        (a + b) / c <= a / c + b / c + 1,
{
    let qa = a / c;
    let ra = a % c;
    let qb = b / c;
    let rb = b % c;
    lemma_fundamental_div_mod(a, c);
    lemma_fundamental_div_mod(b, c);
    lemma_mod_division_less_than_divisor(a, c);
    lemma_mod_division_less_than_divisor(b, c);
    lemma_mul_is_distributive_add(c, qa, qb);
    if ra + rb < c {
        lemma_fundamental_div_mod_converse(a + b, c, qa + qb, ra + rb);
    } else {
        lemma_mul_is_distributive_add(c, qa + qb, 1);
        assert((qa + qb + 1) * c == (qa + qb) * c + c) by (nonlinear_arith);
        lemma_fundamental_div_mod_converse(a + b, c, qa + qb + 1, ra + rb - c);
    }
}

/// `(a * w) / s <= a` whenever `w <= s`.
pub proof fn lemma_mul_div_le(a: int, w: int, s: int)
    requires
        a >= 0,
        0 <= w <= s,
        s >= 1,
    ensures
        (a * w) / s <= a,
{
    lemma_mul_inequality(w, s, a);
    assert(a * w == w * a) by (nonlinear_arith);
    assert(a * s == s * a) by (nonlinear_arith);
    lemma_div_is_ordered(a * w, a * s, s);
    lemma_div_multiples_vanish(a, s);
}

/// The fourth power of an integer.
pub open spec fn pow4(r: int) -> int {
    r * r * r * r
}

/// `r` is the integer fourth root of `x`.
pub open spec fn is_root4(x: int, r: int) -> bool {
    0 <= r && pow4(r) <= x && x < pow4(r + 1)
}

/// The integer fourth root of `x`.
pub open spec fn root4_of(x: int) -> int {
    choose|r: int| is_root4(x, r)
}

pub proof fn lemma_pow4_monotone(a: int, b: int)
    requires
        0 <= a <= b,
    ensures
        pow4(a) <= pow4(b),
{
    assert(a * a * a * a <= b * b * b * b) by (nonlinear_arith)
        requires
            0 <= a <= b,
    ;
}

pub proof fn lemma_root4_unique(x: int, a: int, b: int)
    requires
        is_root4(x, a),
        is_root4(x, b),
    ensures
        a == b,
{
    if a < b {
        lemma_pow4_monotone(a + 1, b);
        assert(false);
    }
    if b < a {
        lemma_pow4_monotone(b + 1, a);
        assert(false);
    }
}

/// Largest input `fourth_root` accepts: 2^104, the fourth power of 2^26.
pub const MAX_ROOT4_INPUT: u128 = 0x100000000000000000000000000;

/// The integer fourth root: the largest `r` with `r^4 <= x`.
pub fn fourth_root(x: u128) -> (r: u64)
    requires
        x < MAX_ROOT4_INPUT,
    ensures
        is_root4(x as int, r as int),
        r as int == root4_of(x as int),
        r < 0x4000000,
{
    let mut lo: u64 = 0;
    let mut hi: u64 = 0x4000000;
    proof {
        assert(pow4(0x4000000) == MAX_ROOT4_INPUT);
    }
    while hi - lo > 1
        invariant
            lo < hi <= 0x4000000,
            pow4(lo as int) <= x as int,
            (x as int) < pow4(hi as int),
        decreases hi - lo,
    {
        let mid: u64 = lo + (hi - lo) / 2;
        proof {
            assert(mid < 0x4000000);
            assert((mid as u128) * (mid as u128) <= 0x10000000000000) by (nonlinear_arith)
                requires
                    mid < 0x4000000,
            ;
        }
        let m2: u128 = (mid as u128) * (mid as u128);
        proof {
            assert((m2 as int) * (m2 as int) <= 0x100000000000000000000000000) by (nonlinear_arith)
                requires
                    0 <= m2 <= 0x10000000000000,
            ;
        }
        let m4: u128 = m2 * m2;
        proof {
            assert(m4 == pow4(mid as int)) by (nonlinear_arith)
                requires
                    m2 == (mid as int) * (mid as int),
                    m4 == m2 * m2,
            ;
        }
        if m4 <= x {
            lo = mid;
        } else {
            hi = mid;
        }
    }
    proof {
        assert(hi == lo + 1);
        assert(is_root4(x as int, lo as int));
        assert(exists|r: int| is_root4(x as int, r));
        lemma_root4_unique(x as int, lo as int, root4_of(x as int));
    }
    lo
}

} // verus!
