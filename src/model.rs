//! The mathematical model: prime tables, exponent vectors and their values.

use vstd::prelude::*;

verus! {

/// `b` raised to the `e`-th power.
pub open spec fn power(b: int, e: nat) -> int
    decreases e,
{
    if e == 0 {
        1
    } else {
        b * power(b, (e - 1) as nat)
    }
}

pub open spec fn is_prime(n: int) -> bool {
    n >= 2 && forall|d: int| 2 <= d < n ==> #[trigger] (n % d) != 0
}

/// `ps` lists the first `ps.len()` primes in ascending order.
pub open spec fn prime_table(ps: Seq<u64>) -> bool {
    &&& forall|i: int| 0 <= i < ps.len() ==> is_prime(#[trigger] ps[i] as int)
    &&& forall|i: int, j: int| 0 <= i < j < ps.len() ==> #[trigger] ps[i] < #[trigger] ps[j]
    &&& forall|n: int|
        #![trigger is_prime(n)]
        ps.len() > 0 && is_prime(n) && n <= ps.last() ==> ps.contains(n as u64)
}

/// The integer whose exponent of `ps[i]` is `es[i]`: the product of `ps[i]^es[i]`.
pub open spec fn decode(ps: Seq<u64>, es: Seq<u32>) -> int
    decreases es.len(),
{
    if es.len() == 0 {
        1
    } else {
        decode(ps, es.drop_last()) * power(ps[es.len() - 1] as int, es.last() as nat)
    }
}

/// The divisor count belonging to an exponent vector: the product of `es[i] + 1`.
pub open spec fn divisor_count(es: Seq<u32>) -> int
    decreases es.len(),
{
    if es.len() == 0 {
        1
    } else {
        divisor_count(es.drop_last()) * (es.last() + 1)
    }
}

/// `es` with every exponent below index `i` reset to zero.
pub open spec fn zero_below(es: Seq<u32>, i: int) -> Seq<u32> {
    Seq::new(es.len(), |j: int| if j < i { 0u32 } else { es[j] })
}

/// Whether the odometer may raise the exponent at `i` once those below it are
/// reset: the value so obtained stays within `bound`.
pub open spec fn can_raise(ps: Seq<u64>, es: Seq<u32>, bound: u64, i: int) -> bool {
    decode(ps, zero_below(es, i)) * ps[i] <= bound
}

/// The odometer step that carries into index `i`.
pub open spec fn raised(es: Seq<u32>, i: int) -> Seq<u32> {
    zero_below(es, i).update(i, (es[i] + 1) as u32)
}

/// `i` is the lowest index at which the odometer may raise an exponent.
pub open spec fn first_raise(ps: Seq<u64>, es: Seq<u32>, bound: u64, i: int) -> bool {
    &&& 0 <= i < es.len()
    &&& can_raise(ps, es, bound, i)
    &&& forall|j: int| 0 <= j < i ==> !can_raise(ps, es, bound, j)
}

/// Position of an exponent vector in the odometer's order, reading each
/// exponent as a base-64 digit, the lowest index least significant.
pub open spec fn rank(es: Seq<u32>) -> int
    decreases es.len(),
{
    if es.len() == 0 {
        0
    } else {
        es[0] + 64 * rank(es.drop_first())
    }
}

pub proof fn lemma_power_pos(b: int, e: nat)
    requires
        b >= 1,
    ensures
        power(b, e) >= 1,
    decreases e,
{
    if e > 0 {
        lemma_power_pos(b, (e - 1) as nat);
        assert(b * power(b, (e - 1) as nat) >= 1) by (nonlinear_arith)
            requires
                b >= 1,
                power(b, (e - 1) as nat) >= 1,
        ;
    }
}

pub proof fn lemma_power_adds(b: int, e1: nat, e2: nat)
    ensures
        power(b, e1 + e2) == power(b, e1) * power(b, e2),
    decreases e1,
{
    if e1 > 0 {
        lemma_power_adds(b, (e1 - 1) as nat, e2);
        assert((e1 + e2 - 1) as nat == ((e1 - 1) as nat + e2) as nat);
        assert(b * (power(b, (e1 - 1) as nat) * power(b, e2)) == (b * power(b, (e1 - 1) as nat))
            * power(b, e2)) by (nonlinear_arith);
    }
}

/// For a positive base, powers grow with the exponent.
pub proof fn lemma_power_monotone(b: int, e1: nat, e2: nat)
    requires
        b >= 1,
        e1 <= e2,
    ensures
        power(b, e1) <= power(b, e2),
{
    lemma_power_adds(b, e1, (e2 - e1) as nat);
    assert(e1 + (e2 - e1) as nat == e2);
    lemma_power_pos(b, e1);
    lemma_power_pos(b, (e2 - e1) as nat);
    let x = power(b, e1);
    let y = power(b, (e2 - e1) as nat);
    assert(x * y >= x) by (nonlinear_arith)
        requires
            x >= 1,
            y >= 1,
    ;
}

/// For a base of at least 2, `b^e` exceeds `e` and is at least `2^e`.
pub proof fn lemma_power_grows(b: int, e: nat)
    requires
        b >= 2,
    ensures
        power(b, e) >= e + 1,
        power(b, e) >= power(2, e),
    decreases e,
{
    if e > 0 {
        lemma_power_grows(b, (e - 1) as nat);
        lemma_power_pos(2, (e - 1) as nat);
        let q = power(b, (e - 1) as nat);
        let t = power(2, (e - 1) as nat);
        assert(b * q >= 2 * t && b * q >= e + 1) by (nonlinear_arith)
            requires
                b >= 2,
                q >= t,
                q >= e,
                t >= 1,
                e >= 1,
        ;
        lemma_power_pos(2, (e - 1) as nat);
    }
}

/// An exponent `e` with `b^e` in the range of `u64` is below 64.
pub proof fn lemma_small_exponent(b: int, e: nat)
    requires
        b >= 2,
        power(b, e) <= u64::MAX,
    ensures
        e < 64,
{
    lemma_power_grows(b, e);
    if e >= 64 {
        reveal_with_fuel(power, 9);
        assert(power(2, 8) == 256);
        lemma_power_adds(2, 8, 8);
        assert(power(2, 16) == 0x1_0000);
        lemma_power_adds(2, 16, 16);
        assert(power(2, 32) == 0x1_0000_0000);
        lemma_power_adds(2, 32, 32);
        lemma_power_adds(2, 64, (e - 64) as nat);
        lemma_power_pos(2, (e - 64) as nat);
        assert(power(2, 64) == 0x1_0000_0000_0000_0000);
        assert(power(2, 64) * power(2, (e - 64) as nat) >= power(2, 64)) by (nonlinear_arith)
            requires
                power(2, (e - 64) as nat) >= 1,
                power(2, 64) >= 0,
        ;
        assert(64 + (e - 64) as nat == e);
    }
}

pub open spec fn table_at_least_two(ps: Seq<u64>) -> bool {
    forall|i: int| 0 <= i < ps.len() ==> #[trigger] ps[i] >= 2
}

pub proof fn lemma_prime_table_at_least_two(ps: Seq<u64>)
    requires
        prime_table(ps),
    ensures
        table_at_least_two(ps),
{
    assert forall|i: int| 0 <= i < ps.len() implies #[trigger] ps[i] >= 2 by {
        assert(is_prime(ps[i] as int));
    }
}

/// A value is at least each of its prime powers, and at least 1.
pub proof fn lemma_decode_ge_factor(ps: Seq<u64>, es: Seq<u32>, i: int)
    requires
        table_at_least_two(ps),
        es.len() <= ps.len(),
        0 <= i < es.len(),
    ensures
        decode(ps, es) >= power(ps[i] as int, es[i] as nat),
        decode(ps, es) >= 1,
    decreases es.len(),
{
    lemma_decode_pos(ps, es);
    let d = decode(ps, es.drop_last());
    let n = es.len() - 1;
    lemma_decode_pos(ps, es.drop_last());
    lemma_power_pos(ps[n] as int, es.last() as nat);
    let q = power(ps[n] as int, es.last() as nat);
    if i == n {
        assert(d * q >= q) by (nonlinear_arith)
            requires
                d >= 1,
                q >= 1,
        ;
    } else {
        lemma_decode_ge_factor(ps, es.drop_last(), i);
        assert(d * q >= d) by (nonlinear_arith)
            requires
                d >= 1,
                q >= 1,
        ;
    }
}

pub proof fn lemma_decode_pos(ps: Seq<u64>, es: Seq<u32>)
    requires
        table_at_least_two(ps),
        es.len() <= ps.len(),
    ensures
        decode(ps, es) >= 1,
    decreases es.len(),
{
    if es.len() > 0 {
        lemma_decode_pos(ps, es.drop_last());
        let n = es.len() - 1;
        lemma_power_pos(ps[n] as int, es.last() as nat);
        let d = decode(ps, es.drop_last());
        let q = power(ps[n] as int, es.last() as nat);
        assert(d * q >= 1) by (nonlinear_arith)
            requires
                d >= 1,
                q >= 1,
        ;
    }
}

/// Every exponent of a vector whose value fits `u64` is below 64.
pub proof fn lemma_exponents_small(ps: Seq<u64>, es: Seq<u32>)
    requires
        table_at_least_two(ps),
        es.len() <= ps.len(),
        decode(ps, es) <= u64::MAX,
    ensures
        forall|j: int| 0 <= j < es.len() ==> #[trigger] es[j] < 64,
{
    assert forall|j: int| 0 <= j < es.len() implies #[trigger] es[j] < 64 by {
        lemma_decode_ge_factor(ps, es, j);
        lemma_small_exponent(ps[j] as int, es[j] as nat);
    }
}

/// Changing one exponent scales the value by the ratio of the two prime powers.
pub proof fn lemma_decode_update(ps: Seq<u64>, es: Seq<u32>, i: int, e: u32)
    requires
        es.len() <= ps.len(),
        0 <= i < es.len(),
    ensures
        decode(ps, es.update(i, e)) * power(ps[i] as int, es[i] as nat) == decode(ps, es) * power(
            ps[i] as int,
            e as nat,
        ),
    decreases es.len(),
{
    let u = es.update(i, e);
    let n = es.len() - 1;
    let p = ps[i] as int;
    let po = power(p, es[i] as nat);
    let pn = power(p, e as nat);
    if i == n {
        assert(u.drop_last() =~= es.drop_last());
        let d = decode(ps, es.drop_last());
        assert(d * pn * po == d * po * pn) by (nonlinear_arith);
    } else {
        assert(u.drop_last() =~= es.drop_last().update(i, e));
        lemma_decode_update(ps, es.drop_last(), i, e);
        let du = decode(ps, u.drop_last());
        let d = decode(ps, es.drop_last());
        let l = power(ps[n] as int, es.last() as nat);
        assert(du * l * po == d * l * pn) by (nonlinear_arith)
            requires
                du * po == d * pn,
        ;
    }
}

/// The value of a prefix of an exponent vector divides into the whole, so it is
/// no larger.
pub proof fn lemma_decode_prefix(ps: Seq<u64>, es: Seq<u32>, k: int)
    requires
        table_at_least_two(ps),
        es.len() <= ps.len(),
        0 <= k <= es.len(),
    ensures
        decode(ps, es.take(k)) <= decode(ps, es),
    decreases es.len(),
{
    if k == es.len() {
        assert(es.take(k) =~= es);
    } else {
        let n = es.len() - 1;
        assert(es.drop_last().take(k) =~= es.take(k));
        lemma_decode_prefix(ps, es.drop_last(), k);
        lemma_decode_pos(ps, es.drop_last());
        lemma_power_pos(ps[n] as int, es.last() as nat);
        let d = decode(ps, es.drop_last());
        let q = power(ps[n] as int, es.last() as nat);
        assert(d * q >= d) by (nonlinear_arith)
            requires
                d >= 1,
                q >= 1,
        ;
    }
}

/// The divisor count of an exponent vector never exceeds its value.
pub proof fn lemma_divisor_count_le_value(ps: Seq<u64>, es: Seq<u32>)
    requires
        table_at_least_two(ps),
        es.len() <= ps.len(),
    ensures
        1 <= divisor_count(es) <= decode(ps, es),
    decreases es.len(),
{
    if es.len() > 0 {
        let n = es.len() - 1;
        lemma_divisor_count_le_value(ps, es.drop_last());
        lemma_power_grows(ps[n] as int, es.last() as nat);
        let c = divisor_count(es.drop_last());
        let d = decode(ps, es.drop_last());
        let q = power(ps[n] as int, es.last() as nat);
        let f = es.last() + 1;
        assert(1 <= c * f <= d * q) by (nonlinear_arith)
            requires
                1 <= c <= d,
                1 <= f <= q,
        ;
    }
}

/// A vector of zeros with `e` appended has the value `p^e` of its last prime.
pub proof fn lemma_decode_single(ps: Seq<u64>, es: Seq<u32>)
    requires
        0 < es.len() <= ps.len(),
        forall|j: int| 0 <= j < es.len() - 1 ==> es[j] == 0,
    ensures
        decode(ps, es) == power(ps[es.len() - 1] as int, es.last() as nat),
{
    lemma_decode_zeros(ps, es.drop_last());
}

pub proof fn lemma_decode_zeros(ps: Seq<u64>, es: Seq<u32>)
    requires
        es.len() <= ps.len(),
        forall|j: int| 0 <= j < es.len() ==> es[j] == 0,
    ensures
        decode(ps, es) == 1,
    decreases es.len(),
{
    if es.len() > 0 {
        lemma_decode_zeros(ps, es.drop_last());
    }
}

/// A vector of exponents below 64 ranks below `64^len`.
pub proof fn lemma_rank_bounded(es: Seq<u32>)
    requires
        forall|j: int| 0 <= j < es.len() ==> #[trigger] es[j] < 64,
    ensures
        0 <= rank(es) < power(64, es.len()),
    decreases es.len(),
{
    if es.len() > 0 {
        let r = es.drop_first();
        assert forall|j: int| 0 <= j < r.len() implies #[trigger] r[j] < 64 by {
            assert(r[j] == es[j + 1]);
        }
        lemma_rank_bounded(r);
        assert((es.len() - 1) as nat == r.len());
        let x = rank(r);
        let q = power(64, r.len());
        let d = es[0] as int;
        assert(0 <= d + 64 * x < 64 * q) by (nonlinear_arith)
            requires
                0 <= x < q,
                0 <= d < 64,
        ;
    }
}

/// Each odometer step moves forward in rank.
pub proof fn lemma_rank_raised(es: Seq<u32>, i: int)
    requires
        forall|j: int| 0 <= j < es.len() ==> #[trigger] es[j] < 64,
        0 <= i < es.len(),
    ensures
        rank(raised(es, i)) > rank(es),
    decreases i,
{
    let s = raised(es, i);
    if i == 0 {
        assert(s.drop_first() =~= es.drop_first());
    } else {
        let r = es.drop_first();
        assert forall|j: int| 0 <= j < r.len() implies #[trigger] r[j] < 64 by {
            assert(r[j] == es[j + 1]);
        }
        assert(s.drop_first() =~= raised(r, i - 1));
        lemma_rank_raised(r, i - 1);
        assert(s[0] == 0);
    }
}

/// Every exponent is below 64, as for any value that fits `u64`.
pub open spec fn small_digits(es: Seq<u32>) -> bool {
    forall|j: int| 0 <= j < es.len() ==> #[trigger] es[j] < 64
}

/// `es` lies at or below `fs` in every exponent.
pub open spec fn dominated(es: Seq<u32>, fs: Seq<u32>) -> bool {
    &&& es.len() == fs.len()
    &&& forall|j: int| 0 <= j < es.len() ==> #[trigger] es[j] <= fs[j]
}

/// The record of an exponent vector: its value and its divisor count.
pub open spec fn record_of(ps: Seq<u64>, es: Seq<u32>) -> (u64, u64) {
    (decode(ps, es) as u64, divisor_count(es) as u64)
}

/// Lower exponents give a value no larger.
pub proof fn lemma_decode_dominated(ps: Seq<u64>, es: Seq<u32>, fs: Seq<u32>)
    requires
        table_at_least_two(ps),
        fs.len() <= ps.len(),
        dominated(es, fs),
    ensures
        decode(ps, es) <= decode(ps, fs),
    decreases es.len(),
{
    if es.len() > 0 {
        let n = es.len() - 1;
        assert(dominated(es.drop_last(), fs.drop_last()));
        lemma_decode_dominated(ps, es.drop_last(), fs.drop_last());
        lemma_decode_pos(ps, es.drop_last());
        lemma_power_pos(ps[n] as int, es.last() as nat);
        lemma_power_monotone(ps[n] as int, es.last() as nat, fs.last() as nat);
        let a = decode(ps, es.drop_last());
        let b = decode(ps, fs.drop_last());
        let c = power(ps[n] as int, es.last() as nat);
        let d = power(ps[n] as int, fs.last() as nat);
        assert(a * c <= b * d) by (nonlinear_arith)
            requires
                1 <= a <= b,
                1 <= c <= d,
        ;
    }
}

/// Lower exponents give a rank no larger.
pub proof fn lemma_rank_dominated(es: Seq<u32>, fs: Seq<u32>)
    requires
        dominated(es, fs),
    ensures
        rank(es) <= rank(fs),
    decreases es.len(),
{
    if es.len() > 0 {
        assert(dominated(es.drop_first(), fs.drop_first())) by {
            assert forall|j: int| 0 <= j < es.len() - 1 implies #[trigger] es.drop_first()[j]
                <= fs.drop_first()[j] by {
                assert(es[j + 1] <= fs[j + 1]);
            }
        }
        lemma_rank_dominated(es.drop_first(), fs.drop_first());
        assert(es[0] <= fs[0]);
    }
}

proof fn lemma_small_digits_rest(es: Seq<u32>)
    requires
        small_digits(es),
        es.len() > 0,
    ensures
        small_digits(es.drop_first()),
        es[0] < 64,
{
    assert forall|j: int| 0 <= j < es.len() - 1 implies #[trigger] es.drop_first()[j] < 64 by {
        assert(es[j + 1] < 64);
    }
}

/// Where two vectors first differ from the top, the larger exponent there
/// gives the larger rank.
pub proof fn lemma_rank_top_digit(x: Seq<u32>, y: Seq<u32>, j: int)
    requires
        x.len() == y.len(),
        small_digits(x),
        small_digits(y),
        0 <= j < x.len(),
        x[j] < y[j],
        forall|l: int| j < l < x.len() ==> x[l] == y[l],
    ensures
        rank(x) < rank(y),
    decreases j,
{
    lemma_small_digits_rest(x);
    lemma_small_digits_rest(y);
    let a = rank(x.drop_first());
    let b = rank(y.drop_first());
    if j == 0 {
        assert(x.drop_first() =~= y.drop_first());
    } else {
        assert forall|l: int| j - 1 < l < x.len() - 1 implies x.drop_first()[l]
            == y.drop_first()[l] by {
            assert(x[l + 1] == y[l + 1]);
        }
        lemma_rank_top_digit(x.drop_first(), y.drop_first(), j - 1);
        assert(x[0] + 64 * a < y[0] + 64 * b) by (nonlinear_arith)
            requires
                a < b,
                0 <= x[0] < 64,
                0 <= y[0],
        ;
    }
}

/// Vectors of the same length and rank are equal.
pub proof fn lemma_rank_injective(x: Seq<u32>, y: Seq<u32>)
    requires
        x.len() == y.len(),
        small_digits(x),
        small_digits(y),
        rank(x) == rank(y),
    ensures
        x == y,
    decreases x.len(),
{
    if x.len() > 0 {
        lemma_small_digits_rest(x);
        lemma_small_digits_rest(y);
        let a = rank(x.drop_first());
        let b = rank(y.drop_first());
        let x0 = x[0] as int;
        let y0 = y[0] as int;
        assert(a == b && x0 == y0) by (nonlinear_arith)
            requires
                x0 + 64 * a == y0 + 64 * b,
                0 <= x0 < 64,
                0 <= y0 < 64,
        ;
        lemma_rank_injective(x.drop_first(), y.drop_first());
        assert(x =~= y) by {
            assert forall|l: int| 0 <= l < x.len() implies x[l] == y[l] by {
                if l > 0 {
                    assert(x[l] == x.drop_first()[l - 1]);
                    assert(y[l] == y.drop_first()[l - 1]);
                }
            }
        }
    }
}

/// Of two vectors of the same length, the one of lower rank has the lower
/// exponent where they first differ from the top.
pub proof fn lemma_rank_less_top(x: Seq<u32>, y: Seq<u32>) -> (j: int)
    requires
        x.len() == y.len(),
        small_digits(x),
        small_digits(y),
        rank(x) < rank(y),
    ensures
        0 <= j < x.len(),
        x[j] < y[j],
        forall|l: int| j < l < x.len() ==> x[l] == y[l],
    decreases x.len(),
{
    lemma_small_digits_rest(x);
    lemma_small_digits_rest(y);
    let xr = x.drop_first();
    let yr = y.drop_first();
    let a = rank(xr);
    let b = rank(yr);
    if a < b {
        let j1 = lemma_rank_less_top(xr, yr);
        assert forall|l: int| j1 + 1 < l < x.len() implies x[l] == y[l] by {
            assert(x[l] == xr[l - 1]);
            assert(y[l] == yr[l - 1]);
        }
        assert(x[j1 + 1] == xr[j1]);
        assert(y[j1 + 1] == yr[j1]);
        j1 + 1
    } else if a == b {
        lemma_rank_injective(xr, yr);
        assert forall|l: int| 0 < l < x.len() implies x[l] == y[l] by {
            assert(x[l] == xr[l - 1]);
            assert(y[l] == yr[l - 1]);
        }
        0
    } else {
        let j1 = lemma_rank_less_top(yr, xr);
        assert forall|l: int| j1 < l < yr.len() implies yr[l] == xr[l] by {}
        assert forall|l: int| j1 + 1 < l < x.len() implies y[l] == x[l] by {
            assert(x[l] == xr[l - 1]);
            assert(y[l] == yr[l - 1]);
        }
        assert(x[j1 + 1] == xr[j1]);
        assert(y[j1 + 1] == yr[j1]);
        lemma_rank_top_digit(y, x, j1 + 1);
        0
    }
}

/// The value after raising index `i` is the value with the lower exponents
/// reset, times the prime at `i`.
pub proof fn lemma_decode_raised(ps: Seq<u64>, es: Seq<u32>, i: int)
    requires
        table_at_least_two(ps),
        es.len() <= ps.len(),
        0 <= i < es.len(),
        es[i] < 64,
    ensures
        decode(ps, raised(es, i)) == decode(ps, zero_below(es, i)) * ps[i],
{
    let zb = zero_below(es, i);
    let e = (es[i] + 1) as u32;
    lemma_decode_update(ps, zb, i, e);
    let p = ps[i] as int;
    let po = power(p, es[i] as nat);
    assert(power(p, e as nat) == p * po);
    let dr = decode(ps, raised(es, i));
    let dz = decode(ps, zb);
    lemma_power_pos(p, es[i] as nat);
    assert(dr == dz * p) by (nonlinear_arith)
        requires
            dr * po == dz * (p * po),
            po >= 1,
    ;
}

/// A vector `y` within the bound and of higher rank than `x` marks an index at
/// which the odometer can raise `x` without passing `y`.
pub proof fn lemma_raise_toward(ps: Seq<u64>, x: Seq<u32>, y: Seq<u32>, bound: u64) -> (j: int)
    requires
        table_at_least_two(ps),
        x.len() == y.len(),
        y.len() <= ps.len(),
        decode(ps, x) <= u64::MAX,
        decode(ps, y) <= bound,
        rank(x) < rank(y),
    ensures
        0 <= j < x.len(),
        x[j] < y[j],
        forall|l: int| j < l < x.len() ==> x[l] == y[l],
        can_raise(ps, x, bound, j),
        rank(raised(x, j)) <= rank(y),
{
    lemma_exponents_small(ps, x);
    lemma_exponents_small(ps, y);
    let j = lemma_rank_less_top(x, y);
    let r = raised(x, j);
    assert(dominated(r, y)) by {
        assert forall|l: int| 0 <= l < r.len() implies #[trigger] r[l] <= y[l] by {
            if l > j {
                assert(x[l] == y[l]);
            }
        }
    }
    lemma_decode_dominated(ps, r, y);
    lemma_decode_raised(ps, x, j);
    lemma_rank_dominated(r, y);
    j
}

/// One odometer step never passes a vector within the bound of higher rank.
pub proof fn lemma_step_not_past(ps: Seq<u64>, x: Seq<u32>, y: Seq<u32>, bound: u64, i: int)
    requires
        table_at_least_two(ps),
        x.len() == y.len(),
        y.len() <= ps.len(),
        decode(ps, x) <= u64::MAX,
        decode(ps, y) <= bound,
        rank(x) < rank(y),
        first_raise(ps, x, bound, i),
    ensures
        rank(raised(x, i)) <= rank(y),
{
    let j = lemma_raise_toward(ps, x, y, bound);
    assert(i <= j);
    if i < j {
        let r = raised(x, i);
        lemma_exponents_small(ps, x);
        lemma_decode_raised(ps, x, i);
        lemma_exponents_small(ps, r);
        lemma_exponents_small(ps, y);
        assert forall|l: int| j < l < r.len() implies r[l] == y[l] by {
            assert(x[l] == y[l]);
        }
        lemma_rank_top_digit(r, y, j);
    }
}

} // verus!
