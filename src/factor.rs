//! Unique factorization over a prime table: distinct exponent vectors of the
//! same length have distinct values.

use vstd::arithmetic::div_mod::{
    lemma_fundamental_div_mod, lemma_mod_multiples_basic, lemma_mod_multiples_vanish,
    lemma_mod_pos_bound, lemma_small_mod,
};
use vstd::prelude::*;

use crate::model::{
    decode, is_prime, lemma_decode_pos, lemma_power_adds, lemma_power_pos,
    lemma_prime_table_at_least_two, power, prime_table,
};

verus! {

/// A prime divides no product of two positive numbers below it.
proof fn lemma_prime_no_small_product(p: int, a: int, b: int)
    requires
        is_prime(p),
        1 <= a < p,
        1 <= b < p,
    ensures
        (a * b) % p != 0,
    decreases b,
{
    if b == 1 {
        lemma_small_mod(a as nat, p as nat);
    } else {
        let q = p / b;
        let r = p % b;
        lemma_fundamental_div_mod(p, b);
        lemma_mod_pos_bound(p, b);
        assert((p % b) != 0);
        lemma_prime_no_small_product(p, a, r);
        if (a * b) % p == 0 {
            let t = (a * b) / p;
            lemma_fundamental_div_mod(a * b, p);
            assert(a * r == (a - q * t) * p) by (nonlinear_arith)
                requires
                    p == b * q + r,
                    a * b == p * t + 0,
            ;
            lemma_mod_multiples_basic(a - q * t, p);
        }
    }
}

/// Euclid: a prime that divides neither of two numbers does not divide their
/// product.
pub proof fn lemma_prime_coprime_product(p: int, a: int, b: int)
    requires
        is_prime(p),
        a >= 0,
        b >= 0,
        a % p != 0,
        b % p != 0,
    ensures
        (a * b) % p != 0,
{
    lemma_fundamental_div_mod(a, p);
    lemma_fundamental_div_mod(b, p);
    lemma_mod_pos_bound(a, p);
    lemma_mod_pos_bound(b, p);
    let ra = a % p;
    let rb = b % p;
    let qa = a / p;
    let qb = b / p;
    let x = qa * b + ra * qb;
    assert(a * b == p * x + ra * rb) by (nonlinear_arith)
        requires
            a == p * qa + ra,
            b == p * qb + rb,
            x == qa * b + ra * qb,
    ;
    lemma_mod_multiples_vanish(x, ra * rb, p);
    lemma_prime_no_small_product(p, ra, rb);
}

/// A prime divides no power of another prime.
proof fn lemma_prime_not_dividing_power(p: int, q: int, e: nat)
    requires
        is_prime(p),
        is_prime(q),
        p != q,
    ensures
        power(q, e) % p != 0,
    decreases e,
{
    if e == 0 {
        lemma_small_mod(1, p as nat);
    } else {
        if q < p {
            lemma_small_mod(q as nat, p as nat);
        } else {
            assert((q % p) != 0);
        }
        lemma_prime_not_dividing_power(p, q, (e - 1) as nat);
        lemma_power_pos(q, (e - 1) as nat);
        lemma_prime_coprime_product(p, q, power(q, (e - 1) as nat));
    }
}

/// A prime outside the primes that an exponent vector uses does not divide its
/// value.
pub proof fn lemma_prime_not_dividing_decode(ps: Seq<u64>, es: Seq<u32>, p: int)
    requires
        prime_table(ps),
        es.len() <= ps.len(),
        is_prime(p),
        forall|i: int| 0 <= i < es.len() ==> ps[i] != p,
    ensures
        decode(ps, es) % p != 0,
    decreases es.len(),
{
    if es.len() == 0 {
        lemma_small_mod(1, p as nat);
    } else {
        let n = es.len() - 1;
        let q = ps[n] as int;
        assert(is_prime(q));
        lemma_prime_not_dividing_decode(ps, es.drop_last(), p);
        lemma_prime_not_dividing_power(p, q, es.last() as nat);
        lemma_power_pos(q, es.last() as nat);
        lemma_prime_table_at_least_two(ps);
        lemma_decode_pos(ps, es.drop_last());
        lemma_prime_coprime_product(p, decode(ps, es.drop_last()), power(q, es.last() as nat));
    }
}

/// With equal values, the first vector's exponent of its last prime is not
/// below the second's.
proof fn lemma_last_exponent_not_below(ps: Seq<u64>, x: Seq<u32>, y: Seq<u32>)
    requires
        prime_table(ps),
        x.len() == y.len(),
        0 < y.len() <= ps.len(),
        decode(ps, x) == decode(ps, y),
    ensures
        x.last() >= y.last(),
{
    let n = x.len() - 1;
    let p = ps[n] as int;
    let a = x.last() as nat;
    let b = y.last() as nat;
    if a < b {
        assert(is_prime(p));
        let d = (b - a) as nat;
        lemma_power_adds(p, a, d);
        assert(a + d == b);
        assert(power(p, d) == p * power(p, (d - 1) as nat));
        lemma_power_pos(p, a);
        let xa = decode(ps, x.drop_last());
        let yb = decode(ps, y.drop_last());
        let pa = power(p, a);
        let pd1 = power(p, (d - 1) as nat);
        assert(xa == p * (yb * pd1)) by (nonlinear_arith)
            requires
                xa * pa == yb * ((p * pd1) * pa),
                pa >= 1,
        ;
        lemma_mod_multiples_basic(yb * pd1, p);
        assert(xa == (yb * pd1) * p) by (nonlinear_arith)
            requires
                xa == p * (yb * pd1),
        ;
        assert forall|i: int| 0 <= i < n implies ps[i] != p by {
            assert(ps[i] < ps[n]);
        }
        lemma_prime_not_dividing_decode(ps, x.drop_last(), p);
    }
}

/// Unique factorization: exponent vectors of the same length over a prime
/// table with the same value are equal.
pub proof fn lemma_decode_injective(ps: Seq<u64>, x: Seq<u32>, y: Seq<u32>)
    requires
        prime_table(ps),
        x.len() == y.len(),
        y.len() <= ps.len(),
        decode(ps, x) == decode(ps, y),
    ensures
        x == y,
    decreases x.len(),
{
    if x.len() > 0 {
        lemma_last_exponent_not_below(ps, x, y);
        lemma_last_exponent_not_below(ps, y, x);
        let n = x.len() - 1;
        let q = power(ps[n] as int, x.last() as nat);
        assert(is_prime(ps[n] as int));
        lemma_power_pos(ps[n] as int, x.last() as nat);
        let a = decode(ps, x.drop_last());
        let b = decode(ps, y.drop_last());
        assert(a == b) by (nonlinear_arith)
            requires
                a * q == b * q,
                q >= 1,
        ;
        lemma_decode_injective(ps, x.drop_last(), y.drop_last());
        assert(x =~= y) by {
            assert forall|i: int| 0 <= i < x.len() implies x[i] == y[i] by {
                if i < n {
                    assert(x[i] == x.drop_last()[i]);
                    assert(y[i] == y.drop_last()[i]);
                }
            }
        }
    }
}

} // verus!
