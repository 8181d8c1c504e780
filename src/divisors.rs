//! The divisor count of an exponent vector is the number of positive
//! divisors of its value.

use vstd::arithmetic::div_mod::{lemma_fundamental_div_mod, lemma_mod_multiples_basic};
use vstd::prelude::*;
use vstd::relations::injective_on;
use vstd::set_lib::{lemma_int_range, lemma_len_subset, lemma_map_size, lemma_set_disjoint_lens, set_int_range};

use crate::factor::{lemma_prime_coprime_product, lemma_prime_not_dividing_decode};
use crate::model::{
    decode, divisor_count, is_prime, lemma_decode_pos, lemma_power_adds, lemma_power_pos,
    lemma_prime_table_at_least_two, power, prime_table,
};

verus! {

/// The positive divisors of `v`.
pub open spec fn divisors(v: int) -> Set<int> {
    Set::new(|d: int| 1 <= d <= v && v % d == 0)
}

/// The divisors of `a`, each times `p^i`.
pub open spec fn layer(a: int, p: int, i: nat) -> Set<int> {
    divisors(a).map(|d: int| d * power(p, i))
}

/// The union of the layers `0..=j`.
pub open spec fn layers(a: int, p: int, j: nat) -> Set<int>
    decreases j,
{
    if j == 0 {
        layer(a, p, 0)
    } else {
        layers(a, p, (j - 1) as nat) + layer(a, p, j)
    }
}

proof fn lemma_mod_zero_split(x: int, m: int)
    requires
        m > 0,
        x % m == 0,
    ensures
        x == m * (x / m),
{
    lemma_fundamental_div_mod(x, m);
}

proof fn lemma_multiple_mod(m: int, t: int)
    requires
        m > 0,
    ensures
        (m * t) % m == 0,
{
    lemma_mod_multiples_basic(t, m);
    assert(t * m == m * t) by (nonlinear_arith);
}

proof fn lemma_divisors_finite(v: int)
    requires
        v >= 1,
    ensures
        divisors(v).finite(),
{
    lemma_int_range(1, v + 1);
    assert(divisors(v).subset_of(set_int_range(1, v + 1)));
    lemma_len_subset(divisors(v), set_int_range(1, v + 1));
}

/// `d` is `d1 * p^i` with `d1` not divisible by `p`.
proof fn lemma_split_power(d: int, p: int) -> (r: (int, nat))
    requires
        d >= 1,
        p >= 2,
    ensures
        r.0 >= 1,
        r.0 % p != 0,
        d == r.0 * power(p, r.1),
    decreases d,
{
    if d % p != 0 {
        assert(power(p, 0) == 1);
        (d, 0)
    } else {
        lemma_mod_zero_split(d, p);
        let q = d / p;
        assert(q >= 1 && q < d) by (nonlinear_arith)
            requires
                d == p * q,
                d >= 1,
                p >= 2,
        ;
        let (d1, i) = lemma_split_power(q, p);
        assert(power(p, i + 1) == p * power(p, i));
        assert(d == d1 * power(p, i + 1)) by (nonlinear_arith)
            requires
                d == p * q,
                q == d1 * power(p, i),
                power(p, i + 1) == p * power(p, i),
        ;
        (d1, i + 1)
    }
}

/// A number prime to `p` that divides `x * p^a` divides `x`.
proof fn lemma_cancel_prime_power(d: int, x: int, p: int, a: nat)
    requires
        is_prime(p),
        d >= 1,
        x >= 1,
        d % p != 0,
        (x * power(p, a)) % d == 0,
    ensures
        x % d == 0,
    decreases a,
{
    if a == 0 {
        assert(x * power(p, a) == x);
    } else {
        let y = x * power(p, (a - 1) as nat);
        assert(power(p, a) == p * power(p, (a - 1) as nat));
        assert(x * power(p, a) == y * p) by (nonlinear_arith)
            requires
                power(p, a) == p * power(p, (a - 1) as nat),
                y == x * power(p, (a - 1) as nat),
        ;
        lemma_mod_zero_split(y * p, d);
        let t = (y * p) / d;
        lemma_power_pos(p, (a - 1) as nat);
        assert(y >= 1) by (nonlinear_arith)
            requires
                y == x * power(p, (a - 1) as nat),
                x >= 1,
                power(p, (a - 1) as nat) >= 1,
        ;
        assert(t >= 1) by (nonlinear_arith)
            requires
                y * p == d * t,
                y >= 1,
                p >= 2,
                d >= 1,
        ;
        lemma_multiple_mod(p, y);
        assert((d * t) % p == 0) by {
            assert(p * y == y * p) by (nonlinear_arith);
        }
        if t % p != 0 {
            lemma_prime_coprime_product(p, d, t);
        }
        lemma_mod_zero_split(t, p);
        let t1 = t / p;
        assert(y == d * t1) by (nonlinear_arith)
            requires
                y * p == d * t,
                t == p * t1,
                p >= 2,
        ;
        lemma_multiple_mod(d, t1);
        lemma_cancel_prime_power(d, x, p, (a - 1) as nat);
    }
}

/// The layers have as many elements each as `a` has divisors, and no two
/// share one.
proof fn lemma_layers_len(a: int, p: int, j: nat)
    requires
        is_prime(p),
        a >= 1,
        a % p != 0,
    ensures
        layers(a, p, j).finite(),
        layers(a, p, j).len() == (j + 1) * divisors(a).len(),
        forall|x: int| #[trigger] layers(a, p, j).contains(x) ==> x >= 1,
    decreases j,
{
    lemma_divisors_finite(a);
    let f = |d: int| d * power(p, j);
    lemma_power_pos(p, j);
    assert(injective_on(f, divisors(a))) by {
        assert forall|x1: int, x2: int|
            divisors(a).contains(x1) && divisors(a).contains(x2) && #[trigger] f(x1) == #[trigger] f(
                x2,
            ) implies x1 == x2 by {
            let q = power(p, j);
            assert(x1 == x2) by (nonlinear_arith)
                requires
                    x1 * q == x2 * q,
                    q >= 1,
            ;
        }
    }
    lemma_map_size(divisors(a), layer(a, p, j), f);
    assert forall|x: int| #[trigger] layer(a, p, j).contains(x) implies x >= 1 by {
        let d = choose|d: int| divisors(a).contains(d) && f(d) == x;
        let q = power(p, j);
        assert(d * q >= 1) by (nonlinear_arith)
            requires
                d >= 1,
                q >= 1,
        ;
    }
    if j > 0 {
        let prev = layers(a, p, (j - 1) as nat);
        lemma_layers_len(a, p, (j - 1) as nat);
        assert(prev.disjoint(layer(a, p, j))) by {
            assert forall|x: int| prev.contains(x) implies !layer(a, p, j).contains(x) by {
                lemma_layers_below(a, p, (j - 1) as nat, x);
                if layer(a, p, j).contains(x) {
                    let d2 = choose|d: int| divisors(a).contains(d) && f(d) == x;
                    let (d1, i) = choose|r: (int, nat)|
                        r.1 <= j - 1 && divisors(a).contains(r.0) && x == r.0 * power(p, r.1);
                    let k = (j - i) as nat;
                    lemma_power_adds(p, i, k);
                    assert(i + k == j);
                    assert(power(p, k) == p * power(p, (k - 1) as nat));
                    lemma_power_pos(p, i);
                    let pi = power(p, i);
                    let pk1 = power(p, (k - 1) as nat);
                    assert(d1 == p * (d2 * pk1)) by (nonlinear_arith)
                        requires
                            d1 * pi == d2 * (pi * (p * pk1)),
                            pi >= 1,
                    ;
                    lemma_multiple_mod(p, d2 * pk1);
                    lemma_mod_zero_split(a, d1);
                    let t = a / d1;
                    assert(a == p * (d2 * pk1 * t)) by (nonlinear_arith)
                        requires
                            a == d1 * t,
                            d1 == p * (d2 * pk1),
                    ;
                    lemma_multiple_mod(p, d2 * pk1 * t);
                }
            }
        }
        lemma_set_disjoint_lens(prev, layer(a, p, j));
        let n = divisors(a).len();
        assert(((j - 1) as nat + 1) as nat == j);
        assert(prev.len() == j * n);
        assert(layers(a, p, j) == prev + layer(a, p, j));
        assert(j * n + n == (j + 1) * n) by (nonlinear_arith);
    } else {
        assert(layers(a, p, j) == layer(a, p, j));
        assert(j == 0);
        let n = divisors(a).len();
        assert((j + 1) * n == n) by (nonlinear_arith)
            requires
                j == 0,
        ;
    }
}

/// Each element of the layers up to `j` is a divisor of `a` times `p^i` for
/// some `i <= j`.
proof fn lemma_layers_below(a: int, p: int, j: nat, x: int)
    requires
        layers(a, p, j).contains(x),
    ensures
        exists|r: (int, nat)| r.1 <= j && divisors(a).contains(r.0) && x == r.0 * power(p, r.1),
    decreases j,
{
    if layer(a, p, j).contains(x) {
        let d = choose|d: int| divisors(a).contains(d) && d * power(p, j) == x;
        assert((d, j).1 <= j && divisors(a).contains((d, j).0) && x == (d, j).0 * power(p, (d, j).1));
    } else {
        lemma_layers_below(a, p, (j - 1) as nat, x);
    }
}

proof fn lemma_layer_in_layers(a: int, p: int, i: nat, j: nat, x: int)
    requires
        i <= j,
        layer(a, p, i).contains(x),
    ensures
        layers(a, p, j).contains(x),
    decreases j,
{
    if j > i {
        lemma_layer_in_layers(a, p, i, (j - 1) as nat, x);
    }
}

/// For `a` prime to `p`, the divisors of `a * p^e` are those of `a` times
/// `p^i` for `i <= e`.
proof fn lemma_divisors_split(a: int, p: int, e: nat)
    requires
        is_prime(p),
        a >= 1,
        a % p != 0,
    ensures
        divisors(a * power(p, e)) == layers(a, p, e),
{
    let v = a * power(p, e);
    lemma_power_pos(p, e);
    lemma_layers_len(a, p, e);
    assert forall|x: int| #[trigger] layers(a, p, e).contains(x) implies divisors(v).contains(x) by {
        lemma_layers_below(a, p, e, x);
        let (d1, i) = choose|r: (int, nat)|
            r.1 <= e && divisors(a).contains(r.0) && x == r.0 * power(p, r.1);
        lemma_mod_zero_split(a, d1);
        let t = a / d1;
        let k = (e - i) as nat;
        lemma_power_adds(p, i, k);
        assert(i + k == e);
        lemma_power_pos(p, k);
        let m = t * power(p, k);
        assert(v == x * m) by (nonlinear_arith)
            requires
                v == a * power(p, e),
                a == d1 * t,
                power(p, e) == power(p, i) * power(p, k),
                x == d1 * power(p, i),
                m == t * power(p, k),
        ;
        assert(t >= 1) by (nonlinear_arith)
            requires
                a == d1 * t,
                a >= 1,
                d1 >= 1,
        ;
        assert(m >= 1) by (nonlinear_arith)
            requires
                m == t * power(p, k),
                t >= 1,
                power(p, k) >= 1,
        ;
        assert(x <= v) by (nonlinear_arith)
            requires
                v == x * m,
                m >= 1,
                x >= 1,
        ;
        lemma_multiple_mod(x, m);
    }
    assert forall|x: int| #[trigger] divisors(v).contains(x) implies layers(a, p, e).contains(x) by {
        let (d1, i) = lemma_split_power(x, p);
        lemma_mod_zero_split(v, x);
        let q = v / x;
        lemma_power_pos(p, i);
        assert(v == d1 * (power(p, i) * q)) by (nonlinear_arith)
            requires
                v == x * q,
                x == d1 * power(p, i),
        ;
        lemma_multiple_mod(d1, power(p, i) * q);
        assert(v % d1 == 0);
        lemma_cancel_prime_power(d1, a, p, e);
        if i > e {
            let k = (i - e) as nat;
            lemma_power_adds(p, e, k);
            assert(e + k == i);
            assert(power(p, k) == p * power(p, (k - 1) as nat));
            let pe = power(p, e);
            let pk1 = power(p, (k - 1) as nat);
            assert(a == p * (d1 * pk1 * q)) by (nonlinear_arith)
                requires
                    a * pe == d1 * ((pe * (p * pk1)) * q),
                    pe >= 1,
            ;
            lemma_multiple_mod(p, d1 * pk1 * q);
        }
        lemma_mod_zero_split(a, d1);
        let t = a / d1;
        assert(d1 <= a) by (nonlinear_arith)
            requires
                a == d1 * t,
                a >= 1,
                d1 >= 1,
        ;
        assert(divisors(a).contains(d1));
        let f = |d: int| d * power(p, i);
        assert(f(d1) == x);
        assert(layer(a, p, i).contains(x));
        lemma_layer_in_layers(a, p, i, e, x);
    }
    assert(divisors(v) =~= layers(a, p, e));
}

/// The divisor count of an exponent vector over a prime table is the number of
/// positive divisors of its value.
pub proof fn lemma_divisor_count_counts_divisors(ps: Seq<u64>, es: Seq<u32>)
    requires
        prime_table(ps),
        es.len() <= ps.len(),
    ensures
        divisors(decode(ps, es)).finite(),
        divisors(decode(ps, es)).len() == divisor_count(es),
    decreases es.len(),
{
    lemma_prime_table_at_least_two(ps);
    lemma_decode_pos(ps, es);
    lemma_divisors_finite(decode(ps, es));
    if es.len() == 0 {
        assert(divisors(1) =~= set![1int]);
        assert(set![1int].len() == 1);
    } else {
        let n = es.len() - 1;
        let p = ps[n] as int;
        let a = decode(ps, es.drop_last());
        let e = es.last() as nat;
        assert(is_prime(p));
        assert forall|i: int| 0 <= i < es.drop_last().len() implies ps[i] != p by {
            assert(ps[i] < ps[n]);
        }
        lemma_prime_not_dividing_decode(ps, es.drop_last(), p);
        lemma_decode_pos(ps, es.drop_last());
        lemma_divisor_count_counts_divisors(ps, es.drop_last());
        lemma_divisors_split(a, p, e);
        lemma_layers_len(a, p, e);
        let c = divisor_count(es.drop_last());
        assert((e + 1) * c == c * (es.last() + 1)) by (nonlinear_arith)
            requires
                e == es.last(),
        ;
    }
}

} // verus!
