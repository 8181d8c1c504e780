//! An integer held as its exponent vector over a prime table: the odometer
//! that steps through the smooth numbers within a bound.

use vstd::prelude::*;

use crate::model::{
    can_raise, decode, divisor_count, first_raise, lemma_decode_pos, lemma_decode_prefix,
    lemma_decode_single, lemma_decode_update, lemma_decode_zeros, lemma_divisor_count_le_value,
    lemma_exponents_small, lemma_power_adds, lemma_power_monotone, lemma_power_pos,
    lemma_prime_table_at_least_two, power, prime_table, raised, zero_below,
};

verus! {

/// An integer together with its exponent vector: `es[i]` is the exponent of
/// the `i`-th prime of the table, and `value` the product of the prime powers.
#[derive(Debug, Clone)]
pub struct Composite {
    pub value: u64,
    pub es: Vec<u32>,
}

/// `b^e`, computed by repeated multiplication.
fn pow_u64(b: u64, e: u32) -> (r: u64)
    requires
        b >= 1,
        power(b as int, e as nat) <= u64::MAX,
    ensures
        r == power(b as int, e as nat),
{
    let mut r: u64 = 1;
    let mut k: u32 = 0;
    while k < e
        invariant
            k <= e,
            b >= 1,
            r == power(b as int, k as nat),
            power(b as int, e as nat) <= u64::MAX,
        decreases e - k,
    {
        proof {
            lemma_power_monotone(b as int, (k + 1) as nat, e as nat);
            assert(((k + 1) as nat - 1) as nat == k as nat);
            assert(power(b as int, (k + 1) as nat) == b * power(b as int, k as nat));
            assert(r * b == b * r) by (nonlinear_arith);
        }
        r = r * b;
        k = k + 1;
    }
    r
}

impl Composite {
    /// The value is the one that the exponent vector denotes over `ps`.
    pub open spec fn wf(&self, ps: Seq<u64>) -> bool {
        &&& self.es@.len() <= ps.len()
        &&& self.value == decode(ps, self.es@)
    }

    /// The number `primes[e_ind]^e_val`: exponents zero at indices below
    /// `e_ind` and `e_val` at `e_ind`.
    pub fn new(primes: &Vec<u64>, e_ind: usize, e_val: u32) -> (r: Self)
        requires
            prime_table(primes@),
            e_ind < primes@.len(),
            power(primes@[e_ind as int] as int, e_val as nat) <= u64::MAX,
        ensures
            r.wf(primes@),
            r.es@ == Seq::new((e_ind + 1) as nat, |j: int| if j == e_ind { e_val } else { 0u32 }),
            r.value == power(primes@[e_ind as int] as int, e_val as nat),
    {
        let mut es: Vec<u32> = Vec::new();
        let mut i: usize = 0;
        while i < e_ind
            invariant
                i <= e_ind,
                es@ == Seq::new(i as nat, |j: int| 0u32),
            decreases e_ind - i,
        {
            es.push(0);
            i = i + 1;
        }
        es.push(e_val);
        proof {
            lemma_prime_table_at_least_two(primes@);
        }
        let value = pow_u64(primes[e_ind], e_val);
        proof {
            assert(es@ =~= Seq::new((e_ind + 1) as nat, |j: int| if j == e_ind { e_val } else { 0u32 }));
            lemma_decode_single(primes@, es@);
        }
        Composite { value, es }
    }

    /// Sets the exponent at `ind` to `new_e`, rescaling the value by the
    /// change in that prime's power.
    fn set_e(&mut self, primes: &Vec<u64>, ind: usize, new_e: u32)
        requires
            old(self).wf(primes@),
            prime_table(primes@),
            ind < old(self).es@.len(),
            decode(primes@, old(self).es@.update(ind as int, new_e)) <= u64::MAX,
        ensures
            final(self).wf(primes@),
            final(self).es@ == old(self).es@.update(ind as int, new_e),
    {
        let ghost ps = primes@;
        let ghost new_es = self.es@.update(ind as int, new_e);
        let old_e = self.es[ind];
        let p = primes[ind];
        proof {
            lemma_prime_table_at_least_two(ps);
            lemma_decode_update(ps, self.es@, ind as int, new_e);
            lemma_power_pos(p as int, old_e as nat);
            lemma_power_pos(p as int, new_e as nat);
            lemma_decode_pos(ps, new_es);
        }
        let ghost d = decode(ps, new_es);
        let ghost v = self.value as int;
        let ghost po = power(p as int, old_e as nat);
        let ghost pn = power(p as int, new_e as nat);
        if old_e > new_e {
            let ghost k = (old_e - new_e) as nat;
            proof {
                lemma_power_adds(p as int, k, new_e as nat);
                assert(k + new_e as nat == old_e as nat);
                lemma_decode_pos(ps, self.es@);
                lemma_power_pos(p as int, k);
                let c = power(p as int, k);
                assert(d * c * pn == v * pn) by (nonlinear_arith)
                    requires
                        d * po == v * pn,
                        po == c * pn,
                ;
                assert(d * c == v) by (nonlinear_arith)
                    requires
                        d * c * pn == v * pn,
                        pn >= 1,
                ;
                assert(c <= v) by (nonlinear_arith)
                    requires
                        d * c == v,
                        c >= 1,
                        d >= 1,
                ;
            }
            let change = pow_u64(p, old_e - new_e);
            proof {
                let c = change as int;
                vstd::arithmetic::div_mod::lemma_div_by_multiple(d, c);
            }
            self.value = self.value / change;
        } else {
            let ghost k = (new_e - old_e) as nat;
            proof {
                lemma_decode_pos(ps, self.es@);
                lemma_power_adds(p as int, k, old_e as nat);
                assert(k + old_e as nat == new_e as nat);
                lemma_power_pos(p as int, k);
                let c = power(p as int, k);
                assert(d * po == v * c * po) by (nonlinear_arith)
                    requires
                        d * po == v * pn,
                        pn == c * po,
                ;
                assert(d == v * c) by (nonlinear_arith)
                    requires
                        d * po == v * c * po,
                        po >= 1,
                ;
                assert(c <= d) by (nonlinear_arith)
                    requires
                        d == v * c,
                        v >= 1,
                        c >= 1,
                ;
            }
            let change = pow_u64(p, new_e - old_e);
            self.value = self.value * change;
        }
        self.es.set(ind, new_e);
    }

    /// Raises the exponent at `ind` by one if the value stays within `bound`,
    /// and returns whether it did; otherwise resets that exponent to zero.
    pub fn try_inc_ind(&mut self, primes: &Vec<u64>, bound: u64, ind: usize) -> (r: bool)
        requires
            old(self).wf(primes@),
            prime_table(primes@),
            ind < old(self).es@.len(),
        ensures
            final(self).wf(primes@),
            r == (old(self).value * primes@[ind as int] <= bound),
            r ==> final(self).es@ == old(self).es@.update(ind as int, (old(self).es@[ind as int] + 1) as u32)
                && final(self).value == old(self).value * primes@[ind as int],
            !r ==> final(self).es@ == old(self).es@.update(ind as int, 0u32),
    {
        let ghost ps = primes@;
        let p = primes[ind];
        proof {
            lemma_prime_table_at_least_two(ps);
            lemma_exponents_small(ps, self.es@);
            let v = self.value as int;
            let b = bound as int;
            let q = p as int;
            assert((b / q < v) == (v * q > b)) by (nonlinear_arith)
                requires
                    q >= 2,
            ;
        }
        if bound / p < self.value {
            proof {
                lemma_decode_update(ps, self.es@, ind as int, 0);
                lemma_power_pos(p as int, self.es@[ind as int] as nat);
                let d0 = decode(ps, self.es@.update(ind as int, 0));
                let po = power(p as int, self.es@[ind as int] as nat);
                let v = self.value as int;
                assert(d0 <= v) by (nonlinear_arith)
                    requires
                        d0 * po == v,
                        po >= 1,
                        v >= 0,
                ;
            }
            self.set_e(primes, ind, 0);
            return false;
        } else {
            let ghost e = self.es@[ind as int];
            proof {
                lemma_decode_update(ps, self.es@, ind as int, (e + 1) as u32);
                lemma_power_pos(p as int, e as nat);
                assert(power(p as int, (e + 1) as nat) == p * power(p as int, e as nat));
                let d1 = decode(ps, self.es@.update(ind as int, (e + 1) as u32));
                let po = power(p as int, e as nat);
                let v = self.value as int;
                assert(d1 == v * p) by (nonlinear_arith)
                    requires
                        d1 * po == v * (p * po),
                        po >= 1,
                ;
            }
            self.value = self.value * p;
            let e1 = self.es[ind] + 1;
            self.es.set(ind, e1);
        }
        true
    }

    /// The odometer step: from the lowest index up, resets each exponent that
    /// cannot be raised within `bound` and raises the first one that can. When
    /// none can, every exponent ends at zero and the value at 1.
    pub fn inc_vec_with_bound(&mut self, primes: &Vec<u64>, bound: u64)
        requires
            old(self).wf(primes@),
            prime_table(primes@),
        ensures
            final(self).wf(primes@),
            final(self).es@.len() == old(self).es@.len(),
            (exists|i: int|
                #[trigger] first_raise(primes@, old(self).es@, bound, i) && final(self).es@ == raised(
                    old(self).es@,
                    i,
                )) && final(self).value <= bound || (forall|i: int|
                0 <= i < old(self).es@.len() ==> !#[trigger] can_raise(primes@, old(self).es@, bound, i))
                && final(self).es@ == zero_below(old(self).es@, old(self).es@.len() as int)
                && final(self).value == 1,
    {
        let ghost ps = primes@;
        let ghost es0 = self.es@;
        let len = self.es.len();
        let mut i: usize = 0;
        proof {
            assert(self.es@ =~= zero_below(es0, 0));
        }
        while i < len
            invariant
                i <= len,
                len == es0.len(),
                es0 == old(self).es@,
                ps == primes@,
                prime_table(ps),
                self.wf(ps),
                self.es@ == zero_below(es0, i as int),
                forall|j: int| 0 <= j < i ==> !#[trigger] can_raise(ps, es0, bound, j),
            decreases len - i,
        {
            if self.try_inc_ind(primes, bound, i) {
                proof {
                    assert(first_raise(ps, es0, bound, i as int));
                    assert(self.es@ =~= raised(es0, i as int));
                }
                return;
            }
            proof {
                assert(self.es@ =~= zero_below(es0, i + 1));
            }
            i = i + 1;
        }
        proof {
            lemma_decode_zeros(ps, self.es@);
        }
    }

    /// The divisor count: the product of `e + 1` over the exponents.
    pub fn multiplicity(&self, primes: &Vec<u64>) -> (r: u64)
        requires
            self.wf(primes@),
            prime_table(primes@),
        ensures
            r == divisor_count(self.es@),
    {
        let ghost ps = primes@;
        let ghost es = self.es@;
        proof {
            lemma_prime_table_at_least_two(ps);
            assert(es.take(0) =~= Seq::<u32>::empty());
        }
        let mut ret: u64 = 1;
        let mut j: usize = 0;
        while j < self.es.len()
            invariant
                j <= es.len(),
                es == self.es@,
                self.wf(ps),
                prime_table(ps),
                ret == divisor_count(es.take(j as int)),
            decreases es.len() - j,
        {
            proof {
                lemma_prime_table_at_least_two(ps);
                assert(es.take(j + 1).drop_last() =~= es.take(j as int));
                lemma_divisor_count_le_value(ps, es.take(j + 1));
                lemma_decode_prefix(ps, es, j + 1);
            }
            ret = ret * (self.es[j] as u64 + 1);
            j = j + 1;
        }
        proof {
            assert(es.take(es.len() as int) =~= es);
        }
        ret
    }
}

impl PartialEq for Composite {
    /// Two composites are equal when their values are.
    fn eq(&self, other: &Self) -> (r: bool) {
        self.value == other.value
    }
}

impl vstd::std_specs::cmp::PartialEqSpecImpl for Composite {
    open spec fn obeys_eq_spec() -> bool {
        true
    }

    open spec fn eq_spec(&self, other: &Self) -> bool {
        self.value == other.value
    }
}

impl PartialOrd for Composite {
    /// Composites are ordered by their values.
    fn partial_cmp(&self, other: &Self) -> (r: Option<core::cmp::Ordering>) {
        if self.value < other.value {
            Some(core::cmp::Ordering::Less)
        } else if self.value > other.value {
            Some(core::cmp::Ordering::Greater)
        } else {
            Some(core::cmp::Ordering::Equal)
        }
    }
}

impl vstd::std_specs::cmp::PartialOrdSpecImpl for Composite {
    open spec fn obeys_partial_cmp_spec() -> bool {
        true
    }

    open spec fn partial_cmp_spec(&self, other: &Self) -> Option<core::cmp::Ordering> {
        if self.value < other.value {
            Some(core::cmp::Ordering::Less)
        } else if self.value > other.value {
            Some(core::cmp::Ordering::Greater)
        } else {
            Some(core::cmp::Ordering::Equal)
        }
    }
}

} // verus!
