//! The ordered index of smooth numbers, grown one prime at a time.

use rayon::slice::ParallelSliceMut;
use vstd::prelude::*;
use vstd::relations::{sorted_by, total_ordering};
use vstd::seq_lib::{lemma_multiset_commutative, lemma_sorted_unique};

use crate::composite::Composite;
use crate::divisors::{divisors, lemma_divisor_count_counts_divisors};
use crate::factor::lemma_decode_injective;
use crate::model::{
    decode, divisor_count, dominated, first_raise, lemma_rank_dominated, lemma_rank_injective,
    lemma_rank_top_digit, lemma_raise_toward, lemma_step_not_past, record_of, lemma_decode_ge_factor, lemma_exponents_small,
    lemma_power_grows, lemma_power_monotone, lemma_power_pos, lemma_prime_table_at_least_two, lemma_rank_bounded, lemma_rank_raised,
    lemma_small_exponent, power, prime_table, raised, rank, zero_below,
};

verus! {

/// Records compare as tuples do: by value, then by divisor count.
pub open spec fn record_le(a: (u64, u64), b: (u64, u64)) -> bool {
    a.0 < b.0 || (a.0 == b.0 && a.1 <= b.1)
}

/// The records ascend in tuple order, so their values never decrease.
pub open spec fn records_sorted(s: Seq<(u64, u64)>) -> bool {
    forall|i: int, j: int| 0 <= i < j < s.len() ==> #[trigger] record_le(s[i], s[j])
}

/// `es` is an exponent vector over the first `k` primes of `ps` whose value
/// and divisor count are those of `rec`.
pub open spec fn represents(ps: Seq<u64>, k: nat, es: Seq<u32>, rec: (u64, u64)) -> bool {
    &&& es.len() == k
    &&& rec.0 == decode(ps, es)
    &&& rec.1 == divisor_count(es)
}

/// `rec` holds a number in `(1, bound]` whose prime factors are among the
/// first `k` primes of `ps`, together with its divisor count.
pub open spec fn smooth_record(ps: Seq<u64>, k: nat, bound: u64, rec: (u64, u64)) -> bool {
    &&& 1 < rec.0 <= bound
    &&& exists|es: Seq<u32>| #[trigger] represents(ps, k, es, rec)
}

/// Every number in `(1, bound]` with an exponent vector over the first `k`
/// primes of `ps` has its record in `s`.
pub open spec fn complete(ps: Seq<u64>, k: nat, bound: u64, s: Seq<(u64, u64)>) -> bool {
    forall|y: Seq<u32>|
        y.len() == k && 1 < decode(ps, y) <= bound ==> s.contains(#[trigger] record_of(ps, y))
}

pub open spec fn all_smooth(ps: Seq<u64>, k: nat, bound: u64, s: Seq<(u64, u64)>) -> bool {
    forall|i: int| 0 <= i < s.len() ==> smooth_record(ps, k, bound, #[trigger] s[i])
}

/// Relies on rayon's `ParallelSliceMut::par_sort_unstable`: the slice keeps
/// its elements and ends in ascending order of the tuples' `Ord`, which
/// compares the first fields, then the second.
#[verifier::external_body]
fn par_sort(v: &mut Vec<(u64, u64)>)
    ensures
        final(v)@.to_multiset() == old(v)@.to_multiset(),
        records_sorted(final(v)@),
{
    v.par_sort_unstable();
}

/// `rec` is the record of an exponent vector over the first `ind + 1` primes
/// whose exponent at `ind` lies in `[lo, hi)`.
pub open spec fn exponent_between(ps: Seq<u64>, ind: int, lo: int, hi: int, rec: (u64, u64)) -> bool {
    exists|y: Seq<u32>| #[trigger]
        represents(ps, (ind + 1) as nat, y, rec) && lo <= y[ind] < hi
}

/// `rec` is the record of a vector of the lane of exponent `e` at `ind` whose
/// rank is at most `cap`.
pub open spec fn from_lane(ps: Seq<u64>, ind: int, e: u32, cap: int, rec: (u64, u64)) -> bool {
    exists|y: Seq<u32>| #[trigger]
        represents(ps, (ind + 1) as nat, y, rec) && y[ind] == e && rank(y) <= cap
}

/// Values strictly ascend.
pub open spec fn values_ascending(s: Seq<(u64, u64)>) -> bool {
    forall|i: int, j: int| #![trigger s[i], s[j]] 0 <= i < j < s.len() ==> s[i].0 < s[j].0
}

proof fn lemma_no_dups_push(s: Seq<(u64, u64)>, x: (u64, u64))
    requires
        s.no_duplicates(),
        !s.contains(x),
    ensures
        s.push(x).no_duplicates(),
{
    let t = s.push(x);
    assert forall|i: int, j: int| 0 <= i < t.len() && 0 <= j < t.len() && i != j implies t[i]
        != t[j] by {
        if i < s.len() && j < s.len() {
            assert(t[i] == s[i] && t[j] == s[j]);
        } else if i < s.len() {
            assert(t[i] == s[i]);
        } else if j < s.len() {
            assert(t[j] == s[j]);
        }
    }
}

proof fn lemma_no_dups_concat(s: Seq<(u64, u64)>, t: Seq<(u64, u64)>)
    requires
        s.no_duplicates(),
        t.no_duplicates(),
        forall|w: int, v: int| 0 <= w < s.len() && 0 <= v < t.len() ==> s[w] != t[v],
    ensures
        (s + t).no_duplicates(),
{
    let u = s + t;
    assert forall|i: int, j: int| 0 <= i < u.len() && 0 <= j < u.len() && i != j implies u[i]
        != u[j] by {
        if i < s.len() && j < s.len() {
            assert(u[i] == s[i] && u[j] == s[j]);
        } else if i < s.len() {
            assert(u[i] == s[i] && u[j] == t[j - s.len()]);
        } else if j < s.len() {
            assert(u[j] == s[j] && u[i] == t[i - s.len()]);
        } else {
            assert(u[i] == t[i - s.len()] && u[j] == t[j - s.len()]);
        }
    }
}

proof fn lemma_no_dups_rearranged(s: Seq<(u64, u64)>, t: Seq<(u64, u64)>)
    requires
        s.no_duplicates(),
        s.to_multiset() == t.to_multiset(),
    ensures
        t.no_duplicates(),
{
    s.lemma_multiset_has_no_duplicates();
    t.lemma_multiset_has_no_duplicates_conv();
}

proof fn lemma_exponent_rearranged(
    ps: Seq<u64>,
    ind: int,
    lo: int,
    hi: int,
    s: Seq<(u64, u64)>,
    t: Seq<(u64, u64)>,
)
    requires
        forall|w: int| 0 <= w < s.len() ==> exponent_between(ps, ind, lo, hi, #[trigger] s[w]),
        s.to_multiset() == t.to_multiset(),
    ensures
        forall|w: int| 0 <= w < t.len() ==> exponent_between(ps, ind, lo, hi, #[trigger] t[w]),
{
    assert forall|w: int| 0 <= w < t.len() implies exponent_between(ps, ind, lo, hi, #[trigger] t[w]) by {
        assert(t.contains(t[w]));
        lemma_contains_rearranged(t, s, t[w]);
        let v = choose|v: int| 0 <= v < s.len() && s[v] == t[w];
        assert(exponent_between(ps, ind, lo, hi, s[v]));
    }
}

proof fn lemma_exponent_widened(
    ps: Seq<u64>,
    ind: int,
    lo: int,
    hi: int,
    hi2: int,
    s: Seq<(u64, u64)>,
)
    requires
        hi <= hi2,
        forall|w: int| 0 <= w < s.len() ==> exponent_between(ps, ind, lo, hi, #[trigger] s[w]),
    ensures
        forall|w: int| 0 <= w < s.len() ==> exponent_between(ps, ind, lo, hi2, #[trigger] s[w]),
{
    assert forall|w: int| 0 <= w < s.len() implies exponent_between(ps, ind, lo, hi2, #[trigger] s[w]) by {
        assert(exponent_between(ps, ind, lo, hi, s[w]));
        let y = choose|y: Seq<u32>| #[trigger]
            represents(ps, (ind + 1) as nat, y, s[w]) && lo <= y[ind] < hi;
        assert(represents(ps, (ind + 1) as nat, y, s[w]));
    }
}

/// Sorted records without repeats, each of an exponent vector over a prime
/// table, have strictly ascending values: equal values would mean equal
/// vectors, hence equal records.
proof fn lemma_values_ascending(ps: Seq<u64>, k: nat, bound: u64, s: Seq<(u64, u64)>)
    requires
        prime_table(ps),
        k <= ps.len(),
        records_sorted(s),
        s.no_duplicates(),
        all_smooth(ps, k, bound, s),
    ensures
        values_ascending(s),
{
    assert forall|i: int, j: int| #![trigger s[i], s[j]] 0 <= i < j < s.len() implies s[i].0
        < s[j].0 by {
        assert(record_le(s[i], s[j]));
        if s[i].0 == s[j].0 {
            assert(smooth_record(ps, k, bound, s[i]));
            assert(smooth_record(ps, k, bound, s[j]));
            let y1 = choose|y: Seq<u32>| #[trigger] represents(ps, k, y, s[i]);
            let y2 = choose|y: Seq<u32>| #[trigger] represents(ps, k, y, s[j]);
            lemma_decode_injective(ps, y1, y2);
        }
    }
}

/// Two sorted sequences that hold the same records are the same sequence:
/// sorting records that are already sorted leaves them as they are.
pub proof fn lemma_sorted_records_unique(s: Seq<(u64, u64)>, t: Seq<(u64, u64)>)
    requires
        records_sorted(s),
        records_sorted(t),
        s.to_multiset() == t.to_multiset(),
    ensures
        s == t,
{
    let leq = |a: (u64, u64), b: (u64, u64)| record_le(a, b);
    assert(sorted_by(s, leq)) by {
        assert forall|i: int, j: int| 0 <= i < j < s.len() implies #[trigger] leq(s[i], s[j]) by {
            assert(record_le(s[i], s[j]));
        }
    }
    assert(sorted_by(t, leq)) by {
        assert forall|i: int, j: int| 0 <= i < j < t.len() implies #[trigger] leq(t[i], t[j]) by {
            assert(record_le(t[i], t[j]));
        }
    }
    assert(total_ordering(leq));
    lemma_sorted_unique(s, t, leq);
}

/// Records that are all smooth stay so under any rearrangement.
proof fn lemma_smooth_rearranged(
    ps: Seq<u64>,
    k: nat,
    bound: u64,
    s: Seq<(u64, u64)>,
    t: Seq<(u64, u64)>,
)
    requires
        all_smooth(ps, k, bound, s),
        s.to_multiset() == t.to_multiset(),
    ensures
        all_smooth(ps, k, bound, t),
{
    s.to_multiset_ensures();
    t.to_multiset_ensures();
    assert forall|i: int| 0 <= i < t.len() implies smooth_record(ps, k, bound, #[trigger] t[i]) by {
        assert(t.contains(t[i]));
        assert(t.to_multiset().count(t[i]) > 0);
        assert(s.to_multiset().count(t[i]) > 0);
        assert(s.contains(t[i]));
        let j = choose|j: int| 0 <= j < s.len() && s[j] == t[i];
        assert(smooth_record(ps, k, bound, s[j]));
    }
}

/// The records of two sequences that are all smooth are smooth together.
proof fn lemma_smooth_concat(
    ps: Seq<u64>,
    k: nat,
    bound: u64,
    s: Seq<(u64, u64)>,
    t: Seq<(u64, u64)>,
)
    requires
        all_smooth(ps, k, bound, s),
        all_smooth(ps, k, bound, t),
    ensures
        all_smooth(ps, k, bound, s + t),
{
    assert forall|i: int| 0 <= i < (s + t).len() implies smooth_record(
        ps,
        k,
        bound,
        #[trigger] (s + t)[i],
    ) by {
        if i < s.len() {
            assert((s + t)[i] == s[i]);
        } else {
            assert((s + t)[i] == t[i - s.len()]);
        }
    }
}

/// Records smooth over the first `k` primes are smooth over the first `k + 1`:
/// a zero exponent for the next prime leaves value and divisor count as they are.
proof fn lemma_smooth_widened(ps: Seq<u64>, k: nat, bound: u64, s: Seq<(u64, u64)>)
    requires
        all_smooth(ps, k, bound, s),
    ensures
        all_smooth(ps, k + 1, bound, s),
{
    assert forall|i: int| 0 <= i < s.len() implies smooth_record(ps, k + 1, bound, #[trigger] s[i]) by {
        assert(smooth_record(ps, k, bound, s[i]));
        let es = choose|es: Seq<u32>| #[trigger] represents(ps, k, es, s[i]);
        let wider = es.push(0);
        assert(wider.drop_last() =~= es);
        assert(power(ps[k as int] as int, 0) == 1);
        assert(wider.last() == 0);
        assert(decode(ps, wider) == decode(ps, es) * power(ps[k as int] as int, 0));
        assert(divisor_count(wider) == divisor_count(es) * (0 + 1));
        assert(represents(ps, k + 1, wider, s[i]));
    }
}

/// Sorts the records; records already sorted come back unchanged.
fn sort_records(v: &mut Vec<(u64, u64)>)
    ensures
        final(v)@.to_multiset() == old(v)@.to_multiset(),
        records_sorted(final(v)@),
        records_sorted(old(v)@) ==> final(v)@ == old(v)@,
{
    par_sort(v);
    proof {
        if records_sorted(old(v)@) {
            lemma_sorted_records_unique(old(v)@, v@);
        }
    }
}

/// `y` belongs to the lane of exponent `e` at `ind`: an exponent vector over
/// the first `ind + 1` primes, with `e` at `ind`, whose value is within `bound`.
pub open spec fn in_lane(ps: Seq<u64>, ind: int, e: u32, bound: u64, y: Seq<u32>) -> bool {
    &&& y.len() == ind + 1
    &&& y[ind] == e
    &&& decode(ps, y) <= bound
}

/// `y` is an exponent vector over the first `ind + 1` primes that uses the
/// prime at `ind`, with a value within `bound`.
pub open spec fn newly_reached(ps: Seq<u64>, ind: int, bound: u64, y: Seq<u32>) -> bool {
    &&& y.len() == ind + 1
    &&& y[ind] >= 1
    &&& decode(ps, y) <= bound
}

proof fn lemma_contains_concat(s: Seq<(u64, u64)>, t: Seq<(u64, u64)>, x: (u64, u64))
    requires
        s.contains(x) || t.contains(x),
    ensures
        (s + t).contains(x),
{
    if s.contains(x) {
        let i = choose|i: int| 0 <= i < s.len() && s[i] == x;
        assert((s + t)[i] == x);
    } else {
        let i = choose|i: int| 0 <= i < t.len() && t[i] == x;
        assert((s + t)[s.len() + i] == x);
    }
}

proof fn lemma_contains_rearranged(s: Seq<(u64, u64)>, t: Seq<(u64, u64)>, x: (u64, u64))
    requires
        s.contains(x),
        s.to_multiset() == t.to_multiset(),
    ensures
        t.contains(x),
{
    s.to_multiset_ensures();
    t.to_multiset_ensures();
    assert(s.to_multiset().count(x) > 0);
}

/// The odometer lane whose exponent of `primes[ind]` stays `e_val`: every
/// record it reaches from `primes[ind]^e_val` by bounded steps, which are the
/// records of all the vectors of the lane.
fn generate_with_fixed(primes: &Vec<u64>, ind: usize, e_val: u32, bound: u64) -> (r: Vec<(u64, u64)>)
    requires
        prime_table(primes@),
        ind < primes@.len(),
        e_val >= 1,
        power(primes@[ind as int] as int, e_val as nat) <= bound,
    ensures
        all_smooth(primes@, (ind + 1) as nat, bound, r@),
        forall|y: Seq<u32>|
            #[trigger] in_lane(primes@, ind as int, e_val, bound, y) ==> r@.contains(
                record_of(primes@, y),
            ),
        r@.no_duplicates(),
        forall|w: int|
            0 <= w < r@.len() ==> exponent_between(
                primes@,
                ind as int,
                e_val as int,
                e_val + 1,
                #[trigger] r@[w],
            ),
{
    let ghost ps = primes@;
    let ghost k = (ind + 1) as nat;
    let ghost p = ps[ind as int] as int;
    proof {
        lemma_prime_table_at_least_two(ps);
        lemma_power_grows(p, e_val as nat);
    }
    let mut c = Composite::new(primes, ind, e_val);
    let mut smooths: Vec<(u64, u64)> = Vec::new();
    let m = c.multiplicity(primes);
    smooths.push((c.value, m));
    proof {
        assert(represents(ps, k, c.es@, (c.value, m)));
        assert(smooths@[0] == (c.value, m));
        lemma_exponents_small(ps, c.es@);
        lemma_rank_bounded(c.es@);
        assert forall|y: Seq<u32>|
            #[trigger] in_lane(ps, ind as int, e_val, bound, y) && rank(y) <= rank(c.es@)
                implies smooths@.contains(record_of(ps, y)) by {
            assert(dominated(c.es@, y));
            lemma_rank_dominated(c.es@, y);
            lemma_exponents_small(ps, y);
            lemma_rank_injective(c.es@, y);
            assert(smooths@[0] == record_of(ps, y));
        }
        assert(from_lane(ps, ind as int, e_val, rank(c.es@), smooths@[0]));
    }
    // the lane ends once a step changes the fixed exponent
    loop
        invariant_except_break
            c.wf(ps),
            c.es@.len() == k,
            c.es@[ind as int] == e_val,
            c.value <= bound,
            0 <= rank(c.es@) < power(64, k),
            forall|y: Seq<u32>|
                #[trigger] in_lane(ps, ind as int, e_val, bound, y) && rank(y) <= rank(c.es@)
                    ==> smooths@.contains(record_of(ps, y)),
            forall|w: int|
                0 <= w < smooths@.len() ==> from_lane(
                    ps,
                    ind as int,
                    e_val,
                    rank(c.es@),
                    #[trigger] smooths@[w],
                ),
        invariant
            smooths@.no_duplicates(),
            ps == primes@,
            k == ind + 1,
            p == ps[ind as int],
            e_val >= 1,
            ind < ps.len(),
            prime_table(ps),
            all_smooth(ps, k, bound, smooths@),
        ensures
            all_smooth(ps, k, bound, smooths@),
            forall|y: Seq<u32>|
                #[trigger] in_lane(ps, ind as int, e_val, bound, y) ==> smooths@.contains(
                    record_of(ps, y),
                ),
            forall|w: int|
                0 <= w < smooths@.len() ==> exponent_between(
                    ps,
                    ind as int,
                    e_val as int,
                    e_val + 1,
                    #[trigger] smooths@[w],
                ),
        decreases power(64, k) - rank(c.es@),
    {
        let ghost prev = c.es@;
        c.inc_vec_with_bound(primes, bound);
        if c.es[ind] == e_val {
            let ghost i: int;
            proof {
                lemma_prime_table_at_least_two(ps);
                if c.es@ == zero_below(prev, prev.len() as int) {
                    assert(c.es@[ind as int] == 0);
                }
                i = choose|i: int| #[trigger]
                    first_raise(ps, prev, bound, i) && c.es@ == raised(prev, i);
                lemma_exponents_small(ps, prev);
                if i == ind {
                    assert(c.es@[ind as int] == e_val + 1);
                }
                lemma_rank_raised(prev, i);
                lemma_exponents_small(ps, c.es@);
                lemma_rank_bounded(c.es@);
                lemma_decode_ge_factor(ps, c.es@, ind as int);
                lemma_power_grows(p, e_val as nat);
                assert(1 < c.value <= bound);
            }
            let m = c.multiplicity(primes);
            let ghost before = smooths@;
            proof {
                let x = (c.value, m);
                assert(represents(ps, k, c.es@, x));
                if before.contains(x) {
                    let w = choose|w: int| 0 <= w < before.len() && before[w] == x;
                    assert(from_lane(ps, ind as int, e_val, rank(prev), before[w]));
                    let y = choose|y: Seq<u32>| #[trigger]
                        represents(ps, k, y, before[w]) && y[ind as int] == e_val && rank(y)
                            <= rank(prev);
                    lemma_decode_injective(ps, y, c.es@);
                }
                lemma_no_dups_push(before, x);
            }
            smooths.push((c.value, m));
            proof {
                assert(represents(ps, k, c.es@, (c.value, m)));
                assert forall|w: int| 0 <= w < smooths@.len() implies from_lane(
                    ps,
                    ind as int,
                    e_val,
                    rank(c.es@),
                    #[trigger] smooths@[w],
                ) by {
                    if w < before.len() {
                        assert(smooths@[w] == before[w]);
                        assert(from_lane(ps, ind as int, e_val, rank(prev), before[w]));
                        let y = choose|y: Seq<u32>| #[trigger]
                            represents(ps, k, y, before[w]) && y[ind as int] == e_val && rank(y)
                                <= rank(prev);
                        assert(represents(ps, (ind + 1) as nat, y, smooths@[w]));
                        assert(rank(y) <= rank(c.es@));
                    } else {
                        assert(smooths@[w] == (c.value, m));
                        assert(represents(ps, (ind + 1) as nat, c.es@, smooths@[w]));
                    }
                }
                assert forall|j: int| 0 <= j < smooths@.len() implies smooth_record(
                    ps,
                    k,
                    bound,
                    #[trigger] smooths@[j],
                ) by {
                    if j < before.len() {
                        assert(smooths@[j] == before[j]);
                    } else {
                        assert(smooths@[j] == (c.value, m));
                    }
                }
                assert forall|y: Seq<u32>|
                    #[trigger] in_lane(ps, ind as int, e_val, bound, y) && rank(y) <= rank(c.es@)
                        implies smooths@.contains(record_of(ps, y)) by {
                    if rank(y) <= rank(prev) {
                        let x = record_of(ps, y);
                        let w = choose|w: int| 0 <= w < before.len() && before[w] == x;
                        assert(smooths@[w] == x);
                    } else {
                        lemma_step_not_past(ps, prev, y, bound, i);
                        lemma_exponents_small(ps, y);
                        lemma_rank_injective(c.es@, y);
                        assert(smooths@[before.len() as int] == record_of(ps, y));
                    }
                }
            }
        } else {
            proof {
                lemma_prime_table_at_least_two(ps);
                assert forall|y: Seq<u32>| #[trigger]
                    in_lane(ps, ind as int, e_val, bound, y) implies smooths@.contains(
                    record_of(ps, y),
                ) by {
                    if rank(y) > rank(prev) {
                        let j = lemma_raise_toward(ps, prev, y, bound);
                        let i = choose|i: int| #[trigger]
                            first_raise(ps, prev, bound, i) && c.es@ == raised(prev, i);
                        lemma_step_not_past(ps, prev, y, bound, i);
                        assert(i == ind);
                        lemma_exponents_small(ps, c.es@);
                        lemma_exponents_small(ps, y);
                        lemma_exponents_small(ps, prev);
                        assert(c.es@[ind as int] == e_val + 1);
                        lemma_rank_top_digit(y, c.es@, ind as int);
                    }
                }
                assert forall|w: int| 0 <= w < smooths@.len() implies exponent_between(
                    ps,
                    ind as int,
                    e_val as int,
                    e_val + 1,
                    #[trigger] smooths@[w],
                ) by {
                    assert(from_lane(ps, ind as int, e_val, rank(prev), smooths@[w]));
                    let y = choose|y: Seq<u32>| #[trigger]
                        represents(ps, k, y, smooths@[w]) && y[ind as int] == e_val && rank(y)
                            <= rank(prev);
                    assert(represents(ps, k, y, smooths@[w]));
                }
            }
            break ;
        }
    }
    smooths
}

/// The smooth numbers up to a fixed bound over the first `primes` primes of a
/// table, each with its divisor count, in ascending order.
pub struct Smooths {
    /// Every value held lies in `(1, upper_bound]`.
    pub upper_bound: u64,
    /// How many primes of the table have been admitted.
    pub primes: usize,
    table: Vec<u64>,
    smooths: Vec<(u64, u64)>,
}

impl Smooths {
    /// The records held, as (value, divisor count).
    pub closed spec fn records(&self) -> Seq<(u64, u64)> {
        self.smooths@
    }

    /// How many primes of the table have been admitted.
    pub closed spec fn admitted(&self) -> nat {
        self.primes as nat
    }

    /// The ceiling of the values.
    pub closed spec fn bound(&self) -> u64 {
        self.upper_bound
    }

    /// The prime table that the numbers are drawn from.
    pub closed spec fn table(&self) -> Seq<u64> {
        self.table@
    }

    /// The index holds, in ascending order, records of numbers in
    /// `(1, upper_bound]` built from the admitted primes, each with its
    /// divisor count.
    pub open spec fn wf(&self) -> bool {
        &&& prime_table(self.table())
        &&& self.admitted() <= self.table().len()
        &&& records_sorted(self.records())
        &&& values_ascending(self.records())
        &&& all_smooth(self.table(), self.admitted(), self.bound(), self.records())
        &&& complete(self.table(), self.admitted(), self.bound(), self.records())
    }

    /// An empty index over `table` with the ceiling `bound` and no prime admitted.
    pub fn new(bound: u64, table: Vec<u64>) -> (r: Self)
        requires
            prime_table(table@),
        ensures
            r.wf(),
            r.bound() == bound,
            r.admitted() == 0,
            r.table() == table@,
            r.records() == Seq::<(u64, u64)>::empty(),
    {
        let r = Smooths { upper_bound: bound, primes: 0, table, smooths: Vec::new() };
        proof {
            assert forall|y: Seq<u32>| y.len() == 0 && 1 < decode(table@, y) <= bound implies r.smooths@.contains(
                #[trigger] record_of(table@, y),
            ) by {}
        }
        r
    }

    pub fn len(&self) -> (r: usize)
        ensures
            r == self.records().len(),
    {
        self.smooths.len()
    }

    pub fn get(&self, ind: usize) -> (r: (u64, u64))
        requires
            ind < self.records().len(),
        ensures
            r == self.records()[ind as int],
    {
        self.smooths[ind]
    }

    /// How many primes have been admitted.
    pub fn ind(&self) -> (r: usize)
        ensures
            r == self.admitted(),
    {
        self.primes
    }

    /// How many primes the table holds: `add_prime` may be called while
    /// fewer have been admitted.
    pub fn table_len(&self) -> (r: usize)
        ensures
            r == self.table().len(),
    {
        self.table.len()
    }

    /// Admits the next prime of the table: every number it newly makes
    /// reachable within the bound is added, and the records are sorted again.
    /// Records already held all stay.
    pub fn add_prime(&mut self)
        requires
            old(self).wf(),
            old(self).admitted() < old(self).table().len(),
        ensures
            final(self).wf(),
            final(self).admitted() == old(self).admitted() + 1,
            final(self).bound() == old(self).bound(),
            final(self).table() == old(self).table(),
            old(self).records().to_multiset().subset_of(final(self).records().to_multiset()),
    {
        let table_len = self.table.len();
        proof {
            assert(self.primes < table_len);
        }
        let mut smooths = self.init_gen(self.primes);
        let ghost held = self.smooths@;
        let ghost fresh = smooths@;
        self.smooths.append(&mut smooths);
        self.primes = self.primes + 1;
        proof {
            let ps = self.table@;
            let k = self.primes as nat;
            lemma_smooth_widened(ps, (k - 1) as nat, self.upper_bound, held);
            lemma_smooth_concat(ps, k, self.upper_bound, held, fresh);
            lemma_multiset_commutative(held, fresh);
            let k0 = (k - 1) as nat;
            assert(held.no_duplicates()) by {
                assert forall|i: int, j: int|
                    0 <= i < held.len() && 0 <= j < held.len() && i != j implies held[i]
                    != held[j] by {
                    if i < j {
                        assert(held[i].0 < held[j].0);
                    } else {
                        assert(held[j].0 < held[i].0);
                    }
                }
            }
            assert forall|w: int, v: int|
                0 <= w < held.len() && 0 <= v < fresh.len() implies held[w] != fresh[v] by {
                if held[w] == fresh[v] {
                    assert(smooth_record(ps, k0, old(self).upper_bound, held[w]));
                    let y1 = choose|y: Seq<u32>| #[trigger] represents(ps, k0, y, held[w]);
                    let wider = y1.push(0);
                    assert(wider.drop_last() =~= y1);
                    assert(power(ps[k0 as int] as int, 0) == 1);
                    assert(decode(ps, wider) == decode(ps, y1) * power(ps[k0 as int] as int, 0));
                    assert(exponent_between(ps, k0 as int, 1, 64, fresh[v]));
                    let y2 = choose|y: Seq<u32>| #[trigger]
                        represents(ps, (k0 + 1) as nat, y, fresh[v]) && 1 <= y[k0 as int] < 64;
                    lemma_decode_injective(ps, wider, y2);
                    assert(wider[k0 as int] == 0);
                }
            }
            lemma_no_dups_concat(held, fresh);
        }
        let ghost joined = self.smooths@;
        sort_records(&mut self.smooths);
        proof {
            let ps = self.table@;
            let k = self.primes as nat;
            let bound = self.upper_bound;
            lemma_smooth_rearranged(ps, k, bound, joined, self.smooths@);
            lemma_no_dups_rearranged(joined, self.smooths@);
            lemma_values_ascending(ps, k, bound, self.smooths@);
            assert(held.to_multiset().subset_of(self.smooths@.to_multiset()));
            assert forall|y: Seq<u32>| y.len() == k && 1 < decode(ps, y) <= bound implies self.smooths@.contains(
                #[trigger] record_of(ps, y),
            ) by {
                let x = record_of(ps, y);
                if y[k - 1] == 0 {
                    let shorter = y.drop_last();
                    assert(power(ps[k - 1] as int, 0) == 1);
                    assert(y.last() == 0);
                    assert(decode(ps, y) == decode(ps, shorter) * power(ps[k - 1] as int, 0));
                    assert(divisor_count(y) == divisor_count(shorter) * (0 + 1));
                    assert(record_of(ps, shorter) == x);
                    assert(held.contains(record_of(ps, shorter)));
                } else {
                    assert(newly_reached(ps, (k - 1) as int, bound, y));
                }
                lemma_contains_concat(held, fresh, x);
                lemma_contains_rearranged(joined, self.smooths@, x);
            }
        }
    }

    /// The records of every number that the prime at `ind` newly makes
    /// reachable, sorted: one odometer lane per exponent of that prime whose
    /// power stays within the bound.
    fn init_gen(&self, ind: usize) -> (r: Vec<(u64, u64)>)
        requires
            self.wf(),
            ind < self.table().len(),
        ensures
            records_sorted(r@),
            all_smooth(self.table(), (ind + 1) as nat, self.upper_bound, r@),
            forall|y: Seq<u32>|
                #[trigger] newly_reached(self.table(), ind as int, self.upper_bound, y)
                    ==> r@.contains(record_of(self.table(), y)),
            r@.no_duplicates(),
            forall|w: int|
                0 <= w < r@.len() ==> exponent_between(
                    self.table(),
                    ind as int,
                    1,
                    64,
                    #[trigger] r@[w],
                ),
    {
        let ghost ps = self.table@;
        let ghost k = (ind + 1) as nat;
        let prime = self.table[ind];
        let upper_bound = self.upper_bound;
        proof {
            lemma_prime_table_at_least_two(ps);
        }
        let mut smooths: Vec<(u64, u64)> = Vec::new();
        let mut p: u64 = prime;
        let mut i: u32 = 1;
        proof {
            assert(power(prime as int, 0) == 1);
            assert(power(prime as int, 1) == prime * power(prime as int, 0));
        }
        // one lane for each exponent i with prime^i within the bound
        loop
            invariant_except_break
                forall|w: int|
                    0 <= w < smooths@.len() ==> exponent_between(
                        ps,
                        ind as int,
                        1,
                        i as int,
                        #[trigger] smooths@[w],
                    ),
            invariant
                ps == self.table@,
                k == ind + 1,
                prime == ps[ind as int],
                prime >= 2,
                prime_table(ps),
                ind < ps.len(),
                upper_bound == self.upper_bound,
                p == power(prime as int, i as nat),
                1 <= i < 64,
                smooths@.no_duplicates(),
                all_smooth(ps, k, upper_bound, smooths@),
                forall|y: Seq<u32>|
                    #[trigger] newly_reached(ps, ind as int, upper_bound, y) && y[ind as int] < i
                        ==> smooths@.contains(record_of(ps, y)),
            ensures
                all_smooth(ps, k, upper_bound, smooths@),
                forall|y: Seq<u32>|
                    #[trigger] newly_reached(ps, ind as int, upper_bound, y) ==> smooths@.contains(
                        record_of(ps, y),
                    ),
                smooths@.no_duplicates(),
                forall|w: int|
                    0 <= w < smooths@.len() ==> exponent_between(
                        ps,
                        ind as int,
                        1,
                        64,
                        #[trigger] smooths@[w],
                    ),
            decreases u64::MAX - p,
        {
            if p > upper_bound {
                proof {
                    assert forall|y: Seq<u32>| #[trigger]
                        newly_reached(ps, ind as int, upper_bound, y) implies smooths@.contains(
                        record_of(ps, y),
                    ) by {
                        lemma_decode_ge_factor(ps, y, ind as int);
                        if y[ind as int] >= i {
                            lemma_power_monotone(prime as int, i as nat, y[ind as int] as nat);
                        }
                    }
                    lemma_exponent_widened(ps, ind as int, 1, i as int, 64, smooths@);
                }
                break ;
            }
            let mut lane = generate_with_fixed(&self.table, ind, i, upper_bound);
            let ghost before = smooths@;
            let ghost lane_view = lane@;
            proof {
                lemma_smooth_concat(ps, k, upper_bound, before, lane@);
            }
            smooths.append(&mut lane);
            proof {
                assert forall|y: Seq<u32>|
                    #[trigger] newly_reached(ps, ind as int, upper_bound, y) && y[ind as int] < i
                        + 1 implies smooths@.contains(record_of(ps, y)) by {
                    if y[ind as int] == i {
                        assert(in_lane(ps, ind as int, i, upper_bound, y));
                    }
                    lemma_contains_concat(before, lane_view, record_of(ps, y));
                }
                assert forall|w: int, v: int|
                    0 <= w < before.len() && 0 <= v < lane_view.len() implies before[w]
                    != lane_view[v] by {
                    assert(exponent_between(ps, ind as int, 1, i as int, before[w]));
                    assert(exponent_between(ps, ind as int, i as int, i + 1, lane_view[v]));
                    if before[w] == lane_view[v] {
                        let y1 = choose|y: Seq<u32>| #[trigger]
                            represents(ps, (ind + 1) as nat, y, before[w]) && 1 <= y[ind as int] < i;
                        let y2 = choose|y: Seq<u32>| #[trigger]
                            represents(ps, (ind + 1) as nat, y, lane_view[v]) && i <= y[ind as int] < i + 1;
                        lemma_decode_injective(ps, y1, y2);
                    }
                }
                lemma_no_dups_concat(before, lane_view);
                assert forall|w: int| 0 <= w < smooths@.len() implies exponent_between(
                    ps,
                    ind as int,
                    1,
                    i + 1,
                    #[trigger] smooths@[w],
                ) by {
                    if w < before.len() {
                        assert(smooths@[w] == before[w]);
                        assert(exponent_between(ps, ind as int, 1, i as int, before[w]));
                        let y = choose|y: Seq<u32>| #[trigger]
                            represents(ps, (ind + 1) as nat, y, before[w]) && 1 <= y[ind as int] < i;
                        assert(represents(ps, (ind + 1) as nat, y, smooths@[w]));
                    } else {
                        let v = w - before.len();
                        assert(smooths@[w] == lane_view[v]);
                        assert(exponent_between(ps, ind as int, i as int, i + 1, lane_view[v]));
                        let y = choose|y: Seq<u32>| #[trigger]
                            represents(ps, (ind + 1) as nat, y, lane_view[v]) && i <= y[ind as int] < i + 1;
                        assert(represents(ps, (ind + 1) as nat, y, smooths@[w]));
                    }
                }
            }
            // check before multiplying, so that no power overflows
            if u64::MAX / prime < p {
                proof {
                    lemma_power_pos(prime as int, i as nat);
                    let a = p as int;
                    let q = prime as int;
                    assert(a * q > u64::MAX) by (nonlinear_arith)
                        requires
                            u64::MAX as int / q < a,
                            q >= 2,
                    ;
                    assert(power(q, (i + 1) as nat) == q * power(q, i as nat));
                    assert(a * q == q * a);
                    assert forall|y: Seq<u32>| #[trigger]
                        newly_reached(ps, ind as int, upper_bound, y) implies smooths@.contains(
                        record_of(ps, y),
                    ) by {
                        lemma_decode_ge_factor(ps, y, ind as int);
                        if y[ind as int] > i {
                            lemma_power_monotone(prime as int, (i + 1) as nat, y[ind as int] as nat);
                        }
                    }
                    lemma_exponent_widened(ps, ind as int, 1, i + 1, 64, smooths@);
                }
                break ;
            }
            proof {
                lemma_power_pos(prime as int, i as nat);
                let a = p as int;
                let q = prime as int;
                assert(a * q <= u64::MAX) by (nonlinear_arith)
                    requires
                        u64::MAX as int / q >= a,
                        q >= 2,
                ;
                assert(a * q > a) by (nonlinear_arith)
                    requires
                        a >= 1,
                        q >= 2,
                ;
                assert(power(q, (i + 1) as nat) == q * power(q, i as nat));
                lemma_small_exponent(q, (i + 1) as nat);
            }
            p = p * prime;
            i = i + 1;
        }
        let ghost joined = smooths@;
        sort_records(&mut smooths);
        proof {
            lemma_smooth_rearranged(ps, k, upper_bound, joined, smooths@);
            lemma_no_dups_rearranged(joined, smooths@);
            lemma_exponent_rearranged(ps, ind as int, 1, 64, joined, smooths@);
            assert forall|y: Seq<u32>| #[trigger]
                newly_reached(ps, ind as int, upper_bound, y) implies smooths@.contains(
                record_of(ps, y),
            ) by {
                lemma_contains_rearranged(joined, smooths@, record_of(ps, y));
            }
        }
        smooths
    }
    /// Binary search for how many records have a value of at most `b`: as
    /// the values ascend, those are the first ones.
    fn count_le(&self, b: u64) -> (r: usize)
        requires
            self.wf(),
        ensures
            r <= self.records().len(),
            forall|i: int| 0 <= i < r ==> #[trigger] self.records()[i].0 <= b,
            forall|i: int| r <= i < self.records().len() ==> #[trigger] self.records()[i].0 > b,
    {
        let ghost s = self.smooths@;
        let mut lo: usize = 0;
        let mut hi: usize = self.smooths.len();
        while lo < hi
            invariant
                s == self.smooths@,
                records_sorted(s),
                lo <= hi <= s.len(),
                forall|i: int| 0 <= i < lo ==> #[trigger] s[i].0 <= b,
                forall|i: int| hi <= i < s.len() ==> #[trigger] s[i].0 > b,
            decreases hi - lo,
        {
            let mid = lo + (hi - lo) / 2;
            if self.smooths[mid].0 <= b {
                proof {
                    assert forall|i: int| 0 <= i < mid + 1 implies #[trigger] s[i].0 <= b by {
                        if i < mid {
                            assert(record_le(s[i], s[mid as int]));
                        }
                    }
                }
                lo = mid + 1;
            } else {
                proof {
                    assert forall|i: int| mid <= i < s.len() implies #[trigger] s[i].0 > b by {
                        if i > mid {
                            assert(record_le(s[mid as int], s[i]));
                        }
                    }
                }
                hi = mid;
            }
        }
        lo
    }

    /// The smallest index whose value exceeds `b`, or `None` where no value
    /// does.
    pub fn find_ind_gt(&self, b: u64) -> (r: Option<usize>)
        requires
            self.wf(),
        ensures
            match r {
                None => forall|j: int|
                    0 <= j < self.records().len() ==> #[trigger] self.records()[j].0 <= b,
                Some(i) => {
                    &&& i < self.records().len()
                    &&& self.records()[i as int].0 > b
                    &&& forall|j: int| 0 <= j < i ==> #[trigger] self.records()[j].0 <= b
                },
            },
    {
        let n = self.count_le(b);
        if n == self.smooths.len() {
            None
        } else {
            Some(n)
        }
    }

    /// The largest index whose value is at most `b`, or `None` where no value
    /// is.
    pub fn find_ind_le(&self, b: u64) -> (r: Option<usize>)
        requires
            self.wf(),
        ensures
            match r {
                None => forall|j: int|
                    0 <= j < self.records().len() ==> #[trigger] self.records()[j].0 > b,
                Some(i) => {
                    &&& i < self.records().len()
                    &&& self.records()[i as int].0 <= b
                    &&& forall|j: int|
                        i < j < self.records().len() ==> #[trigger] self.records()[j].0 > b
                },
            },
    {
        let n = self.count_le(b);
        if n == 0 {
            None
        } else {
            Some(n - 1)
        }
    }
}

/// The values held are exactly the numbers in `(1, bound]` that have an
/// exponent vector over the admitted primes, that is, whose prime factors are
/// all among them.
pub proof fn lemma_exhaustive(s: Smooths, n: int)
    requires
        s.wf(),
    ensures
        (exists|i: int| 0 <= i < s.records().len() && #[trigger] s.records()[i].0 == n) <==> (1 < n
            <= s.bound() && exists|y: Seq<u32>|
            y.len() == s.admitted() && #[trigger] decode(s.table(), y) == n),
{
    let ps = s.table();
    let k = s.admitted();
    let recs = s.records();
    if exists|i: int| 0 <= i < recs.len() && #[trigger] recs[i].0 == n {
        let i = choose|i: int| 0 <= i < recs.len() && #[trigger] recs[i].0 == n;
        assert(smooth_record(ps, k, s.bound(), recs[i]));
        let es = choose|es: Seq<u32>| #[trigger] represents(ps, k, es, recs[i]);
        assert(decode(ps, es) == n);
    }
    if 1 < n <= s.bound() && exists|y: Seq<u32>| y.len() == k && #[trigger] decode(ps, y) == n {
        let y = choose|y: Seq<u32>| y.len() == k && #[trigger] decode(ps, y) == n;
        assert(recs.contains(record_of(ps, y)));
        let i = choose|i: int| 0 <= i < recs.len() && recs[i] == record_of(ps, y);
        assert(recs[i].0 == n);
    }
}

/// Each record's multiplicity is the number of positive divisors of its value.
pub proof fn lemma_multiplicity_counts_divisors(s: Smooths, i: int)
    requires
        s.wf(),
        0 <= i < s.records().len(),
    ensures
        s.records()[i].1 == divisors(s.records()[i].0 as int).len(),
{
    let rec = s.records()[i];
    assert(smooth_record(s.table(), s.admitted(), s.bound(), rec));
    let es = choose|es: Seq<u32>| #[trigger] represents(s.table(), s.admitted(), es, rec);
    lemma_divisor_count_counts_divisors(s.table(), es);
}

} // verus!
