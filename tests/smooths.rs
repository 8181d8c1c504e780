use smooth_numbers::composite::Composite;
use smooth_numbers::primes::first_primes;
use smooth_numbers::smooths::Smooths;

fn records(s: &Smooths) -> Vec<(u64, u64)> {
    (0..s.len()).map(|i| s.get(i)).collect()
}

fn values(s: &Smooths) -> Vec<u64> {
    records(s).iter().map(|r| r.0).collect()
}

fn divisors(n: u64) -> u64 {
    (1..=n).filter(|d| n % d == 0).count() as u64
}

fn smooth_over(mut n: u64, ps: &[u64]) -> bool {
    for &p in ps {
        while n % p == 0 {
            n /= p;
        }
    }
    n == 1
}

fn index(bound: u64, k: usize) -> Smooths {
    let mut s = Smooths::new(bound, first_primes(100));
    for _ in 0..k {
        s.add_prime();
    }
    s
}

#[test]
fn first_primes_lists_primes_in_order() {
    let ps = first_primes(30);
    assert!(ps.len() >= 10);
    assert_eq!(&ps[..10], &[2, 3, 5, 7, 11, 13, 17, 19, 23, 29]);
    for w in ps.windows(2) {
        assert!(w[0] < w[1]);
    }
}

#[test]
fn composite_new_decodes_prime_power() {
    let ps = first_primes(20);
    let c = Composite::new(&ps, 1, 2);
    assert_eq!(c.value, 9);
    assert_eq!(c.es, vec![0, 2]);
    assert_eq!(c.multiplicity(&ps), 3);
}

#[test]
fn composite_try_inc_ind_within_and_beyond_bound() {
    let ps = first_primes(20);
    let mut c = Composite::new(&ps, 1, 1);
    assert!(c.try_inc_ind(&ps, 10, 0));
    assert_eq!(c.value, 6);
    assert_eq!(c.es, vec![1, 1]);
    assert!(!c.try_inc_ind(&ps, 10, 0));
    assert_eq!(c.value, 3);
    assert_eq!(c.es, vec![0, 1]);
}

#[test]
fn composite_odometer_carries() {
    let ps = first_primes(20);
    let mut c = Composite::new(&ps, 1, 1);
    let mut seen = vec![c.value];
    loop {
        c.inc_vec_with_bound(&ps, 20);
        if c.es[1] != 1 {
            break;
        }
        seen.push(c.value);
    }
    assert_eq!(seen, vec![3, 6, 12]);
    // the step past 12 carries into the fixed exponent: 2 * 9 = 18
    assert_eq!(c.es, vec![0, 2]);
    assert_eq!(c.value, 9);
}

#[test]
fn composite_odometer_resets_when_nothing_fits() {
    let ps = first_primes(20);
    let mut c = Composite::new(&ps, 1, 2);
    c.inc_vec_with_bound(&ps, 9);
    assert_eq!(c.es, vec![0, 0]);
    assert_eq!(c.value, 1);
}

#[test]
fn composite_multiplicity_is_product_of_exponents_plus_one() {
    let ps = first_primes(20);
    let mut c = Composite::new(&ps, 1, 2);
    assert!(c.try_inc_ind(&ps, 100, 0));
    assert!(c.try_inc_ind(&ps, 100, 0));
    assert!(c.try_inc_ind(&ps, 100, 0));
    assert_eq!(c.value, 72);
    assert_eq!(c.multiplicity(&ps), 12);
}

#[test]
fn composite_equality_by_value() {
    let ps = first_primes(20);
    let a = Composite::new(&ps, 0, 3);
    let b = Composite::new(&ps, 0, 3);
    let c = Composite::new(&ps, 1, 2);
    assert!(a == b);
    assert!(a != c);
}

#[test]
fn scenario_bound_100_primes_2_and_3() {
    let mut s = Smooths::new(100, first_primes(100));
    assert_eq!(s.len(), 0);
    s.add_prime();
    assert_eq!(s.ind(), 1);
    assert_eq!(records(&s), vec![(2, 2), (4, 3), (8, 4), (16, 5), (32, 6), (64, 7)]);
    s.add_prime();
    assert_eq!(s.ind(), 2);
    assert_eq!(
        values(&s),
        vec![2, 3, 4, 6, 8, 9, 12, 16, 18, 24, 27, 32, 36, 48, 54, 64, 72, 81, 96]
    );
    assert!(records(&s).contains(&(72, 12)));
    assert!(!values(&s).contains(&100));
}

#[test]
fn values_are_exactly_the_smooth_numbers() {
    let ps = first_primes(100);
    for k in 0..5 {
        let s = index(1000, k);
        let expected: Vec<u64> = (2..=1000).filter(|&n| smooth_over(n, &ps[..k])).collect();
        assert_eq!(values(&s), expected);
    }
}

#[test]
fn multiplicity_is_divisor_count() {
    let s = index(2000, 4);
    for (v, m) in records(&s) {
        assert_eq!(m, divisors(v));
    }
}

#[test]
fn values_strictly_increase_after_each_prime() {
    let mut s = Smooths::new(5000, first_primes(100));
    for _ in 0..6 {
        s.add_prime();
        let v = values(&s);
        for w in v.windows(2) {
            assert!(w[0] < w[1]);
        }
    }
}

#[test]
fn admitting_a_prime_keeps_every_record() {
    let mut s = index(500, 2);
    let before = records(&s);
    s.add_prime();
    let after = records(&s);
    assert!(after.len() > before.len());
    for r in &before {
        assert!(after.contains(r));
    }
}

#[test]
fn prime_beyond_bound_leaves_records_identical() {
    let mut s = Smooths::new(10, first_primes(100));
    for _ in 0..4 {
        s.add_prime();
    }
    let before = records(&s);
    assert_eq!(values(&s), vec![2, 3, 4, 5, 6, 7, 8, 9, 10]);
    s.add_prime();
    assert_eq!(s.ind(), 5);
    assert_eq!(records(&s), before);
}

#[test]
fn find_ind_gt_and_le() {
    let s = index(100, 1);
    // values 2, 4, 8, 16, 32, 64
    assert_eq!(s.find_ind_gt(1), Some(0));
    assert_eq!(s.find_ind_gt(2), Some(1));
    assert_eq!(s.find_ind_gt(5), Some(2));
    assert_eq!(s.find_ind_gt(64), None);
    assert_eq!(s.find_ind_gt(u64::MAX), None);
    assert_eq!(s.find_ind_le(1), None);
    assert_eq!(s.find_ind_le(2), Some(0));
    assert_eq!(s.find_ind_le(5), Some(1));
    assert_eq!(s.find_ind_le(64), Some(5));
    assert_eq!(s.find_ind_le(u64::MAX), Some(5));
}

#[test]
fn queries_on_empty_index() {
    let s = Smooths::new(100, first_primes(10));
    assert_eq!(s.find_ind_gt(0), None);
    assert_eq!(s.find_ind_le(u64::MAX), None);
}

#[test]
fn queries_match_linear_scan() {
    let s = index(300, 3);
    let v = values(&s);
    for b in 0..320u64 {
        let gt = v.iter().position(|&x| x > b);
        let le = v.iter().rposition(|&x| x <= b);
        assert_eq!(s.find_ind_gt(b), gt);
        assert_eq!(s.find_ind_le(b), le);
    }
}

#[test]
fn large_bound_near_u64_max() {
    let mut s = Smooths::new(u64::MAX, first_primes(10));
    s.add_prime();
    assert_eq!(s.len(), 63);
    assert_eq!(s.get(62), (1u64 << 63, 64));
}

#[test]
fn composite_ordered_by_value() {
    let ps = first_primes(20);
    let two = Composite::new(&ps, 0, 1);
    let three = Composite::new(&ps, 1, 1);
    let four = Composite::new(&ps, 0, 2);
    assert!(two < three);
    assert!(four > three);
    assert_eq!(two.partial_cmp(&two.clone()), Some(std::cmp::Ordering::Equal));
}
