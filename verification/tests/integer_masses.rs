use emd::{emd, subtract, Emd, EmdError};

fn distance(a: &[i64], b: &[i64]) -> i64 {
    match emd(a, b) {
        Ok(cost) => cost,
        Err(e) => panic!("no distance: {:?}", e),
    }
}

fn times(values: &[i64], s: i64) -> Vec<i64> {
    values.iter().map(|v| v * s).collect()
}

/// Carries out the transfers `(from, to, amount)` on the differences between
/// `a` and `b`, checks that none is left, and returns the work done.
fn work_of_plan(a: &[i64], b: &[i64], plan: &[(usize, usize, i64)]) -> i64 {
    let mut delta: Vec<i64> = a.iter().zip(b.iter()).map(|(x, y)| y - x).collect();
    let mut work: i64 = 0;
    for (from, to, amount) in plan {
        delta[*from] -= amount;
        delta[*to] += amount;
        work += amount.abs() * (*to as i64 - *from as i64).abs();
    }
    assert!(delta.iter().all(|d| *d == 0));
    work
}

/// The mass that crosses each bin boundary, summed over the boundaries.
fn cumulative_cost(a: &[i64], b: &[i64]) -> i64 {
    let mut carried: i64 = 0;
    let mut cost: i64 = 0;
    for (x, y) in a.iter().zip(b.iter()) {
        carried += y - x;
        cost += carried.abs();
    }
    cost
}

#[test]
fn whole_masses_move_as_far_as_expected() {
    assert_eq!(distance(&[2, 1, 0, 0, 3, 0, 4], &[0, 5, 3, 0, 2, 0, 0]), 22);
    assert_eq!(distance(&[2, 1, 0, 0, 3, 0, 0], &[0, 2, 1, 0, 3, 0, 0]), 3);
    assert_eq!(distance(&[2, 1, 0, 0, 3, 0, 0], &[0, 2, 1, 0, 0, 3, 0]), 6);
    assert_eq!(distance(&[2, 1, 0, 0, 3, 0, 0], &[0, 0, 2, 1, 0, 0, 3]), 12);
}

#[test]
fn tenths_give_tenfold_cost() {
    assert_eq!(distance(&[1, 3, 0, 0, 6], &[1, 7, 0, 2, 0]), 14);
    assert_eq!(distance(&[0, 8, 0, 0, 0, 1, 1], &[1, 1, 0, 7, 0, 0, 1]), 15);
}

#[test]
fn one_unit_over_two_bins_costs_two() {
    assert_eq!(distance(&[1, 0, 0], &[0, 0, 1]), 2);
}

#[test]
fn a_large_entry_is_spread_over_increasing_distances() {
    assert_eq!(distance(&[4, 0, 0, 0], &[1, 1, 1, 1]), 6);
}

#[test]
fn a_used_up_entry_stops_its_own_search() {
    assert_eq!(distance(&[0, 4, 0], &[2, 0, 2]), 4);
}

#[test]
fn distance_to_self_is_zero() {
    let a: [i64; 7] = [2, 1, 0, 0, 3, 0, 4];
    assert_eq!(emd(&a, &a), Ok(0));
    let edge: [i64; 3] = [i64::MIN, 0, i64::MAX];
    assert_eq!(emd(&edge, &edge), Ok(0));
}

#[test]
fn distance_is_symmetric() {
    let pairs: [(&[i64], &[i64]); 5] = [
        (&[2, 1, 0, 0, 3, 0, 4], &[0, 5, 3, 0, 2, 0, 0]),
        (&[2, 1, 0, 0, 3, 0, 0], &[0, 0, 2, 1, 0, 0, 3]),
        (&[4, 0, 0, 0], &[1, 1, 1, 1]),
        (&[0, 4, 0], &[2, 0, 2]),
        (&[5, 0, 0], &[0, 0, 3]),
    ];
    for (a, b) in pairs {
        assert_eq!(emd(a, b), emd(b, a));
    }
}

#[test]
fn distance_is_never_negative() {
    assert!(distance(&[-3, 7, 0], &[5, -2, 1]) >= 0);
    assert!(distance(&[i64::MIN, i64::MAX], &[i64::MAX, i64::MIN]) >= 0);
    assert!(distance(&[0, 0], &[0, 0]) >= 0);
}

#[test]
fn distance_scales_with_the_masses() {
    let a: [i64; 7] = [2, 1, 0, 0, 3, 0, 4];
    let b: [i64; 7] = [0, 5, 3, 0, 2, 0, 0];
    assert_eq!(distance(&times(&a, 7), &times(&b, 7)), 154);
    assert_eq!(distance(&times(&a, 7), &times(&b, 7)), 7 * distance(&a, &b));
    let c: [i64; 4] = [4, 0, 0, 0];
    let d: [i64; 4] = [1, 1, 1, 1];
    assert_eq!(distance(&times(&c, 1000), &times(&d, 1000)), 6000);
}

#[test]
fn lengths_must_agree() {
    let a: [i64; 2] = [1, 2];
    let b: [i64; 3] = [1, 1, 1];
    let none: [i64; 0] = [];
    assert_eq!(emd(&a, &b), Err(EmdError::DimensionMismatch));
    assert_eq!(emd(&b, &a), Err(EmdError::DimensionMismatch));
    assert_eq!(emd(&none, &a), Err(EmdError::DimensionMismatch));
    assert_eq!(subtract(&a, &b), Err(EmdError::DimensionMismatch));
    assert_eq!(Emd.distance(&a, &b), Err(EmdError::DimensionMismatch));
}

#[test]
fn empty_and_single_bin_sequences_cost_nothing() {
    let none: [i64; 0] = [];
    assert_eq!(emd(&none, &none), Ok(0));
    assert_eq!(emd(&[3], &[7]), Ok(0));
}

#[test]
fn mass_without_a_counterpart_is_left_alone() {
    assert_eq!(distance(&[5, 0, 0], &[0, 0, 3]), 6);
    assert_eq!(distance(&[0, 0, 0], &[1, 2, 3]), 0);
}

#[test]
fn subtract_is_second_minus_first() {
    assert_eq!(subtract(&[2, 1, 0, 7], &[0, 5, 0, 7]), Ok(vec![-2, 4, 0, 0]));
    let none: [i64; 0] = [];
    assert_eq!(subtract(&none, &none), Ok(vec![]));
}

#[test]
fn subtract_saturates() {
    assert_eq!(
        subtract(&[i64::MIN, 5, i64::MAX], &[i64::MAX, 2, i64::MIN]),
        Ok(vec![i64::MAX, -3, i64::MIN])
    );
}

#[test]
fn cost_saturates_at_the_largest_value() {
    assert_eq!(emd(&[i64::MAX, 0], &[0, i64::MAX]), Ok(i64::MAX));
    assert_eq!(emd(&[i64::MAX, 0, 0], &[0, 0, i64::MAX]), Ok(i64::MAX));
    assert_eq!(emd(&[1 << 62, 0, 0, 0], &[0, 0, 0, 1 << 62]), Ok(i64::MAX));
    assert_eq!(emd(&[1 << 61, 0, 0, 0], &[0, 0, 0, 1 << 61]), Ok(3 << 61));
}

#[test]
fn metric_agrees_with_emd() {
    let a: [i64; 7] = [2, 1, 0, 0, 3, 0, 0];
    let b: [i64; 7] = [0, 2, 1, 0, 0, 3, 0];
    let metric = Emd;
    assert_eq!(metric.distance(&a, &b), Ok(6));
    assert_eq!(metric.distance(&a, &b), emd(&a, &b));
    assert_eq!(metric.distance(&a, &a), Ok(0));
}

#[test]
fn equal_mass_distance_is_the_cumulative_cost() {
    let pairs: [(&[i64], &[i64]); 6] = [
        (&[2, 1, 0, 0, 3, 0, 4], &[0, 5, 3, 0, 2, 0, 0]),
        (&[2, 1, 0, 0, 3, 0, 0], &[0, 0, 2, 1, 0, 0, 3]),
        (&[4, 0, 0, 0], &[1, 1, 1, 1]),
        (&[0, 4, 0], &[2, 0, 2]),
        (&[0, 9, 0, 0, 9], &[6, 0, 6, 6, 0]),
        (&[-3, 7, 0], &[5, -2, 1]),
    ];
    for (a, b) in pairs {
        assert_eq!(a.iter().sum::<i64>(), b.iter().sum::<i64>());
        assert_eq!(distance(a, b), cumulative_cost(a, b));
    }
    assert_eq!(cumulative_cost(&[2, 1, 0, 0, 3, 0, 4], &[0, 5, 3, 0, 2, 0, 0]), 22);
    assert_eq!(distance(&[0, 9, 0, 0, 9], &[6, 0, 6, 6, 0]), 21);
}

#[test]
fn unequal_mass_costs_at_most_the_cumulative_cost() {
    assert_eq!(cumulative_cost(&[5, 0, 0], &[0, 0, 3]), 12);
    assert_eq!(distance(&[5, 0, 0], &[0, 0, 3]), 6);
    assert_eq!(cumulative_cost(&[1, 5, 0], &[0, 0, 1]), 12);
    assert_eq!(distance(&[1, 5, 0], &[0, 0, 1]), 2);
}

#[test]
fn equal_mass_distances_obey_the_triangle_inequality() {
    let a: [i64; 4] = [4, 0, 0, 0];
    let b: [i64; 4] = [1, 1, 1, 1];
    let c: [i64; 4] = [0, 0, 0, 4];
    assert_eq!(distance(&a, &b), 6);
    assert_eq!(distance(&b, &c), 6);
    assert_eq!(distance(&a, &c), 12);
    assert!(distance(&a, &c) <= distance(&a, &b) + distance(&b, &c));
    let d: [i64; 4] = [0, 4, 0, 0];
    assert_eq!(distance(&a, &d), 4);
    assert_eq!(distance(&d, &c), 8);
    assert!(distance(&a, &c) <= distance(&a, &d) + distance(&d, &c));
    assert!(distance(&b, &d) <= distance(&b, &a) + distance(&a, &d));
}

#[test]
fn equal_mass_sequences_at_distance_zero_are_equal() {
    assert_eq!(distance(&[1, 0], &[0, 1]), 1);
    assert_eq!(distance(&[0, 2, 1], &[0, 1, 2]), 1);
    assert_eq!(distance(&[0, 2, 1], &[0, 2, 1]), 0);
}

#[test]
fn no_plan_does_less_work_than_the_distance() {
    let a: [i64; 4] = [4, 0, 0, 0];
    let b: [i64; 4] = [1, 1, 1, 1];
    assert_eq!(distance(&a, &b), 6);
    assert_eq!(work_of_plan(&a, &b, &[(1, 0, 1), (2, 0, 1), (3, 0, 1)]), 6);
    assert_eq!(work_of_plan(&a, &b, &[(3, 0, 3), (1, 3, 1), (2, 3, 1)]), 12);
    assert_eq!(work_of_plan(&a, &b, &[(1, 0, 3), (2, 1, 2), (3, 2, 1)]), 6);
    let c: [i64; 3] = [0, 4, 0];
    let d: [i64; 3] = [2, 0, 2];
    assert_eq!(distance(&c, &d), 4);
    assert_eq!(work_of_plan(&c, &d, &[(0, 1, 2), (2, 1, 2)]), 4);
    assert_eq!(work_of_plan(&c, &d, &[(0, 1, 4), (2, 0, 2)]), 8);
}
