use emd::{emd, subtract, Emd, EmdError, Mass, MassSpec};

/// Double-precision masses. Each operation is the IEEE operation of the same
/// name, so its reading is the operation itself.
#[derive(Clone, Copy, Debug, PartialEq)]
struct Real(f64);

impl MassSpec for Real {
    fn zero_spec() -> Real {
        Real::zero()
    }

    fn from_index_spec(j: usize) -> Real {
        Real::from_index(j)
    }

    fn plus_spec(self, rhs: Real) -> Real {
        self.plus(rhs)
    }

    fn minus_spec(self, rhs: Real) -> Real {
        self.minus(rhs)
    }

    fn times_spec(self, rhs: Real) -> Real {
        self.times(rhs)
    }

    fn magnitude_spec(self) -> Real {
        self.magnitude()
    }

    fn is_zero_spec(self) -> bool {
        self.is_zero()
    }

    fn is_negative_spec(self) -> bool {
        self.is_negative()
    }

    fn at_most_spec(self, rhs: Real) -> bool {
        self.at_most(rhs)
    }
}

impl Mass for Real {
    fn zero() -> Real {
        Real(0.0)
    }

    fn from_index(j: usize) -> Real {
        Real(j as f64)
    }

    fn plus(self, rhs: Real) -> Real {
        Real(self.0 + rhs.0)
    }

    fn minus(self, rhs: Real) -> Real {
        Real(self.0 - rhs.0)
    }

    fn times(self, rhs: Real) -> Real {
        Real(self.0 * rhs.0)
    }

    fn magnitude(self) -> Real {
        Real(self.0.abs())
    }

    fn is_zero(self) -> bool {
        self.0 == 0.0
    }

    fn is_negative(self) -> bool {
        self.0 < 0.0
    }

    fn at_most(self, rhs: Real) -> bool {
        self.0 <= rhs.0
    }
}

fn reals(values: &[f64]) -> Vec<Real> {
    values.iter().map(|v| Real(*v)).collect()
}

fn distance(a: &[f64], b: &[f64]) -> f64 {
    match emd(&reals(a), &reals(b)) {
        Ok(cost) => cost.0,
        Err(e) => panic!("no distance: {:?}", e),
    }
}

#[test]
fn case_0() {
    let seq1 = [0.1, 0.3, 0.0, 0.0, 0.6];
    let seq2 = [0.1, 0.7, 0.0, 0.2, 0.0];
    let result = distance(&seq1, &seq2);
    assert_eq!(result, 1.4);
}

#[test]
fn case_1() {
    let seq1 = [0.0, 0.8, 0.0, 0.0, 0.0, 0.1, 0.1];
    let seq2 = [0.1, 0.1, 0.0, 0.7, 0.0, 0.0, 0.1];
    let result = distance(&seq1, &seq2);
    assert_eq!(result, 1.5);
}

#[test]
fn case_2() {
    let seq1 = [2.0, 1.0, 0.0, 0.0, 3.0, 0.0, 4.0];
    let seq2 = [0.0, 5.0, 3.0, 0.0, 2.0, 0.0, 0.0];
    let result = distance(&seq1, &seq2);
    assert_eq!(result, 22.0);
}

#[test]
fn case_3() {
    let seq1 = [2.0, 1.0, 0.0, 0.0, 3.0, 0.0, 0.0];
    let seq2 = [0.0, 2.0, 1.0, 0.0, 3.0, 0.0, 0.0];
    let result = distance(&seq1, &seq2);
    assert_eq!(result, 3.0);
}

#[test]
fn case_4() {
    let seq1 = [2.0, 1.0, 0.0, 0.0, 3.0, 0.0, 0.0];
    let seq2 = [0.0, 2.0, 1.0, 0.0, 0.0, 3.0, 0.0];
    let result = distance(&seq1, &seq2);
    assert_eq!(result, 6.0);
}

#[test]
fn case_5() {
    let seq1 = [2.0, 1.0, 0.0, 0.0, 3.0, 0.0, 0.0];
    let seq2 = [0.0, 0.0, 2.0, 1.0, 0.0, 0.0, 3.0];
    let result = distance(&seq1, &seq2);
    assert_eq!(result, 12.0);
}

#[test]
fn case_6() {
    let seq1 = [0.2, 0.1, 0.0, 0.0, 0.3, 0.0, 0.0];
    let seq2 = [0.0, 0.2, 0.1, 0.0, 0.0, 0.3, 0.0];
    let result = distance(&seq1, &seq2);
    assert!(result - 0.6 < 10e-10);
}

#[test]
fn float_rounding_is_not_hidden() {
    let seq1 = [0.2, 0.1, 0.0, 0.0, 0.3, 0.0, 0.0];
    let seq2 = [0.0, 0.2, 0.1, 0.0, 0.0, 0.3, 0.0];
    assert_eq!(distance(&seq1, &seq2), 0.6000000000000001);
}

#[test]
fn float_distance_is_symmetric_on_each_pair() {
    let pairs: [(&[f64], &[f64]); 4] = [
        (&[0.1, 0.3, 0.0, 0.0, 0.6], &[0.1, 0.7, 0.0, 0.2, 0.0]),
        (&[0.0, 0.8, 0.0, 0.0, 0.0, 0.1, 0.1], &[0.1, 0.1, 0.0, 0.7, 0.0, 0.0, 0.1]),
        (&[2.0, 1.0, 0.0, 0.0, 3.0, 0.0, 4.0], &[0.0, 5.0, 3.0, 0.0, 2.0, 0.0, 0.0]),
        (&[0.2, 0.1, 0.0, 0.0, 0.3, 0.0, 0.0], &[0.0, 0.2, 0.1, 0.0, 0.0, 0.3, 0.0]),
    ];
    for (a, b) in pairs {
        assert_eq!(distance(a, b), distance(b, a));
    }
}

#[test]
fn float_distance_to_self_is_zero() {
    let a = [0.1, 0.3, 0.0, 0.0, 0.6];
    assert_eq!(distance(&a, &a), 0.0);
}

#[test]
fn float_distance_doubles_with_the_masses() {
    let a = [0.2, 0.6, 0.0, 0.0, 1.2];
    let b = [0.2, 1.4, 0.0, 0.4, 0.0];
    assert_eq!(distance(&a, &b), 2.8);
}

#[test]
fn float_lengths_must_agree() {
    let a = reals(&[0.5, 0.5]);
    let b = reals(&[0.5, 0.25, 0.25]);
    assert_eq!(emd(&a, &b), Err(EmdError::DimensionMismatch));
    assert_eq!(subtract(&a, &b), Err(EmdError::DimensionMismatch));
    assert_eq!(Emd.distance(&a, &b), Err(EmdError::DimensionMismatch));
}

#[test]
fn float_subtract_is_second_minus_first() {
    let a = reals(&[0.5, 0.25, 4.0]);
    let b = reals(&[0.25, 0.25, 1.0]);
    assert_eq!(subtract(&a, &b), Ok(reals(&[-0.25, 0.0, -3.0])));
}

#[test]
fn float_metric_agrees_with_emd() {
    let a = reals(&[0.0, 0.8, 0.0, 0.0, 0.0, 0.1, 0.1]);
    let b = reals(&[0.1, 0.1, 0.0, 0.7, 0.0, 0.0, 0.1]);
    assert_eq!(Emd.distance(&a, &b), Ok(Real(1.5)));
    assert_eq!(Emd.distance(&a, &b), emd(&a, &b));
}
