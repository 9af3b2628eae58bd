use vstd::prelude::*;

verus! {

/// What the arithmetic on masses means.
///
/// Each function is the mathematical reading of one operation that the
/// transport scan performs. Nothing is assumed of them: they need not form a
/// ring, and rounding arithmetic is admitted. A type whose arithmetic has no
/// mathematical model, such as a floating-point number, takes each reading to
/// be the operation itself.
pub trait MassSpec: Sized {
    /// The empty mass.
    spec fn zero_spec() -> Self;

    /// The mass that stands for the bin distance `j`.
    spec fn from_index_spec(j: usize) -> Self;

    /// `self + rhs`.
    spec fn plus_spec(self, rhs: Self) -> Self;

    /// `self - rhs`.
    spec fn minus_spec(self, rhs: Self) -> Self;

    /// `self * rhs`.
    spec fn times_spec(self, rhs: Self) -> Self;

    /// `|self|`.
    spec fn magnitude_spec(self) -> Self;

    /// `self == 0`.
    spec fn is_zero_spec(self) -> bool;

    /// `self < 0`.
    spec fn is_negative_spec(self) -> bool;

    /// `self <= rhs`.
    spec fn at_most_spec(self, rhs: Self) -> bool;
}

/// A numeric type that the transport scan can compute with.
///
/// Every operation is total and returns exactly what its reading in
/// [`MassSpec`] says.
pub trait Mass: MassSpec + Copy {
    /// The empty mass.
    fn zero() -> (r: Self)
        ensures
            r == Self::zero_spec(),
    ;

    /// The bin distance `j` as a mass.
    fn from_index(j: usize) -> (r: Self)
        ensures
            r == Self::from_index_spec(j),
    ;

    /// `self + rhs`.
    fn plus(self, rhs: Self) -> (r: Self)
        ensures
            r == self.plus_spec(rhs),
    ;

    /// `self - rhs`.
    fn minus(self, rhs: Self) -> (r: Self)
        ensures
            r == self.minus_spec(rhs),
    ;

    /// `self * rhs`.
    fn times(self, rhs: Self) -> (r: Self)
        ensures
            r == self.times_spec(rhs),
    ;

    /// `|self|`.
    fn magnitude(self) -> (r: Self)
        ensures
            r == self.magnitude_spec(),
    ;

    /// Whether `self == 0`.
    fn is_zero(self) -> (r: bool)
        ensures
            r == self.is_zero_spec(),
    ;

    /// Whether `self < 0`.
    fn is_negative(self) -> (r: bool)
        ensures
            r == self.is_negative_spec(),
    ;

    /// Whether `self <= rhs`.
    fn at_most(self, rhs: Self) -> (r: bool)
        ensures
            r == self.at_most_spec(rhs),
    ;
}

} // verus!
