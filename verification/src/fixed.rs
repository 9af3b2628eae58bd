use crate::cumulative::{cumulative_cost, lemma_equal_mass_distance, total};
use crate::error::EmdError;
use crate::exact::{
    abs, lemma_distance_nonnegative, lemma_distance_scales, lemma_distance_symmetric,
    lemma_distance_to_self, lemma_opposed_signs, scaled,
};
use crate::mass::{Mass, MassSpec};
use crate::transport::{
    cancel, difference, emd_spec, ledger, lemma_scan_keeps_len, opposed, probe_left, probe_right,
    scan, settles, sweep, Ledger,
};
use vstd::prelude::*;

verus! {

/// The `i64` nearest to `v`.
pub open spec fn clamp(v: int) -> i64 {
    if v < i64::MIN {
        i64::MIN
    } else if v > i64::MAX {
        i64::MAX
    } else {
        v as i64
    }
}

/// Saturating arithmetic on `i64`: every operation returns the representable
/// value nearest to the exact result.
impl MassSpec for i64 {
    open spec fn zero_spec() -> i64 {
        0
    }

    open spec fn from_index_spec(j: usize) -> i64 {
        clamp(j as int)
    }

    open spec fn plus_spec(self, rhs: i64) -> i64 {
        clamp(self + rhs)
    }

    open spec fn minus_spec(self, rhs: i64) -> i64 {
        clamp(self - rhs)
    }

    open spec fn times_spec(self, rhs: i64) -> i64 {
        clamp(self * rhs)
    }

    open spec fn magnitude_spec(self) -> i64 {
        clamp(abs(self as int))
    }

    open spec fn is_zero_spec(self) -> bool {
        self == 0
    }

    open spec fn is_negative_spec(self) -> bool {
        self < 0
    }

    open spec fn at_most_spec(self, rhs: i64) -> bool {
        self <= rhs
    }
}

fn saturate(v: i128) -> (r: i64)
    ensures
        r == clamp(v as int),
{
    if v < -0x8000_0000_0000_0000i128 {
        i64::MIN
    } else if v > 0x7fff_ffff_ffff_ffffi128 {
        i64::MAX
    } else {
        v as i64
    }
}

impl Mass for i64 {
    fn zero() -> (r: i64) {
        0
    }

    fn from_index(j: usize) -> (r: i64) {
        saturate(j as i128)
    }

    fn plus(self, rhs: i64) -> (r: i64) {
        saturate(self as i128 + rhs as i128)
    }

    fn minus(self, rhs: i64) -> (r: i64) {
        saturate(self as i128 - rhs as i128)
    }

    fn times(self, rhs: i64) -> (r: i64) {
        let x: i128 = self as i128;
        let y: i128 = rhs as i128;
        assert(-0x4000_0000_0000_0000_0000_0000_0000_0000 <= x * y
            <= 0x4000_0000_0000_0000_0000_0000_0000_0000) by (nonlinear_arith)
            requires
                -0x8000_0000_0000_0000 <= x <= 0x8000_0000_0000_0000,
                -0x8000_0000_0000_0000 <= y <= 0x8000_0000_0000_0000,
        ;
        saturate(x * y)
    }

    fn magnitude(self) -> (r: i64) {
        let x: i128 = self as i128;
        if x < 0 {
            saturate(-x)
        } else {
            saturate(x)
        }
    }

    fn is_zero(self) -> (r: bool) {
        self == 0
    }

    fn is_negative(self) -> (r: bool) {
        self < 0
    }

    fn at_most(self, rhs: i64) -> (r: bool) {
        self <= rhs
    }
}

/// The entries of `s` as mathematical integers.
pub open spec fn lift(s: Seq<i64>) -> Seq<int> {
    Seq::new(s.len(), |t: int| s[t] as int)
}

/// No entry of `s` is `i64::MIN`, the one value whose magnitude `i64` cannot
/// hold.
pub open spec fn balanced(s: Seq<i64>) -> bool {
    forall|t: int| 0 <= t < s.len() ==> #[trigger] s[t] > i64::MIN
}

/// Every difference `b[t] - a[t]` and its negation fit in `i64`.
pub open spec fn within_range(a: Seq<i64>, b: Seq<i64>) -> bool {
    forall|t: int|
        0 <= t < a.len() && t < b.len() ==> i64::MIN < #[trigger] b[t] - #[trigger] a[t]
            <= i64::MAX
}

/// The saturating ledger `l` follows the exact ledger `m`: equal entries, none
/// of them `i64::MIN`, and the cost of `l` is the cost of `m`, saturated.
pub open spec fn tracks(l: Ledger<i64>, m: Ledger<int>) -> bool {
    &&& m.delta == lift(l.delta)
    &&& balanced(l.delta)
    &&& m.cost >= 0
    &&& l.cost == clamp(m.cost)
}

proof fn lemma_opposed_tracks(x: i64, y: i64)
    ensures
        opposed(x, y) == opposed(x as int, y as int),
{
}

proof fn lemma_work_tracks(c: int, x: i64, j: usize)
    requires
        c >= 0,
        x != 0,
        x > i64::MIN,
    ensures
        clamp(c).plus_spec(x.magnitude_spec().times_spec(i64::from_index_spec(j))) == clamp(
            c + abs(x as int) * (j as int),
        ),
        c + abs(x as int) * (j as int) >= 0,
{
    let m = abs(x as int);
    let w = j as int;
    let wc = clamp(w) as int;
    assert(x.magnitude_spec() == m);
    assert(m * w >= 0) by (nonlinear_arith)
        requires
            m >= 1,
            w >= 0,
    ;
    assert(m * wc >= 0) by (nonlinear_arith)
        requires
            m >= 1,
            wc >= 0,
    ;
    if w > i64::MAX {
        assert(m * w > i64::MAX) by (nonlinear_arith)
            requires
                m >= 1,
                w > i64::MAX,
        ;
        assert(m * wc >= i64::MAX) by (nonlinear_arith)
            requires
                m >= 1,
                wc == i64::MAX,
        ;
    }
}

proof fn lemma_cancel_tracks(l: Ledger<i64>, m: Ledger<int>, i: int, k: int, j: usize)
    requires
        tracks(l, m),
        0 <= i < l.delta.len(),
        0 <= k < l.delta.len(),
        i != k,
        opposed(m.delta[i], m.delta[k]),
    ensures
        tracks(cancel(l, i, k, j), cancel(m, i, k, j)),
        settles(l.delta[i], l.delta[k]) == settles(m.delta[i], m.delta[k]),
{
    let x = l.delta[i];
    let y = l.delta[k];
    lemma_opposed_signs(x as int, y as int);
    lemma_work_tracks(m.cost, x, j);
    lemma_work_tracks(m.cost, y, j);
    let l2 = cancel(l, i, k, j);
    let m2 = cancel(m, i, k, j);
    assert(x.plus_spec(y) == x + y);
    assert(m2.delta =~= lift(l2.delta));
    assert(balanced(l2.delta));
}

proof fn lemma_scan_tracks(l: Ledger<i64>, m: Ledger<int>, i: int, j: int)
    requires
        tracks(l, m),
    ensures
        tracks(scan(l, i, j), scan(m, i, j)),
    decreases l.delta.len() - i - j,
{
    if 0 <= i && 1 <= j < l.delta.len() - i {
        if j <= i {
            lemma_opposed_tracks(l.delta[i], l.delta[i - j]);
            if opposed(m.delta[i], m.delta[i - j]) {
                lemma_cancel_tracks(l, m, i, i - j, j as usize);
            }
        }
        let (l1, done1) = probe_left(l, i, j);
        let (m1, mdone1) = probe_left(m, i, j);
        assert(tracks(l1, m1));
        assert(done1 == mdone1);
        if !done1 {
            lemma_opposed_tracks(l1.delta[i], l1.delta[i + j]);
            if opposed(m1.delta[i], m1.delta[i + j]) {
                lemma_cancel_tracks(l1, m1, i, i + j, j as usize);
            }
            let (l2, done2) = probe_right(l1, i, j);
            let (m2, mdone2) = probe_right(m1, i, j);
            assert(tracks(l2, m2));
            assert(done2 == mdone2);
            if !done2 {
                lemma_scan_tracks(l2, m2, i, j + 1);
            }
        }
    }
}

proof fn lemma_sweep_tracks(l: Ledger<i64>, m: Ledger<int>, i: int)
    requires
        tracks(l, m),
    ensures
        tracks(sweep(l, i), sweep(m, i)),
    decreases l.delta.len() - i,
{
    if 0 <= i < l.delta.len() {
        if l.delta[i] == 0 {
            lemma_sweep_tracks(l, m, i + 1);
        } else {
            lemma_scan_tracks(l, m, i, 1);
            lemma_scan_keeps_len(l, i, 1);
            lemma_sweep_tracks(scan(l, i, 1), scan(m, i, 1), i + 1);
        }
    }
}

/// Where every difference is within range, the distance over `i64` is the
/// exact distance of the same masses, saturated at `i64::MAX`: a result below
/// `i64::MAX` is the exact distance.
pub proof fn lemma_emd_exact(a: Seq<i64>, b: Seq<i64>)
    requires
        a.len() == b.len(),
        within_range(a, b),
    ensures
        emd_spec(lift(a), lift(b)) is Ok,
        emd_spec(a, b) == Ok::<i64, EmdError>(clamp(emd_spec(lift(a), lift(b))->Ok_0)),
        emd_spec(a, b)->Ok_0 < i64::MAX ==> emd_spec(lift(a), lift(b))->Ok_0 == emd_spec(
            a,
            b,
        )->Ok_0,
{
    lemma_distance_nonnegative(lift(a), lift(b));
    let l = ledger(difference(a, b), 0i64);
    let m = ledger(difference(lift(a), lift(b)), 0int);
    assert forall|t: int| 0 <= t < a.len() implies #[trigger] l.delta[t] == b[t] - a[t] by {
        assert(i64::MIN < b[t] - a[t] <= i64::MAX);
    }
    assert(m.delta =~= lift(l.delta));
    lemma_sweep_tracks(l, m, 0);
}

/// A sequence is at distance zero from itself.
pub proof fn lemma_emd_to_self(a: Seq<i64>)
    ensures
        emd_spec(a, a) == Ok::<i64, EmdError>(0),
{
    lemma_emd_exact(a, a);
    lemma_distance_to_self(lift(a));
}

/// Swapping the two sequences does not change their distance.
pub proof fn lemma_emd_symmetric(a: Seq<i64>, b: Seq<i64>)
    requires
        within_range(a, b),
    ensures
        emd_spec(a, b) == emd_spec(b, a),
{
    if a.len() == b.len() {
        assert forall|t: int| 0 <= t < b.len() && t < a.len() implies i64::MIN < #[trigger] a[t]
            - #[trigger] b[t] <= i64::MAX by {
            assert(i64::MIN < b[t] - a[t] <= i64::MAX);
        }
        lemma_emd_exact(a, b);
        lemma_emd_exact(b, a);
        lemma_distance_symmetric(lift(a), lift(b));
    }
}

/// Multiplying all masses of both sequences by `s > 0` multiplies their
/// distance by `s`, up to saturation.
pub proof fn lemma_emd_scales(a: Seq<i64>, b: Seq<i64>, sa: Seq<i64>, sb: Seq<i64>, s: int)
    requires
        s > 0,
        a.len() == b.len(),
        sa.len() == a.len(),
        sb.len() == b.len(),
        forall|t: int| 0 <= t < a.len() ==> #[trigger] sa[t] == s * a[t],
        forall|t: int| 0 <= t < b.len() ==> #[trigger] sb[t] == s * b[t],
        within_range(a, b),
        within_range(sa, sb),
        emd_spec(a, b)->Ok_0 < i64::MAX,
    ensures
        emd_spec(sa, sb) == Ok::<i64, EmdError>(clamp(s * emd_spec(a, b)->Ok_0)),
{
    lemma_emd_exact(a, b);
    lemma_emd_exact(sa, sb);
    lemma_distance_nonnegative(lift(a), lift(b));
    assert(lift(sa) =~= scaled(lift(a), s));
    assert(lift(sb) =~= scaled(lift(b), s));
    lemma_distance_scales(lift(a), lift(b), s);
}

proof fn lemma_scan_cost_nonnegative(l: Ledger<i64>, i: int, j: int)
    requires
        l.cost >= 0,
    ensures
        scan(l, i, j).cost >= 0,
    decreases l.delta.len() - i - j,
{
    if 0 <= i && 1 <= j < l.delta.len() - i {
        let w = i64::from_index_spec(j as usize);
        assert forall|x: i64| #[trigger] x.magnitude_spec().times_spec(w) >= 0 by {
            let m = x.magnitude_spec();
            assert(m * w >= 0) by (nonlinear_arith)
                requires
                    m >= 0,
                    w >= 0,
            ;
        }
        let (l1, done1) = probe_left(l, i, j);
        assert(l1.cost >= 0);
        if !done1 {
            let (l2, done2) = probe_right(l1, i, j);
            assert(l2.cost >= 0);
            if !done2 {
                lemma_scan_cost_nonnegative(l2, i, j + 1);
            }
        }
    }
}

proof fn lemma_sweep_cost_nonnegative(l: Ledger<i64>, i: int)
    requires
        l.cost >= 0,
    ensures
        sweep(l, i).cost >= 0,
    decreases l.delta.len() - i,
{
    if 0 <= i < l.delta.len() {
        if l.delta[i] == 0 {
            lemma_sweep_cost_nonnegative(l, i + 1);
        } else {
            lemma_scan_cost_nonnegative(l, i, 1);
            lemma_scan_keeps_len(l, i, 1);
            lemma_sweep_cost_nonnegative(scan(l, i, 1), i + 1);
        }
    }
}

/// A distance is never negative, whatever the masses.
pub proof fn lemma_emd_nonnegative(a: Seq<i64>, b: Seq<i64>)
    requires
        a.len() == b.len(),
    ensures
        emd_spec(a, b) is Ok,
        emd_spec(a, b)->Ok_0 >= 0,
{
    lemma_sweep_cost_nonnegative(ledger(difference(a, b), 0i64), 0);
}

/// Between sequences of equal total mass, with every difference within range,
/// the distance over `i64` is the cumulative cost of the differences,
/// saturated at `i64::MAX`.
pub proof fn lemma_emd_equal_mass(a: Seq<i64>, b: Seq<i64>)
    requires
        a.len() == b.len(),
        a.len() <= usize::MAX,
        within_range(a, b),
        total(lift(a)) == total(lift(b)),
    ensures
        emd_spec(a, b) == Ok::<i64, EmdError>(
            clamp(cumulative_cost(difference(lift(a), lift(b)))),
        ),
{
    lemma_emd_exact(a, b);
    lemma_equal_mass_distance(lift(a), lift(b));
}

} // verus!
