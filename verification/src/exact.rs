use crate::error::EmdError;
use crate::mass::MassSpec;
use crate::transport::{
    cancel, difference, emd_spec, ledger, lemma_scan_keeps_len, opposed, probe_left, probe_right,
    scan, settles, sweep, transport_cost, Ledger,
};
use vstd::prelude::*;

verus! {

/// Exact arithmetic: masses are mathematical integers, and no operation
/// rounds or overflows. The transport scan over `int` is the reference of
/// which the laws below are stated.
impl MassSpec for int {
    open spec fn zero_spec() -> int {
        0
    }

    open spec fn from_index_spec(j: usize) -> int {
        j as int
    }

    open spec fn plus_spec(self, rhs: int) -> int {
        self + rhs
    }

    open spec fn minus_spec(self, rhs: int) -> int {
        self - rhs
    }

    open spec fn times_spec(self, rhs: int) -> int {
        self * rhs
    }

    open spec fn magnitude_spec(self) -> int {
        abs(self)
    }

    open spec fn is_zero_spec(self) -> bool {
        self == 0
    }

    open spec fn is_negative_spec(self) -> bool {
        self < 0
    }

    open spec fn at_most_spec(self, rhs: int) -> bool {
        self <= rhs
    }
}

/// The absolute value of an integer.
pub open spec fn abs(v: int) -> int {
    if v < 0 {
        -v
    } else {
        v
    }
}

/// Every entry of `s` multiplied by `f`.
pub open spec fn scaled(s: Seq<int>, f: int) -> Seq<int> {
    Seq::new(s.len(), |t: int| f * s[t])
}

/// The ledger `l` with every entry multiplied by `f` and the cost by `|f|`.
pub open spec fn scaled_ledger(l: Ledger<int>, f: int) -> Ledger<int> {
    ledger(scaled(l.delta, f), abs(f) * l.cost)
}

/// Two integers have a negative product exactly when one is negative and the
/// other positive.
pub proof fn lemma_opposed_signs(x: int, y: int)
    ensures
        opposed(x, y) <==> (x < 0 && y > 0) || (x > 0 && y < 0),
{
    assert(x * y < 0 <==> (x < 0 && y > 0) || (x > 0 && y < 0)) by (nonlinear_arith);
}

proof fn lemma_scaled_entry(x: int, y: int, f: int)
    requires
        f != 0,
    ensures
        opposed(f * x, f * y) == opposed(x, y),
        settles(f * x, f * y) == settles(x, y),
        abs(f * x) == abs(f) * abs(x),
        abs(f * y) == abs(f) * abs(y),
        f * x + f * y == f * (x + y),
        f * x == 0 <==> x == 0,
{
    lemma_opposed_signs(x, y);
    lemma_opposed_signs(f * x, f * y);
    assert(f * x == 0 <==> x == 0) by (nonlinear_arith)
        requires
            f != 0,
    ;
    assert(f * x < 0 <==> (f < 0 && x > 0) || (f > 0 && x < 0)) by (nonlinear_arith)
        requires
            f != 0,
    ;
    assert(f * y == 0 <==> y == 0) by (nonlinear_arith)
        requires
            f != 0,
    ;
    assert(f * y < 0 <==> (f < 0 && y > 0) || (f > 0 && y < 0)) by (nonlinear_arith)
        requires
            f != 0,
    ;
    assert(abs(f * x) == abs(f) * abs(x)) by (nonlinear_arith);
    assert(abs(f * y) == abs(f) * abs(y)) by (nonlinear_arith);
    assert(abs(f) * abs(x) <= abs(f) * abs(y) <==> abs(x) <= abs(y)) by (nonlinear_arith)
        requires
            f != 0,
    ;
    assert(f * x + f * y == f * (x + y)) by (nonlinear_arith);
}

proof fn lemma_scaled_work(c: int, m: int, w: int, f: int)
    ensures
        abs(f) * c + (abs(f) * m) * w == abs(f) * (c + m * w),
{
    assert(abs(f) * c + (abs(f) * m) * w == abs(f) * (c + m * w)) by (nonlinear_arith);
}

proof fn lemma_cancel_scales(l: Ledger<int>, i: int, k: int, j: usize, f: int)
    requires
        f != 0,
        0 <= i < l.delta.len(),
        0 <= k < l.delta.len(),
        i != k,
    ensures
        cancel(scaled_ledger(l, f), i, k, j) == scaled_ledger(cancel(l, i, k, j), f),
        settles(scaled_ledger(l, f).delta[i], scaled_ledger(l, f).delta[k]) == settles(
            l.delta[i],
            l.delta[k],
        ),
        opposed(scaled_ledger(l, f).delta[i], scaled_ledger(l, f).delta[k]) == opposed(
            l.delta[i],
            l.delta[k],
        ),
{
    let x = l.delta[i];
    let y = l.delta[k];
    let w = j as int;
    lemma_scaled_entry(x, y, f);
    lemma_scaled_work(l.cost, abs(x), w, f);
    lemma_scaled_work(l.cost, abs(y), w, f);
    assert(f * 0 == 0);
    let lhs = cancel(scaled_ledger(l, f), i, k, j);
    let rhs = scaled_ledger(cancel(l, i, k, j), f);
    assert(lhs.delta =~= rhs.delta);
}

proof fn lemma_scan_scales(l: Ledger<int>, i: int, j: int, f: int)
    requires
        f != 0,
    ensures
        scan(scaled_ledger(l, f), i, j) == scaled_ledger(scan(l, i, j), f),
    decreases l.delta.len() - i - j,
{
    let s = scaled_ledger(l, f);
    if 0 <= i && 1 <= j < l.delta.len() - i {
        if j <= i {
            lemma_cancel_scales(l, i, i - j, j as usize, f);
        }
        let (l1, done1) = probe_left(l, i, j);
        let (s1, sdone1) = probe_left(s, i, j);
        assert(s1 == scaled_ledger(l1, f));
        assert(sdone1 == done1);
        if !done1 {
            lemma_cancel_scales(l1, i, i + j, j as usize, f);
            let (l2, done2) = probe_right(l1, i, j);
            let (s2, sdone2) = probe_right(s1, i, j);
            assert(s2 == scaled_ledger(l2, f));
            assert(sdone2 == done2);
            if !done2 {
                lemma_scan_scales(l2, i, j + 1, f);
            }
        }
    }
}

proof fn lemma_sweep_scales(l: Ledger<int>, i: int, f: int)
    requires
        f != 0,
    ensures
        sweep(scaled_ledger(l, f), i) == scaled_ledger(sweep(l, i), f),
    decreases l.delta.len() - i,
{
    if 0 <= i < l.delta.len() {
        lemma_scaled_entry(l.delta[i], 0, f);
        if l.delta[i] == 0 {
            lemma_sweep_scales(l, i + 1, f);
        } else {
            lemma_scan_scales(l, i, 1, f);
            lemma_scan_keeps_len(l, i, 1);
            lemma_sweep_scales(scan(l, i, 1), i + 1, f);
        }
    }
}

/// Multiplying every difference by `f != 0` multiplies the transport cost by
/// `|f|`.
pub proof fn lemma_transport_cost_scales(delta: Seq<int>, f: int)
    requires
        f != 0,
    ensures
        transport_cost(scaled(delta, f)) == abs(f) * transport_cost(delta),
{
    let l = ledger(delta, 0int);
    assert(abs(f) * 0 == 0);
    assert(scaled_ledger(l, f) == ledger(scaled(delta, f), 0int));
    lemma_sweep_scales(l, 0, f);
}

proof fn lemma_scan_cost_grows(l: Ledger<int>, i: int, j: int)
    ensures
        scan(l, i, j).cost >= l.cost,
    decreases l.delta.len() - i - j,
{
    if 0 <= i && 1 <= j < l.delta.len() - i {
        let w = j as usize as int;
        assert(forall|m: int| #![auto] abs(m) * w >= 0) by (nonlinear_arith)
            requires
                w >= 0,
        ;
        let (l1, done1) = probe_left(l, i, j);
        assert(l1.cost >= l.cost);
        if !done1 {
            let (l2, done2) = probe_right(l1, i, j);
            assert(l2.cost >= l1.cost);
            if !done2 {
                lemma_scan_cost_grows(l2, i, j + 1);
            }
        }
    }
}

/// A scan never lowers the cost.
pub proof fn lemma_sweep_cost_grows(l: Ledger<int>, i: int)
    ensures
        sweep(l, i).cost >= l.cost,
    decreases l.delta.len() - i,
{
    if 0 <= i < l.delta.len() {
        if l.delta[i] == 0 {
            lemma_sweep_cost_grows(l, i + 1);
        } else {
            lemma_scan_cost_grows(l, i, 1);
            lemma_scan_keeps_len(l, i, 1);
            lemma_sweep_cost_grows(scan(l, i, 1), i + 1);
        }
    }
}

proof fn lemma_sweep_of_zeros(l: Ledger<int>, i: int)
    requires
        forall|t: int| 0 <= t < l.delta.len() ==> l.delta[t] == 0,
    ensures
        sweep(l, i) == l,
    decreases l.delta.len() - i,
{
    if 0 <= i < l.delta.len() {
        lemma_sweep_of_zeros(l, i + 1);
    }
}

/// Swapping the two sequences does not change their distance.
pub proof fn lemma_distance_symmetric(a: Seq<int>, b: Seq<int>)
    ensures
        emd_spec(a, b) == emd_spec(b, a),
{
    if a.len() == b.len() {
        assert(difference(b, a) =~= scaled(difference(a, b), -1));
        lemma_transport_cost_scales(difference(a, b), -1);
    }
}

/// A sequence is at distance zero from itself.
pub proof fn lemma_distance_to_self(a: Seq<int>)
    ensures
        emd_spec(a, a) == Ok::<int, EmdError>(0),
{
    lemma_sweep_of_zeros(ledger(difference(a, a), 0int), 0);
}

/// A distance is never negative.
pub proof fn lemma_distance_nonnegative(a: Seq<int>, b: Seq<int>)
    requires
        a.len() == b.len(),
    ensures
        emd_spec(a, b) is Ok,
        emd_spec(a, b)->Ok_0 >= 0,
{
    lemma_sweep_cost_grows(ledger(difference(a, b), 0int), 0);
}

/// Multiplying all masses of both sequences by `s > 0` multiplies their
/// distance by `s`.
pub proof fn lemma_distance_scales(a: Seq<int>, b: Seq<int>, s: int)
    requires
        a.len() == b.len(),
        s > 0,
    ensures
        emd_spec(scaled(a, s), scaled(b, s)) == Ok::<int, EmdError>(s * emd_spec(a, b)->Ok_0),
{
    assert(difference(scaled(a, s), scaled(b, s)) =~= scaled(difference(a, b), s)) by {
        assert forall|t: int| 0 <= t < a.len() implies s * b[t] - s * a[t] == s * (b[t] - a[t]) by {
            assert(s * b[t] - s * a[t] == s * (b[t] - a[t])) by (nonlinear_arith);
        }
    }
    lemma_transport_cost_scales(difference(a, b), s);
}

} // verus!
