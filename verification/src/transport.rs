use crate::error::EmdError;
use crate::mass::MassSpec;
use vstd::prelude::*;

verus! {

/// The state of a transport scan: what is still to be moved in each bin, and
/// the work done so far.
pub struct Ledger<F> {
    /// Signed surplus or deficit per bin.
    pub delta: Seq<F>,
    /// Accumulated mass times distance.
    pub cost: F,
}

/// The ledger with the given entries and cost.
pub open spec fn ledger<F>(delta: Seq<F>, cost: F) -> Ledger<F> {
    Ledger { delta, cost }
}

/// `delta[i] = b[i] - a[i]` for every bin of `a`.
pub open spec fn difference<F: MassSpec>(a: Seq<F>, b: Seq<F>) -> Seq<F> {
    Seq::new(a.len(), |i: int| b[i].minus_spec(a[i]))
}

/// A surplus faces a deficit: the product of the two entries is negative.
pub open spec fn opposed<F: MassSpec>(x: F, y: F) -> bool {
    x.times_spec(y).is_negative_spec()
}

/// The entry `x` is used up when it is cancelled against `y`.
pub open spec fn settles<F: MassSpec>(x: F, y: F) -> bool {
    x.magnitude_spec().at_most_spec(y.magnitude_spec())
}

/// Cancels the entries `i` and `k`, which lie `j` bins apart: the smaller one
/// becomes zero, the other keeps the residual, and the mass moved times `j` is
/// added to the cost.
pub open spec fn cancel<F: MassSpec>(l: Ledger<F>, i: int, k: int, j: usize) -> Ledger<F> {
    let x = l.delta[i];
    let y = l.delta[k];
    let residual = x.plus_spec(y);
    let weight = F::from_index_spec(j);
    if settles(x, y) {
        Ledger {
            delta: l.delta.update(i, F::zero_spec()).update(k, residual),
            cost: l.cost.plus_spec(x.magnitude_spec().times_spec(weight)),
        }
    } else {
        Ledger {
            delta: l.delta.update(i, residual).update(k, F::zero_spec()),
            cost: l.cost.plus_spec(y.magnitude_spec().times_spec(weight)),
        }
    }
}

/// Tries the neighbour `j` bins to the left of `i`. The flag says that entry
/// `i` has been used up.
pub open spec fn probe_left<F: MassSpec>(l: Ledger<F>, i: int, j: int) -> (Ledger<F>, bool) {
    if j <= i && opposed(l.delta[i], l.delta[i - j]) {
        (cancel(l, i, i - j, j as usize), settles(l.delta[i], l.delta[i - j]))
    } else {
        (l, false)
    }
}

/// Tries the neighbour `j` bins to the right of `i`. The flag says that entry
/// `i` has been used up.
pub open spec fn probe_right<F: MassSpec>(l: Ledger<F>, i: int, j: int) -> (Ledger<F>, bool) {
    if i + j < l.delta.len() && opposed(l.delta[i], l.delta[i + j]) {
        (cancel(l, i, i + j, j as usize), settles(l.delta[i], l.delta[i + j]))
    } else {
        (l, false)
    }
}

/// Resolves entry `i` against its neighbours at the distances `j`, `j + 1`,
/// ..., left before right at each distance, until the entry is used up or the
/// distances up to `len - i - 1` are exhausted.
pub open spec fn scan<F: MassSpec>(l: Ledger<F>, i: int, j: int) -> Ledger<F>
    decreases l.delta.len() - i - j,
{
    if 0 <= i && 1 <= j < l.delta.len() - i {
        let (l1, done1) = probe_left(l, i, j);
        if done1 {
            l1
        } else {
            let (l2, done2) = probe_right(l1, i, j);
            if done2 {
                l2
            } else {
                scan(l2, i, j + 1)
            }
        }
    } else {
        l
    }
}

/// Visits the entries `i`, `i + 1`, ... in turn and resolves each one that is
/// not zero.
pub open spec fn sweep<F: MassSpec>(l: Ledger<F>, i: int) -> Ledger<F>
    decreases l.delta.len() - i,
    via sweep_terminates::<F>
{
    if 0 <= i < l.delta.len() {
        if l.delta[i].is_zero_spec() {
            sweep(l, i + 1)
        } else {
            sweep(scan(l, i, 1), i + 1)
        }
    } else {
        l
    }
}

#[via_fn]
proof fn sweep_terminates<F: MassSpec>(l: Ledger<F>, i: int) {
    if 0 <= i < l.delta.len() {
        lemma_scan_keeps_len(l, i, 1);
    }
}

/// The work of a whole scan that starts from the differences `delta` with no
/// cost.
pub open spec fn transport_cost<F: MassSpec>(delta: Seq<F>) -> F {
    sweep(ledger(delta, F::zero_spec()), 0).cost
}

/// The distance between two mass sequences: defined for sequences of one
/// length, as the transport cost of their differences.
pub open spec fn emd_spec<F: MassSpec>(a: Seq<F>, b: Seq<F>) -> Result<F, EmdError> {
    if a.len() == b.len() {
        Ok(transport_cost(difference(a, b)))
    } else {
        Err(EmdError::DimensionMismatch)
    }
}

/// Resolving an entry changes no length.
pub proof fn lemma_scan_keeps_len<F: MassSpec>(l: Ledger<F>, i: int, j: int)
    ensures
        scan(l, i, j).delta.len() == l.delta.len(),
    decreases l.delta.len() - i - j,
{
    if 0 <= i && 1 <= j < l.delta.len() - i {
        let (l1, done1) = probe_left(l, i, j);
        if !done1 {
            let (l2, done2) = probe_right(l1, i, j);
            if !done2 {
                lemma_scan_keeps_len(l2, i, j + 1);
            }
        }
    }
}

} // verus!
