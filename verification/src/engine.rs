use crate::error::EmdError;
use crate::mass::Mass;
use crate::transport::{
    cancel, difference, emd_spec, ledger, lemma_scan_keeps_len, scan, settles, sweep,
};
use vstd::prelude::*;

verus! {

/// The per-bin difference `b[i] - a[i]` of two mass sequences.
///
/// Sequences of different lengths are refused; for sequences of one length the
/// result is exactly [`difference`].
pub fn subtract<F: Mass>(a: &[F], b: &[F]) -> (r: Result<Vec<F>, EmdError>)
    ensures
        a@.len() != b@.len() ==> r == Err::<Vec<F>, EmdError>(EmdError::DimensionMismatch),
        a@.len() == b@.len() ==> r is Ok && r->Ok_0@ == difference(a@, b@),
{
    let n = a.len();
    if n != b.len() {
        return Err(EmdError::DimensionMismatch);
    }
    let mut delta: Vec<F> = Vec::with_capacity(n);
    let mut i: usize = 0;
    while i < n
        invariant
            n == a@.len(),
            n == b@.len(),
            i <= n,
            delta@.len() == i,
            forall|t: int| 0 <= t < i ==> delta@[t] == (#[trigger] b@[t]).minus_spec(a@[t]),
        decreases n - i,
    {
        delta.push(b[i].minus(a[i]));
        i += 1;
    }
    assert(delta@ =~= difference(a@, b@));
    Ok(delta)
}

/// Cancels the entries `i` and `k` of `delta`, `j` bins apart, and returns the
/// new cost together with the flag that entry `i` has been used up.
fn cancel_pair<F: Mass>(delta: &mut Vec<F>, cost: F, i: usize, k: usize, j: usize) -> (r: (F, bool))
    requires
        i < old(delta)@.len(),
        k < old(delta)@.len(),
    ensures
        ledger(final(delta)@, r.0) == cancel(ledger(old(delta)@, cost), i as int, k as int, j),
        r.1 == settles(old(delta)@[i as int], old(delta)@[k as int]),
{
    let x = delta[i];
    let y = delta[k];
    let residual = x.plus(y);
    let weight = F::from_index(j);
    if x.magnitude().at_most(y.magnitude()) {
        let cost = cost.plus(x.magnitude().times(weight));
        delta.set(i, F::zero());
        delta.set(k, residual);
        (cost, true)
    } else {
        let cost = cost.plus(y.magnitude().times(weight));
        delta.set(i, residual);
        delta.set(k, F::zero());
        (cost, false)
    }
}

/// Resolves entry `i` against its neighbours, nearest first and left before
/// right, and returns the new cost.
fn resolve<F: Mass>(delta: &mut Vec<F>, cost: F, i: usize) -> (r: F)
    requires
        i < old(delta)@.len(),
    ensures
        ledger(final(delta)@, r) == scan(ledger(old(delta)@, cost), i as int, 1),
{
    let ghost start = ledger(delta@, cost);
    let n = delta.len();
    let mut cost = cost;
    let mut j: usize = 1;
    while j < n - i
        invariant_except_break
            scan(start, i as int, 1) == scan(ledger(delta@, cost), i as int, j as int),
        invariant
            1 <= j,
            i < n,
            n == delta@.len(),
        ensures
            ledger(delta@, cost) == scan(start, i as int, 1),
        decreases n - i - j,
    {
        if i >= j {
            let k = i - j;
            if delta[i].times(delta[k]).is_negative() {
                let (c, done) = cancel_pair(delta, cost, i, k, j);
                cost = c;
                if done {
                    break ;
                }
            }
        }
        let k = i + j;
        if k < n && delta[i].times(delta[k]).is_negative() {
            let (c, done) = cancel_pair(delta, cost, i, k, j);
            cost = c;
            if done {
                break ;
            }
        }
        j += 1;
    }
    cost
}

/// The earth mover's distance between `seq1` and `seq2` under the greedy
/// nearest-match scan.
///
/// Sequences of different lengths are refused with
/// [`EmdError::DimensionMismatch`]; otherwise the result is the cost that
/// [`emd_spec`] defines, computed with the arithmetic of `F`.
pub fn emd<F: Mass>(seq1: &[F], seq2: &[F]) -> (r: Result<F, EmdError>)
    ensures
        r == emd_spec(seq1@, seq2@),
        r is Err <==> seq1@.len() != seq2@.len(),
{
    let mut delta = match subtract(seq1, seq2) {
        Ok(delta) => delta,
        Err(e) => {
            return Err(e);
        },
    };
    let n = delta.len();
    let mut cost = F::zero();
    let ghost start = ledger(delta@, cost);
    let mut i: usize = 0;
    while i < n
        invariant
            i <= n,
            n == delta@.len(),
            sweep(start, 0) == sweep(ledger(delta@, cost), i as int),
        decreases n - i,
    {
        if !delta[i].is_zero() {
            proof {
                lemma_scan_keeps_len(ledger(delta@, cost), i as int, 1);
            }
            cost = resolve(&mut delta, cost, i);
        }
        i += 1;
    }
    Ok(cost)
}

} // verus!
