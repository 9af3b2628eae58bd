use crate::error::EmdError;
use crate::exact::{abs, lemma_opposed_signs, lemma_sweep_cost_grows};
use crate::transport::{
    cancel, difference, emd_spec, ledger, opposed, probe_left, probe_right, scan, settles, sweep,
    transport_cost, Ledger,
};
use vstd::prelude::*;

verus! {

/// The sum of the first `t` entries of `d`.
pub open spec fn partial_sum(d: Seq<int>, t: int) -> int
    decreases t,
{
    if t <= 0 {
        0
    } else {
        partial_sum(d, t - 1) + d[t - 1]
    }
}

/// The sum of all entries of `d`.
pub open spec fn total(d: Seq<int>) -> int {
    partial_sum(d, d.len() as int)
}

/// The sum of `|partial_sum(d, u)|` over `u = 1, ..., t`.
pub open spec fn cumulative_cost_upto(d: Seq<int>, t: int) -> int
    decreases t,
{
    if t <= 0 {
        0
    } else {
        cumulative_cost_upto(d, t - 1) + abs(partial_sum(d, t))
    }
}

/// The mass that has to cross each boundary between neighbouring bins, summed
/// over the boundaries.
pub open spec fn cumulative_cost(d: Seq<int>) -> int {
    cumulative_cost_upto(d, d.len() as int)
}

/// `y` is zero or has the sign of `x`.
pub open spec fn leans(x: int, y: int) -> bool {
    &&& x > 0 ==> y >= 0
    &&& x < 0 ==> y <= 0
}

/// `p` has the sign of `x` and at least its magnitude.
pub open spec fn dominates(p: int, x: int) -> bool {
    &&& x > 0 ==> p >= x
    &&& x < 0 ==> p <= x
}

/// Every entry before `i` is zero.
pub open spec fn clear_before(d: Seq<int>, i: int) -> bool {
    forall|t: int| 0 <= t < i && t < d.len() ==> #[trigger] d[t] == 0
}

/// No entry strictly between `i` and `k` opposes entry `i`.
pub open spec fn leaning_between(d: Seq<int>, i: int, k: int) -> bool {
    forall|t: int| i < t < k && t < d.len() ==> leans(d[i], #[trigger] d[t])
}

/// How many of the boundaries `i + 1, ..., k` are at most `t`.
pub open spec fn span(i: int, k: int, t: int) -> int {
    if t <= i {
        0
    } else if t <= k {
        t - i
    } else {
        k - i
    }
}

proof fn lemma_partial_sum_clear(d: Seq<int>, u: int)
    requires
        0 <= u <= d.len(),
        clear_before(d, u),
    ensures
        partial_sum(d, u) == 0,
    decreases u,
{
    if u > 0 {
        lemma_partial_sum_clear(d, u - 1);
        assert(d[u - 1] == 0);
    }
}

proof fn lemma_cumulative_cost_clear(d: Seq<int>, u: int)
    requires
        0 <= u <= d.len(),
        clear_before(d, u),
    ensures
        cumulative_cost_upto(d, u) == 0,
    decreases u,
{
    if u > 0 {
        lemma_cumulative_cost_clear(d, u - 1);
        lemma_partial_sum_clear(d, u);
    }
}

proof fn lemma_partial_sum_dominates(d: Seq<int>, i: int, u: int)
    requires
        0 <= i < u <= d.len(),
        clear_before(d, i),
        leaning_between(d, i, u),
    ensures
        dominates(partial_sum(d, u), d[i]),
    decreases u,
{
    if u == i + 1 {
        lemma_partial_sum_clear(d, i);
    } else {
        lemma_partial_sum_dominates(d, i, u - 1);
        assert(leans(d[i], d[u - 1]));
    }
}

/// Moving `shift` from entry `i` to the later entry `k` lowers the partial
/// sums that include `i` and not `k` by `shift`, and changes no other.
proof fn lemma_partial_sum_transfer(d: Seq<int>, i: int, k: int, shift: int, u: int)
    requires
        0 <= i < k < d.len(),
        0 <= u <= d.len(),
    ensures
        partial_sum(d.update(i, d[i] - shift).update(k, d[k] + shift), u) == partial_sum(d, u) - (
        if i < u <= k {
            shift
        } else {
            0
        }),
    decreases u,
{
    if u > 0 {
        lemma_partial_sum_transfer(d, i, k, shift, u - 1);
    }
}

proof fn lemma_cumulative_cost_transfer(d: Seq<int>, e: Seq<int>, i: int, k: int, m: int, t: int)
    requires
        0 <= i < k < d.len(),
        e.len() == d.len(),
        0 <= t <= d.len(),
        forall|u: int|
            0 <= u <= d.len() ==> abs(#[trigger] partial_sum(e, u)) == abs(partial_sum(d, u)) - (
            if i < u <= k {
                m
            } else {
                0
            }),
    ensures
        cumulative_cost_upto(e, t) == cumulative_cost_upto(d, t) - m * span(i, k, t),
    decreases t,
{
    if t > 0 {
        lemma_cumulative_cost_transfer(d, e, i, k, m, t - 1);
        assert(m * span(i, k, t) == m * span(i, k, t - 1) + (if i < t <= k {
            m
        } else {
            0
        })) by (nonlinear_arith)
            requires
                span(i, k, t) == span(i, k, t - 1) + (if i < t <= k {
                    1int
                } else {
                    0int
                }),
        ;
    } else {
        assert(m * span(i, k, t) == 0) by (nonlinear_arith)
            requires
                span(i, k, t) == 0,
        ;
    }
}

/// A cancellation against a later entry pays exactly what it saves: the cost
/// grows by what the cumulative cost of the differences falls.
proof fn lemma_cancel_pays(l: Ledger<int>, i: int, j: int)
    requires
        0 <= i,
        1 <= j,
        i + j < l.delta.len() <= usize::MAX,
        clear_before(l.delta, i),
        leaning_between(l.delta, i, i + j),
        opposed(l.delta[i], l.delta[i + j]),
    ensures
        ({
            let r = cancel(l, i, i + j, j as usize);
            &&& r.delta.len() == l.delta.len()
            &&& r.cost + cumulative_cost(r.delta) == l.cost + cumulative_cost(l.delta)
            &&& total(r.delta) == total(l.delta)
            &&& clear_before(r.delta, i)
            &&& forall|t: int|
                0 <= t < l.delta.len() && t != i && t != i + j ==> r.delta[t] == l.delta[t]
            &&& settles(l.delta[i], l.delta[i + j]) ==> r.delta[i] == 0
            &&& !settles(l.delta[i], l.delta[i + j]) ==> r.delta[i + j] == 0 && r.delta[i] != 0
                && leans(l.delta[i], r.delta[i]) && leans(r.delta[i], l.delta[i])
        }),
{
    let d = l.delta;
    let n = d.len() as int;
    let k = i + j;
    let x = d[i];
    let y = d[k];
    let r = cancel(l, i, k, j as usize);
    lemma_opposed_signs(x, y);
    let shift = if settles(x, y) {
        x
    } else {
        -y
    };
    let m = abs(shift);
    assert(r.delta =~= d.update(i, x - shift).update(k, y + shift));
    assert forall|u: int| 0 <= u <= n implies abs(#[trigger] partial_sum(r.delta, u)) == abs(
        partial_sum(d, u),
    ) - (if i < u <= k {
        m
    } else {
        0
    }) by {
        lemma_partial_sum_transfer(d, i, k, shift, u);
        if i < u <= k {
            assert(leaning_between(d, i, u));
            lemma_partial_sum_dominates(d, i, u);
        }
    }
    lemma_cumulative_cost_transfer(d, r.delta, i, k, m, n);
    lemma_partial_sum_transfer(d, i, k, shift, n);
    assert(r.cost == l.cost + m * j);
}

/// No surplus faces a deficit: no two entries of `d` have opposite signs.
pub open spec fn settled(d: Seq<int>) -> bool {
    forall|s: int, t: int|
        0 <= s < d.len() && 0 <= t < d.len() ==> leans(#[trigger] d[s], #[trigger] d[t])
}

proof fn lemma_scan_idle(l: Ledger<int>, i: int, j: int)
    requires
        settled(l.delta),
    ensures
        scan(l, i, j) == l,
    decreases l.delta.len() - i - j,
{
    let d = l.delta;
    if 0 <= i && 1 <= j < d.len() - i {
        if j <= i {
            assert(leans(d[i], d[i - j]));
            lemma_opposed_signs(d[i], d[i - j]);
        }
        assert(leans(d[i], d[i + j]));
        lemma_opposed_signs(d[i], d[i + j]);
        lemma_scan_idle(l, i, j + 1);
    }
}

proof fn lemma_sweep_idle(l: Ledger<int>, i: int)
    requires
        settled(l.delta),
    ensures
        sweep(l, i) == l,
    decreases l.delta.len() - i,
{
    if 0 <= i < l.delta.len() {
        lemma_scan_idle(l, i, 1);
        lemma_sweep_idle(l, i + 1);
    }
}

/// With no differences left before entry `i` and nothing nearer than `j` that
/// opposes it, resolving entry `i` pays exactly what it saves, and either
/// uses the entry up or leaves nothing that opposes it.
proof fn lemma_scan_pays(l: Ledger<int>, i: int, j: int)
    requires
        0 <= i,
        1 <= j <= l.delta.len() - i,
        l.delta.len() <= usize::MAX,
        l.delta[i] != 0,
        clear_before(l.delta, i),
        leaning_between(l.delta, i, i + j),
    ensures
        ({
            let r = scan(l, i, j);
            &&& r.delta.len() == l.delta.len()
            &&& r.cost + cumulative_cost(r.delta) == l.cost + cumulative_cost(l.delta)
            &&& total(r.delta) == total(l.delta)
            &&& clear_before(r.delta, i + 1) || (settled(r.delta) && total(r.delta) != 0)
        }),
    decreases l.delta.len() - i - j,
{
    let d = l.delta;
    let n = d.len() as int;
    if j == n - i {
        lemma_partial_sum_dominates(d, i, n);
        assert forall|s: int, t: int| 0 <= s < n && 0 <= t < n implies leans(
            #[trigger] d[s],
            #[trigger] d[t],
        ) by {
            assert(s > i ==> leans(d[i], d[s]));
            assert(t > i ==> leans(d[i], d[t]));
        }
    } else {
        if j <= i {
            assert(d[i - j] == 0);
            lemma_opposed_signs(d[i], d[i - j]);
        }
        let (l1, done1) = probe_left(l, i, j);
        assert(l1 == l && !done1);
        lemma_opposed_signs(d[i], d[i + j]);
        let (l2, done2) = probe_right(l, i, j);
        if opposed(d[i], d[i + j]) {
            lemma_cancel_pays(l, i, j);
        }
        if !done2 {
            assert forall|t: int| i < t < i + j + 1 && t < l2.delta.len() implies leans(
                l2.delta[i],
                #[trigger] l2.delta[t],
            ) by {
                if t < i + j {
                    assert(leans(d[i], d[t]));
                }
            }
            lemma_scan_pays(l2, i, j + 1);
        }
    }
}

/// With no differences left before entry `i`, the rest of the scan pays
/// exactly what it saves and goes on until no surplus faces a deficit.
proof fn lemma_sweep_pays(l: Ledger<int>, i: int)
    requires
        0 <= i <= l.delta.len() <= usize::MAX,
        clear_before(l.delta, i),
    ensures
        ({
            let r = sweep(l, i);
            &&& r.delta.len() == l.delta.len()
            &&& r.cost + cumulative_cost(r.delta) == l.cost + cumulative_cost(l.delta)
            &&& total(r.delta) == total(l.delta)
            &&& settled(r.delta)
            &&& total(l.delta) == 0 ==> clear_before(r.delta, r.delta.len() as int)
        }),
    decreases l.delta.len() - i,
{
    let d = l.delta;
    if i < d.len() {
        if d[i] == 0 {
            lemma_sweep_pays(l, i + 1);
        } else {
            lemma_scan_pays(l, i, 1);
            let l1 = scan(l, i, 1);
            if clear_before(l1.delta, i + 1) {
                lemma_sweep_pays(l1, i + 1);
            } else {
                lemma_sweep_idle(l1, i + 1);
            }
        }
    }
}

/// What a whole scan achieves, whatever the masses: it goes on until no
/// surplus faces a deficit, it keeps the total of the differences, and its
/// cost is what the cumulative cost of the differences has fallen by.
pub proof fn lemma_scan_outcome(delta: Seq<int>)
    requires
        delta.len() <= usize::MAX,
    ensures
        ({
            let r = sweep(ledger(delta, 0int), 0);
            &&& r.delta.len() == delta.len()
            &&& settled(r.delta)
            &&& total(r.delta) == total(delta)
            &&& transport_cost(delta) == cumulative_cost(delta) - cumulative_cost(r.delta)
            &&& 0 <= transport_cost(delta) <= cumulative_cost(delta)
        }),
{
    let r = sweep(ledger(delta, 0int), 0);
    lemma_sweep_pays(ledger(delta, 0int), 0);
    lemma_sweep_cost_grows(ledger(delta, 0int), 0);
    lemma_cumulative_cost_nonnegative(r.delta, r.delta.len() as int);
}

proof fn lemma_partial_sum_difference(a: Seq<int>, b: Seq<int>, u: int)
    requires
        a.len() == b.len(),
        0 <= u <= a.len(),
    ensures
        partial_sum(difference(a, b), u) == partial_sum(b, u) - partial_sum(a, u),
    decreases u,
{
    if u > 0 {
        lemma_partial_sum_difference(a, b, u - 1);
    }
}

/// Between sequences of equal total mass the distance is the cumulative cost
/// of the differences: the mass that has to cross each bin boundary, summed
/// over the boundaries.
pub proof fn lemma_equal_mass_distance(a: Seq<int>, b: Seq<int>)
    requires
        a.len() == b.len(),
        a.len() <= usize::MAX,
        total(a) == total(b),
    ensures
        emd_spec(a, b) == Ok::<int, EmdError>(cumulative_cost(difference(a, b))),
{
    let r = sweep(ledger(difference(a, b), 0int), 0);
    lemma_partial_sum_difference(a, b, a.len() as int);
    lemma_sweep_pays(ledger(difference(a, b), 0int), 0);
    lemma_cumulative_cost_clear(r.delta, r.delta.len() as int);
}

/// Between sequences of equal total mass the scan leaves no difference
/// behind: every entry ends at exactly zero.
pub proof fn lemma_equal_mass_settles(a: Seq<int>, b: Seq<int>)
    requires
        a.len() == b.len(),
        a.len() <= usize::MAX,
        total(a) == total(b),
    ensures
        sweep(ledger(difference(a, b), 0int), 0).delta == Seq::new(a.len(), |t: int| 0int),
{
    let r = sweep(ledger(difference(a, b), 0int), 0);
    lemma_partial_sum_difference(a, b, a.len() as int);
    lemma_sweep_pays(ledger(difference(a, b), 0int), 0);
    assert(r.delta =~= Seq::new(a.len(), |t: int| 0int));
}

proof fn lemma_cumulative_cost_triangle(a: Seq<int>, b: Seq<int>, c: Seq<int>, t: int)
    requires
        a.len() == b.len(),
        b.len() == c.len(),
        0 <= t <= a.len(),
    ensures
        cumulative_cost_upto(difference(a, c), t) <= cumulative_cost_upto(difference(a, b), t)
            + cumulative_cost_upto(difference(b, c), t),
    decreases t,
{
    if t > 0 {
        lemma_cumulative_cost_triangle(a, b, c, t - 1);
        lemma_partial_sum_difference(a, b, t);
        lemma_partial_sum_difference(b, c, t);
        lemma_partial_sum_difference(a, c, t);
    }
}

/// Between sequences of equal total mass the distance obeys the triangle
/// inequality.
pub proof fn lemma_equal_mass_triangle(a: Seq<int>, b: Seq<int>, c: Seq<int>)
    requires
        a.len() == b.len(),
        b.len() == c.len(),
        a.len() <= usize::MAX,
        total(a) == total(b),
        total(b) == total(c),
    ensures
        emd_spec(a, c)->Ok_0 <= emd_spec(a, b)->Ok_0 + emd_spec(b, c)->Ok_0,
{
    lemma_equal_mass_distance(a, b);
    lemma_equal_mass_distance(b, c);
    lemma_equal_mass_distance(a, c);
    lemma_cumulative_cost_triangle(a, b, c, a.len() as int);
}

proof fn lemma_cumulative_cost_nonnegative(d: Seq<int>, t: int)
    ensures
        cumulative_cost_upto(d, t) >= 0,
    decreases t,
{
    if t > 0 {
        lemma_cumulative_cost_nonnegative(d, t - 1);
    }
}

proof fn lemma_cumulative_cost_bounds(d: Seq<int>, u: int, t: int)
    requires
        1 <= u <= t,
    ensures
        abs(partial_sum(d, u)) <= cumulative_cost_upto(d, t),
    decreases t,
{
    if u < t {
        lemma_cumulative_cost_bounds(d, u, t - 1);
    } else {
        lemma_cumulative_cost_nonnegative(d, t - 1);
    }
}

/// Two sequences of equal total mass at distance zero are the same sequence.
pub proof fn lemma_equal_mass_zero_distance(a: Seq<int>, b: Seq<int>)
    requires
        a.len() == b.len(),
        a.len() <= usize::MAX,
        total(a) == total(b),
        emd_spec(a, b) == Ok::<int, EmdError>(0),
    ensures
        a == b,
{
    lemma_equal_mass_distance(a, b);
    let d = difference(a, b);
    let n = a.len() as int;
    assert forall|t: int| 0 <= t < n implies a[t] == b[t] by {
        lemma_cumulative_cost_bounds(d, t + 1, n);
        if t > 0 {
            lemma_cumulative_cost_bounds(d, t, n);
        }
        assert(partial_sum(d, t + 1) == partial_sum(d, t) + d[t]);
    }
    assert(a =~= b);
}

/// One move of a transport plan: `amount` is taken from the difference of bin
/// `from` and added to that of bin `to`.
pub struct Transfer {
    pub from: int,
    pub to: int,
    pub amount: int,
}

/// The differences `d` after the transfer `m`.
pub open spec fn transfer(d: Seq<int>, m: Transfer) -> Seq<int> {
    d.update(m.from, d[m.from] - m.amount).update(m.to, d[m.to] + m.amount)
}

/// The work of a transfer: the mass moved times the distance it is moved.
pub open spec fn work(m: Transfer) -> int {
    abs(m.amount) * abs(m.to - m.from)
}

/// Every transfer of `plan` moves mass between two different bins out of `n`.
pub open spec fn admissible(n: nat, plan: Seq<Transfer>) -> bool {
    forall|t: int|
        0 <= t < plan.len() ==> 0 <= (#[trigger] plan[t]).from < n && 0 <= plan[t].to < n
            && plan[t].from != plan[t].to
}

/// The differences `d` after the transfers of `plan`, first to last.
pub open spec fn carry_out(d: Seq<int>, plan: Seq<Transfer>) -> Seq<int>
    decreases plan.len(),
{
    if plan.len() == 0 {
        d
    } else {
        carry_out(transfer(d, plan.first()), plan.drop_first())
    }
}

/// The work of all transfers of `plan`.
pub open spec fn plan_work(plan: Seq<Transfer>) -> int
    decreases plan.len(),
{
    if plan.len() == 0 {
        0
    } else {
        work(plan.first()) + plan_work(plan.drop_first())
    }
}

proof fn lemma_cumulative_cost_drop(d: Seq<int>, e: Seq<int>, i: int, k: int, m: int, t: int)
    requires
        0 <= i < k < d.len(),
        e.len() == d.len(),
        0 <= t <= d.len(),
        forall|u: int|
            0 <= u <= d.len() ==> abs(#[trigger] partial_sum(e, u)) >= abs(partial_sum(d, u)) - (
            if i < u <= k {
                m
            } else {
                0
            }),
    ensures
        cumulative_cost_upto(e, t) >= cumulative_cost_upto(d, t) - m * span(i, k, t),
    decreases t,
{
    if t > 0 {
        lemma_cumulative_cost_drop(d, e, i, k, m, t - 1);
        assert(m * span(i, k, t) == m * span(i, k, t - 1) + (if i < t <= k {
            m
        } else {
            0
        })) by (nonlinear_arith)
            requires
                span(i, k, t) == span(i, k, t - 1) + (if i < t <= k {
                    1int
                } else {
                    0int
                }),
        ;
    } else {
        assert(m * span(i, k, t) == 0) by (nonlinear_arith)
            requires
                span(i, k, t) == 0,
        ;
    }
}

/// A transfer lowers the cumulative cost by no more than its work.
proof fn lemma_transfer_saves_at_most_its_work(d: Seq<int>, m: Transfer)
    requires
        0 <= m.from < d.len(),
        0 <= m.to < d.len(),
        m.from != m.to,
    ensures
        transfer(d, m).len() == d.len(),
        cumulative_cost(transfer(d, m)) >= cumulative_cost(d) - work(m),
{
    let e = transfer(d, m);
    let n = d.len() as int;
    let i = if m.from < m.to {
        m.from
    } else {
        m.to
    };
    let k = if m.from < m.to {
        m.to
    } else {
        m.from
    };
    let shift = if m.from < m.to {
        m.amount
    } else {
        -m.amount
    };
    assert(e =~= d.update(i, d[i] - shift).update(k, d[k] + shift));
    assert forall|u: int| 0 <= u <= n implies abs(#[trigger] partial_sum(e, u)) >= abs(
        partial_sum(d, u),
    ) - (if i < u <= k {
        abs(shift)
    } else {
        0
    }) by {
        lemma_partial_sum_transfer(d, i, k, shift, u);
    }
    lemma_cumulative_cost_drop(d, e, i, k, abs(shift), n);
}

/// The work of a plan is at least what it lowers the cumulative cost by.
proof fn lemma_plan_saves_at_most_its_work(d: Seq<int>, plan: Seq<Transfer>)
    requires
        admissible(d.len(), plan),
    ensures
        carry_out(d, plan).len() == d.len(),
        plan_work(plan) >= cumulative_cost(d) - cumulative_cost(carry_out(d, plan)),
    decreases plan.len(),
{
    if plan.len() > 0 {
        let m = plan.first();
        let rest = plan.drop_first();
        lemma_transfer_saves_at_most_its_work(d, m);
        assert forall|t: int| 0 <= t < rest.len() implies 0 <= (#[trigger] rest[t]).from < d.len()
            && 0 <= rest[t].to < d.len() && rest[t].from != rest[t].to by {
            assert(rest[t] == plan[t + 1]);
        }
        lemma_plan_saves_at_most_its_work(transfer(d, m), rest);
    }
}

/// Between sequences of equal total mass the scan is optimal: no plan of
/// transfers that settles every difference does less work than the distance.
pub proof fn lemma_equal_mass_distance_is_least(a: Seq<int>, b: Seq<int>, plan: Seq<Transfer>)
    requires
        a.len() == b.len(),
        a.len() <= usize::MAX,
        total(a) == total(b),
        admissible(a.len(), plan),
        clear_before(carry_out(difference(a, b), plan), a.len() as int),
    ensures
        emd_spec(a, b)->Ok_0 <= plan_work(plan),
{
    let d = difference(a, b);
    lemma_equal_mass_distance(a, b);
    lemma_plan_saves_at_most_its_work(d, plan);
    lemma_cumulative_cost_clear(carry_out(d, plan), d.len() as int);
}

} // verus!
