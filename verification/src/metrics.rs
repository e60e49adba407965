//! The Gini coefficient of the statuses of all households.

use crate::household::Household;
use crate::settlement::Settlement;
use crate::sums::{lemma_sum_all, lemma_sum_constant, lemma_sum_step, lemma_sum_update, sum};
use crate::units::SCALE;
use crate::world::{population_of, populations, World};
use vstd::arithmetic::div_mod::lemma_div_multiples_vanish_quotient;
use vstd::prelude::*;

verus! {

/// The most values of which the coefficient is computed in exact arithmetic.
pub const GINI_LIMIT: usize = 0x20_0000;

/// The distance between two numbers.
pub open spec fn gap(a: nat, b: nat) -> nat {
    if a >= b {
        (a - b) as nat
    } else {
        (b - a) as nat
    }
}

/// The distances from `x` to each of the values.
pub open spec fn gaps_to(xs: Seq<nat>, x: nat) -> Seq<nat> {
    xs.map_values(|y: nat| gap(x, y))
}

/// For each value the sum of its distances to all values.
pub open spec fn spread_rows(xs: Seq<nat>) -> Seq<nat> {
    xs.map_values(|x: nat| sum(gaps_to(xs, x)))
}

/// The sum of the distances over all ordered pairs of values.
pub open spec fn spread(xs: Seq<nat>) -> nat {
    sum(spread_rows(xs))
}

/// The Gini coefficient as a fixed-point number: half the mean distance
/// between two values, divided by the mean value; that is the spread over
/// twice the count times the sum. Where the sum is 0 it is 0.
pub open spec fn gini_of(xs: Seq<nat>) -> nat {
    if sum(xs) == 0 {
        0
    } else {
        ((SCALE * spread(xs)) / (2 * xs.len() * sum(xs)) as int) as nat
    }
}

/// The values as natural numbers.
pub open spec fn wide(xs: Seq<u64>) -> Seq<nat> {
    xs.map_values(|x: u64| x as nat)
}

/// The sum of the distances from one value to all is at most the count
/// times the value, plus the sum.
proof fn lemma_row_bound(xs: Seq<nat>, x: nat)
    ensures
        sum(gaps_to(xs, x)) <= xs.len() * x + sum(xs),
    decreases xs.len(),
{
    if xs.len() > 0 {
        lemma_row_bound(xs.drop_last(), x);
        assert(gaps_to(xs, x).drop_last() =~= gaps_to(xs.drop_last(), x));
        assert((xs.len() - 1) * x + x == xs.len() * x) by (nonlinear_arith);
    } else {
        assert(0 * x == 0);
    }
}

/// The sum over the first `k` values of the count times the value plus the
/// total is the count times their sum plus `k` times the total.
proof fn lemma_rows_bound(xs: Seq<nat>, k: int)
    requires
        0 <= k <= xs.len(),
    ensures
        sum(spread_rows(xs).take(k)) <= xs.len() * sum(xs.take(k)) + k * sum(xs),
    decreases k,
{
    if k > 0 {
        lemma_rows_bound(xs, k - 1);
        lemma_sum_step(spread_rows(xs), k - 1);
        lemma_sum_step(xs, k - 1);
        lemma_row_bound(xs, xs[k - 1]);
        let n = xs.len() as int;
        let a = sum(xs.take(k - 1)) as int;
        let b = xs[k - 1] as int;
        let t = sum(xs) as int;
        assert(n * (a + b) + k * t == n * a + (k - 1) * t + n * b + t) by (nonlinear_arith);
    } else {
        lemma_sum_all(xs);
        lemma_sum_all(spread_rows(xs));
        assert(xs.len() * 0 + 0 * sum(xs) == 0) by (nonlinear_arith);
    }
}

/// The spread is at most twice the count times the sum: the coefficient is
/// at most 1.
pub proof fn lemma_spread_bound(xs: Seq<nat>)
    ensures
        spread(xs) <= 2 * xs.len() * sum(xs),
{
    lemma_rows_bound(xs, xs.len() as int);
    lemma_sum_all(xs);
    lemma_sum_all(spread_rows(xs));
    let n = xs.len() as int;
    let t = sum(xs) as int;
    assert(n * t + n * t == 2 * n * t) by (nonlinear_arith);
}

/// Where all values are equal the coefficient is 0.
pub proof fn lemma_gini_of_equals(xs: Seq<nat>, value: nat)
    requires
        forall|i: int| 0 <= i < xs.len() ==> xs[i] == value,
    ensures
        gini_of(xs) == 0,
{
    assert forall|i: int| 0 <= i < xs.len() implies spread_rows(xs)[i] == 0 by {
        lemma_sum_constant(gaps_to(xs, xs[i]), 0);
    }
    lemma_sum_constant(spread_rows(xs), 0);
    assert(spread(xs) == 0);
    assert(SCALE * spread(xs) == 0);
    if sum(xs) != 0 {
        let d = (2 * xs.len() * sum(xs)) as int;
        assert(d > 0) by (nonlinear_arith)
            requires
                d == 2 * xs.len() * sum(xs),
                xs.len() > 0,
                sum(xs) > 0,
        ;
        assert(0int / d == 0) by (nonlinear_arith)
            requires
                d > 0,
        ;
    }
}

/// Where one of `n` values holds everything and the others are 0, the
/// coefficient is `(n - 1) / n`, rounded down.
pub proof fn lemma_gini_of_one_holder(xs: Seq<nat>, holder: int, all: nat)
    requires
        0 <= holder < xs.len(),
        all > 0,
        xs[holder] == all,
        forall|i: int| 0 <= i < xs.len() && i != holder ==> xs[i] == 0,
    ensures
        gini_of(xs) == (SCALE * (xs.len() - 1)) / (xs.len() as int),
{
    let n = xs.len() as int;
    let zeros = Seq::new(xs.len(), |i: int| 0nat);
    lemma_sum_constant(zeros, 0);
    assert(xs =~= zeros.update(holder, all));
    lemma_sum_update(zeros, holder, all);
    assert(sum(xs) == all);
    // the row of the holder: the distance `all` to each of the others
    let alls = Seq::new(xs.len(), |i: int| all);
    lemma_sum_constant(alls, all);
    assert(gaps_to(xs, all) =~= alls.update(holder, 0));
    lemma_sum_update(alls, holder, 0);
    assert(sum(gaps_to(xs, all)) == n * all - all);
    // the row of each other: the distance `all` to the holder
    assert(gaps_to(xs, 0) =~= xs);
    assert(spread_rows(xs) =~= alls.update(holder, (n * all - all) as nat)) by {
        assert forall|i: int| 0 <= i < n implies spread_rows(xs)[i] == alls.update(
            holder,
            (n * all - all) as nat,
        )[i] by {
            if i != holder {
                assert(xs[i] == 0);
            }
        }
    }
    lemma_sum_update(alls, holder, (n * all - all) as nat);
    assert(spread(xs) == 2 * all * (n - 1)) by (nonlinear_arith)
        requires
            spread(xs) + all == n * all + (n * all - all),
    ;
    assert(SCALE * spread(xs) == (2 * all) * (SCALE * (n - 1))) by (nonlinear_arith)
        requires
            spread(xs) == 2 * all * (n - 1),
    ;
    assert(2 * xs.len() * sum(xs) == (2 * all) * n) by (nonlinear_arith)
        requires
            sum(xs) == all,
            n == xs.len(),
    ;
    assert(SCALE * (n - 1) >= 0) by (nonlinear_arith)
        requires
            n >= 1,
    ;
    lemma_div_multiples_vanish_quotient((2 * all) as int, SCALE * (n - 1), n);
}

/// The Gini coefficient of the values, a fixed-point number in `[0, 1]`.
pub fn gini(values: &Vec<u64>) -> (g: u64)
    requires
        values.len() <= GINI_LIMIT,
    ensures
        g == gini_of(wide(values@)),
        g <= SCALE,
{
    let ghost xs = wide(values@);
    let count: usize = values.len();
    let mut total: u128 = 0;
    let mut i: usize = 0;
    proof {
        lemma_sum_all(xs);
    }
    while i < count
        invariant
            i <= count,
            count == values.len(),
            count <= GINI_LIMIT,
            xs == wide(values@),
            total == sum(xs.take(i as int)),
            total <= i * u64::MAX,
        decreases count - i,
    {
        proof {
            lemma_sum_step(xs, i as int);
            assert((i + 1) * u64::MAX == i * u64::MAX + u64::MAX) by (nonlinear_arith);
            assert((i + 1) * u64::MAX <= 0x20_0000 * u64::MAX) by (nonlinear_arith)
                requires
                    i + 1 <= 0x20_0000,
            ;
        }
        total = total + values[i] as u128;
        i = i + 1;
    }
    if total == 0 {
        return 0;
    }
    let ghost rows = spread_rows(xs);
    let mut all: u128 = 0;
    i = 0;
    proof {
        lemma_sum_all(rows);
    }
    while i < count
        invariant
            i <= count,
            count == values.len(),
            count <= GINI_LIMIT,
            xs == wide(values@),
            rows == spread_rows(xs),
            all == sum(rows.take(i as int)),
            all <= i * (0x20_0000 * u64::MAX),
        decreases count - i,
    {
        let ghost row = gaps_to(xs, xs[i as int]);
        let mut part: u128 = 0;
        let mut j: usize = 0;
        proof {
            lemma_sum_all(row);
        }
        while j < count
            invariant
                j <= count,
                i < count,
                count == values.len(),
                count <= GINI_LIMIT,
                xs == wide(values@),
                row == gaps_to(xs, xs[i as int]),
                part == sum(row.take(j as int)),
                part <= j * u64::MAX,
            decreases count - j,
        {
            proof {
                lemma_sum_step(row, j as int);
                assert((j + 1) * u64::MAX == j * u64::MAX + u64::MAX) by (nonlinear_arith);
                assert((j + 1) * u64::MAX <= 0x20_0000 * u64::MAX) by (nonlinear_arith)
                    requires
                        j + 1 <= 0x20_0000,
                ;
            }
            let between: u64 = if values[i] >= values[j] {
                values[i] - values[j]
            } else {
                values[j] - values[i]
            };
            part = part + between as u128;
            j = j + 1;
        }
        proof {
            lemma_sum_step(rows, i as int);
            assert(part <= 0x20_0000 * u64::MAX) by (nonlinear_arith)
                requires
                    part <= j * u64::MAX,
                    j <= 0x20_0000,
            ;
            assert((i + 1) * (0x20_0000 * u64::MAX) == i * (0x20_0000 * u64::MAX) + 0x20_0000
                * u64::MAX) by (nonlinear_arith);
            assert((i + 1) * (0x20_0000 * u64::MAX) <= 0x20_0000 * (0x20_0000 * u64::MAX))
                by (nonlinear_arith)
                requires
                    i + 1 <= 0x20_0000,
            ;
        }
        all = all + part;
        i = i + 1;
    }
    proof {
        lemma_spread_bound(xs);
        assert(all <= 0x20_0000 * (0x20_0000 * u64::MAX)) by (nonlinear_arith)
            requires
                all <= i * (0x20_0000 * u64::MAX),
                i <= 0x20_0000,
        ;
        assert(total <= 0x20_0000 * u64::MAX) by (nonlinear_arith)
            requires
                total <= i * u64::MAX,
                i <= 0x20_0000,
        ;
        assert(2 * count * total <= 2 * 0x20_0000 * (0x20_0000 * u64::MAX)) by (nonlinear_arith)
            requires
                count <= 0x20_0000,
                total <= 0x20_0000 * u64::MAX,
        ;
        assert(2 * count * total > 0) by (nonlinear_arith)
            requires
                count > 0,
                total > 0,
        ;
    }
    let above: u128 = (SCALE as u128) * all;
    let below: u128 = 2 * (count as u128) * total;
    let g: u128 = above / below;
    assert(g <= SCALE) by (nonlinear_arith)
        requires
            g == above as int / below as int,
            above == SCALE * all,
            all <= below,
            below > 0,
    ;
    g as u64
}

/// The statuses of all households, settlement by settlement.
pub open spec fn all_statuses(ss: Seq<Settlement>) -> Seq<nat>
    decreases ss.len(),
{
    if ss.len() == 0 {
        Seq::empty()
    } else {
        all_statuses(ss.drop_last()) + ss.last().households@.map_values(
            |h: Household| h.status_spec(),
        )
    }
}

/// There are as many statuses as households.
pub proof fn lemma_statuses_count(ss: Seq<Settlement>)
    ensures
        all_statuses(ss).len() == population_of(ss),
    decreases ss.len(),
{
    if ss.len() > 0 {
        lemma_statuses_count(ss.drop_last());
        assert(populations(ss).drop_last() =~= populations(ss.drop_last()));
    }
}

impl World {
    /// The Gini coefficient of the statuses of all households, a
    /// fixed-point number in `[0, 1]`; 0 where all statuses are 0.
    pub fn gini_coefficient(&self) -> (g: u64)
        requires
            self.wf(),
            self.population_spec() <= GINI_LIMIT,
        ensures
            g == gini_of(all_statuses(self.settlements@)),
            g <= SCALE,
    {
        let mut statuses: Vec<u64> = Vec::new();
        let mut n: usize = 0;
        assert(self.settlements@.take(0) =~= Seq::<Settlement>::empty());
        assert(wide(statuses@) =~= all_statuses(self.settlements@.take(0)));
        while n < self.settlements.len()
            invariant
                self.wf(),
                n <= self.settlements.len(),
                wide(statuses@) == all_statuses(self.settlements@.take(n as int)),
            decreases self.settlements.len() - n,
        {
            assert(self.settlements[n as int].wf()) by {
                assert forall|i: int| 0 <= i < self.settlements[n as int].households.len() implies (
                #[trigger] self.settlements[n as int].households[i]).wf() by {
                    assert(self.settlements[n as int].households[i].within(
                        crate::world::status_limit(self.iteration as int),
                        crate::world::gene_limit(self.iteration as int),
                    ));
                    assert(crate::world::status_limit(self.iteration as int) <= u64::MAX)
                        by (nonlinear_arith)
                        requires
                            crate::world::status_limit(self.iteration as int)
                                == crate::units::GROWTH * self.iteration,
                            self.iteration <= 0xffff_ffff,
                            crate::units::GROWTH == 2_000_000,
                    ;
                }
            }
            let mut part: Vec<u64> = self.settlements[n].statuses();
            statuses.append(&mut part);
            proof {
                let upto = self.settlements@.take(n + 1);
                assert(upto.drop_last() =~= self.settlements@.take(n as int));
                assert(upto.last() == self.settlements[n as int]);
                assert(wide(statuses@) =~= all_statuses(upto));
            }
            n = n + 1;
        }
        proof {
            assert(self.settlements@.take(n as int) =~= self.settlements@);
            lemma_statuses_count(self.settlements@);
            assert(wide(statuses@).len() == statuses@.len());
        }
        gini(&statuses)
    }
}

} // verus!
