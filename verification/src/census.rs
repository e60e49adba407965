//! What is counted and averaged over a settlement and over the world.

use crate::household::Household;
use crate::settlement::Settlement;
use crate::sums::{lemma_sum_all, lemma_sum_step, sum};
use crate::world::World;
use vstd::prelude::*;

verus! {

/// A number that is read off a household.
#[derive(Clone, Copy, PartialEq, Eq, Structural, Debug)]
pub enum Measure {
    Resources,
    Load,
    PeerTransfer,
    SubordinateTransfer,
    /// The mean of the two transfer traits.
    Cooperation,
}

/// The mean of `count` numbers of the sum `total`, rounded down; 0 where
/// there is no number.
pub open spec fn mean(total: nat, count: nat) -> nat {
    if count == 0 {
        0
    } else {
        total / count
    }
}

/// Divides a sum of machine words by their count.
pub fn mean_of(total: u128, count: usize) -> (m: u64)
    requires
        total <= count * u64::MAX,
    ensures
        m == mean(total as nat, count as nat),
{
    if count == 0 {
        0
    } else {
        let q: u128 = total / (count as u128);
        assert(q <= u64::MAX) by (nonlinear_arith)
            requires
                q == total as int / count as int,
                count > 0,
                total <= count * u64::MAX,
        ;
        q as u64
    }
}

impl Household {
    /// The number that `which` reads off the household.
    pub open spec fn measure_spec(self, which: Measure) -> nat {
        match which {
            Measure::Resources => self.resources as nat,
            Measure::Load => self.load as nat,
            Measure::PeerTransfer => self.genes.peer_transfer as nat,
            Measure::SubordinateTransfer => self.genes.subordinate_transfer as nat,
            Measure::Cooperation => self.genes.cooperation_spec(),
        }
    }

    /// Reads a number off the household.
    pub fn measure(&self, which: Measure) -> (value: u64)
        ensures
            value == self.measure_spec(which),
    {
        match which {
            Measure::Resources => self.resources,
            Measure::Load => self.load,
            Measure::PeerTransfer => self.genes.peer_transfer,
            Measure::SubordinateTransfer => self.genes.subordinate_transfer,
            Measure::Cooperation => self.genes.cooperation(),
        }
    }
}

/// The numbers read off the households, in their order.
pub open spec fn measures(hs: Seq<Household>, which: Measure) -> Seq<nat> {
    hs.map_values(|h: Household| h.measure_spec(which))
}

/// The largest load among the households, or 0 if there is none.
pub open spec fn max_load_of(hs: Seq<Household>) -> nat
    decreases hs.len(),
{
    if hs.len() == 0 {
        0
    } else if max_load_of(hs.drop_last()) >= hs.last().load {
        max_load_of(hs.drop_last())
    } else {
        hs.last().load as nat
    }
}

impl Settlement {
    /// The mean over the households of a number read off each.
    pub open spec fn average_spec(self, which: Measure) -> nat {
        mean(sum(measures(self.households@, which)), self.households.len() as nat)
    }

    /// The sum over the households of a number read off each.
    pub fn total(&self, which: Measure) -> (total: u128)
        ensures
            total == sum(measures(self.households@, which)),
            total <= self.households.len() * u64::MAX,
    {
        let ghost values = measures(self.households@, which);
        let mut total: u128 = 0;
        let mut j: usize = 0;
        proof {
            lemma_sum_all(values);
        }
        while j < self.households.len()
            invariant
                j <= self.households.len(),
                values == measures(self.households@, which),
                total == sum(values.take(j as int)),
                total <= j * u64::MAX,
            decreases self.households.len() - j,
        {
            proof {
                lemma_sum_step(values, j as int);
                assert((j + 1) * u64::MAX == j * u64::MAX + u64::MAX) by (nonlinear_arith);
                assert((j + 1) * u64::MAX <= usize::MAX * u64::MAX) by (nonlinear_arith)
                    requires
                        j + 1 <= usize::MAX,
                ;
            }
            total = total + self.households[j].measure(which) as u128;
            j = j + 1;
        }
        total
    }

    /// The mean over the households of a number read off each; 0 for a
    /// settlement without households.
    pub fn average(&self, which: Measure) -> (m: u64)
        ensures
            m == self.average_spec(which),
    {
        mean_of(self.total(which), self.households.len())
    }

    /// The mean cooperation of the households.
    pub fn average_cooperation(&self) -> (m: u64)
        ensures
            m == self.average_spec(Measure::Cooperation),
    {
        self.average(Measure::Cooperation)
    }

    /// The mean `peer_transfer` and the mean `subordinate_transfer` of the households.
    pub fn cooperation(&self) -> (pair: (u64, u64))
        ensures
            pair.0 == self.average_spec(Measure::PeerTransfer),
            pair.1 == self.average_spec(Measure::SubordinateTransfer),
    {
        (self.average(Measure::PeerTransfer), self.average(Measure::SubordinateTransfer))
    }

    /// The status of each household, in their order.
    pub fn statuses(&self) -> (list: Vec<u64>)
        requires
            self.wf(),
        ensures
            list.len() == self.households.len(),
            forall|i: int|
                0 <= i < list.len() ==> list[i] == (#[trigger] self.households[i]).status_spec(),
    {
        let mut list: Vec<u64> = Vec::new();
        let mut j: usize = 0;
        while j < self.households.len()
            invariant
                j <= self.households.len(),
                self.wf(),
                list.len() == j,
                forall|i: int|
                    0 <= i < j ==> list[i] == (#[trigger] self.households[i]).status_spec(),
            decreases self.households.len() - j,
        {
            assert(self.households[j as int].wf());
            list.push(self.households[j].status());
            j = j + 1;
        }
        list
    }

    /// The mean resources of the households.
    pub fn average_resources(&self) -> (m: u64)
        ensures
            m == self.average_spec(Measure::Resources),
    {
        self.average(Measure::Resources)
    }

    /// The largest load among the households; 0 for a settlement without households.
    pub fn max_load(&self) -> (top: u64)
        ensures
            top == max_load_of(self.households@),
    {
        let mut top: u64 = 0;
        let mut j: usize = 0;
        assert(self.households@.take(0) =~= Seq::<Household>::empty());
        while j < self.households.len()
            invariant
                j <= self.households.len(),
                top == max_load_of(self.households@.take(j as int)),
            decreases self.households.len() - j,
        {
            assert(self.households@.take(j + 1).drop_last() =~= self.households@.take(j as int));
            if self.households[j].load > top {
                top = self.households[j].load;
            }
            j = j + 1;
        }
        assert(self.households@.take(j as int) =~= self.households@);
        top
    }
}

/// The means of the settlements, in their order.
pub open spec fn averages(ss: Seq<Settlement>, which: Measure) -> Seq<nat> {
    ss.map_values(|s: Settlement| s.average_spec(which))
}

/// The largest load in any settlement, or 0 if there is no household.
pub open spec fn world_max_load(ss: Seq<Settlement>) -> nat
    decreases ss.len(),
{
    if ss.len() == 0 {
        0
    } else if world_max_load(ss.drop_last()) >= max_load_of(ss.last().households@) {
        world_max_load(ss.drop_last())
    } else {
        max_load_of(ss.last().households@)
    }
}

impl World {
    /// The mean over the settlements of the mean over their households.
    pub open spec fn average_spec(self, which: Measure) -> nat {
        mean(sum(averages(self.settlements@, which)), self.settlements.len() as nat)
    }

    /// The mean over the settlements of the mean over their households of a
    /// number read off each; 0 for a world without settlements.
    pub fn average(&self, which: Measure) -> (m: u64)
        ensures
            m == self.average_spec(which),
    {
        let ghost values = averages(self.settlements@, which);
        let mut total: u128 = 0;
        let mut n: usize = 0;
        proof {
            lemma_sum_all(values);
        }
        while n < self.settlements.len()
            invariant
                n <= self.settlements.len(),
                values == averages(self.settlements@, which),
                total == sum(values.take(n as int)),
                total <= n * u64::MAX,
            decreases self.settlements.len() - n,
        {
            proof {
                lemma_sum_step(values, n as int);
                assert((n + 1) * u64::MAX == n * u64::MAX + u64::MAX) by (nonlinear_arith);
                assert((n + 1) * u64::MAX <= usize::MAX * u64::MAX) by (nonlinear_arith)
                    requires
                        n + 1 <= usize::MAX,
                ;
            }
            total = total + self.settlements[n].average(which) as u128;
            n = n + 1;
        }
        mean_of(total, self.settlements.len())
    }

    /// The mean over the settlements of their mean cooperation.
    pub fn average_cooperation(&self) -> (m: u64)
        ensures
            m == self.average_spec(Measure::Cooperation),
    {
        self.average(Measure::Cooperation)
    }

    /// The means over the settlements of their mean `peer_transfer` and of
    /// their mean `subordinate_transfer`.
    pub fn cooperation(&self) -> (pair: (u64, u64))
        ensures
            pair.0 == self.average_spec(Measure::PeerTransfer),
            pair.1 == self.average_spec(Measure::SubordinateTransfer),
    {
        (self.average(Measure::PeerTransfer), self.average(Measure::SubordinateTransfer))
    }

    /// The mean over the settlements of their mean resources.
    pub fn average_resources(&self) -> (m: u64)
        ensures
            m == self.average_spec(Measure::Resources),
    {
        self.average(Measure::Resources)
    }

    /// The largest load of any household; 0 for a world without households.
    pub fn max_load(&self) -> (top: u64)
        ensures
            top == world_max_load(self.settlements@),
    {
        let mut top: u64 = 0;
        let mut n: usize = 0;
        assert(self.settlements@.take(0) =~= Seq::<Settlement>::empty());
        while n < self.settlements.len()
            invariant
                n <= self.settlements.len(),
                top == world_max_load(self.settlements@.take(n as int)),
            decreases self.settlements.len() - n,
        {
            assert(self.settlements@.take(n + 1).drop_last() =~= self.settlements@.take(n as int));
            let here: u64 = self.settlements[n].max_load();
            if here > top {
                top = here;
            }
            n = n + 1;
        }
        assert(self.settlements@.take(n as int) =~= self.settlements@);
        top
    }
}

} // verus!
