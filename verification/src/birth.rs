//! The third phase of a tick: births, and the choice of the mate.

use crate::household::{Genes, Household};
use crate::random::{chance, draw_below};
use crate::settlement::{
    first_with_id, influence_positive, lemma_place, max_id_of, place_in, reaches, Settlement,
};
use crate::sums::{lemma_sum_all, lemma_sum_monotone, lemma_sum_step, lemma_sum_update, sum};
use crate::territory::{land_of, extends_layout, lemma_layout_kept, patch_of};
use crate::tick::born_step;
use crate::units::{BIRTH_DEN, BIRTH_NUM, MUTATION_AMPL, SCALE};
use crate::world::{bounded, gene_limit, population_of, populations, status_limit, World};
use vstd::prelude::*;

verus! {

/// The settlement at place `s` is one in which the households of the
/// settlement at place `n` find their mates: it has a positive influence on
/// that settlement, and it is another settlement unless `own` allows the same.
pub open spec fn mate_source(ss: Seq<Settlement>, own: bool, n: int, s: int) -> bool {
    &&& own || s != n
    &&& influence_positive(ss[s].status_spec(), ss[n].position.dist_squared_spec(ss[s].position))
}

/// The weight of each settlement in the choice of a mate for the settlement
/// at place `n`: its status if it is a source of mates, else nothing.
pub open spec fn mate_weights(ss: Seq<Settlement>, own: bool, n: int) -> Seq<nat> {
    Seq::new(
        ss.len(),
        |s: int|
            if mate_source(ss, own, n, s) {
                ss[s].status_spec()
            } else {
                0
            },
    )
}

/// The sum of the weights.
pub open spec fn mate_pool(ss: Seq<Settlement>, own: bool, n: int) -> nat {
    sum(mate_weights(ss, own, n))
}

/// The household at place `k` of the settlement at place `s` is the mate
/// that `target` selects: `target` falls into the share of the settlement
/// among the weights, and what is left of it when the weights before are
/// taken off is first reached by the running sum of the loads at `k`.
pub open spec fn mate_at(ss: Seq<Settlement>, own: bool, n: int, target: nat, s: int, k: int) -> bool {
    &&& 0 <= s < ss.len()
    &&& mate_source(ss, own, n, s)
    &&& sum(mate_weights(ss, own, n).take(s)) <= target < sum(mate_weights(ss, own, n).take(s + 1))
    &&& reaches(ss[s].households@, (target - sum(mate_weights(ss, own, n).take(s))) as nat, k)
}

impl World {
    /// Whether the households of the settlement at place `n` find mates in
    /// the settlement at place `s`.
    pub fn is_mate_source(&self, n: usize, s: usize) -> (source: bool)
        requires
            self.sound(),
            n < self.settlements.len(),
            s < self.settlements.len(),
        ensures
            source == mate_source(self.settlements@, self.settings.own_settlement_mates, n as int, s as int),
    {
        assert(self.settlements[n as int].position.inside(self.side()));
        assert(self.settlements[s as int].position.inside(self.side()));
        (self.settings.own_settlement_mates || s != n) && self.settlements[n].influence(
            &self.settlements[s],
        )
    }

    /// The sum of the statuses of the settlements in which the households of
    /// the settlement at place `n` find their mates.
    pub fn mate_pool_of(&self, n: usize) -> (total: u128)
        requires
            self.sound(),
            n < self.settlements.len(),
        ensures
            total == mate_pool(self.settlements@, self.settings.own_settlement_mates, n as int),
    {
        let ghost weights = mate_weights(
            self.settlements@,
            self.settings.own_settlement_mates,
            n as int,
        );
        let ghost heads = populations(self.settlements@);
        let mut total: u128 = 0;
        let mut s: usize = 0;
        proof {
            lemma_sum_all(weights);
            lemma_sum_all(heads);
        }
        while s < self.settlements.len()
            invariant
                self.sound(),
                n < self.settlements.len(),
                s <= self.settlements.len(),
                weights == mate_weights(
                    self.settlements@,
                    self.settings.own_settlement_mates,
                    n as int,
                ),
                heads == populations(self.settlements@),
                total == sum(weights.take(s as int)),
                total <= sum(heads.take(s as int)) * u64::MAX,
            decreases self.settlements.len() - s,
        {
            proof {
                lemma_sum_step(weights, s as int);
                lemma_sum_step(heads, s as int);
                lemma_sum_monotone(heads, s + 1, heads.len() as int);
                lemma_sum_all(heads);
                let a = sum(heads.take(s as int));
                let b = heads[s as int];
                assert((a + b) * u64::MAX == a * u64::MAX + b * u64::MAX) by (nonlinear_arith);
                assert((a + b) * u64::MAX <= usize::MAX * u64::MAX) by (nonlinear_arith)
                    requires
                        a + b <= usize::MAX,
                ;
            }
            if self.is_mate_source(n, s) {
                total = total + self.settlements[s].status();
            }
            s = s + 1;
        }
        proof {
            lemma_sum_all(weights);
        }
        total
    }

    /// The genes of the mate that `target` selects for a household of the
    /// settlement at place `n`.
    pub fn select_mate(&self, n: usize, target: u128) -> (genes: Genes)
        requires
            self.sound(),
            n < self.settlements.len(),
            target < mate_pool(self.settlements@, self.settings.own_settlement_mates, n as int),
        ensures
            exists|s: int, k: int| #[trigger]
                mate_at(
                    self.settlements@,
                    self.settings.own_settlement_mates,
                    n as int,
                    target as nat,
                    s,
                    k,
                ) && genes == self.settlements[s].households[k].genes,
    {
        let ghost weights = mate_weights(
            self.settlements@,
            self.settings.own_settlement_mates,
            n as int,
        );
        let mut rest: u128 = target;
        let mut s: usize = 0;
        proof {
            lemma_sum_all(weights);
            if self.settlements.len() > 0 {
                lemma_sum_step(weights, 0);
            }
        }
        loop
            invariant
                self.sound(),
                n < self.settlements.len(),
                s < self.settlements.len(),
                weights == mate_weights(
                    self.settlements@,
                    self.settings.own_settlement_mates,
                    n as int,
                ),
                target < sum(weights),
                rest + sum(weights.take(s as int)) == target,
                sum(weights.take(s + 1)) == sum(weights.take(s as int)) + weights[s as int],
            decreases self.settlements.len() - s,
        {
            if self.is_mate_source(n, s) {
                let status: u128 = self.settlements[s].status();
                if rest < status {
                    let genes: Genes = self.settlements[s].find_genes(rest);
                    proof {
                        let k = choose|k: int|
                            reaches(self.settlements[s as int].households@, rest as nat, k)
                                && genes == self.settlements[s as int].households[k].genes;
                        assert(mate_at(
                            self.settlements@,
                            self.settings.own_settlement_mates,
                            n as int,
                            target as nat,
                            s as int,
                            k,
                        ));
                    }
                    return genes;
                }
                rest = rest - status;
            }
            proof {
                lemma_sum_all(weights);
                if s + 2 <= self.settlements.len() {
                    lemma_sum_step(weights, s + 1);
                }
            }
            s = s + 1;
        }
    }

    /// One birth: the household with the id `id` of the settlement at place
    /// `n` has a child with a mate of the given genes.
    fn bear(&mut self, n: usize, id: u32, genes: Genes)
        requires
            old(self).sound(),
            n < old(self).settlements.len(),
            old(self).settlements[n as int].has(id),
            old(self).settlements[n as int].max_id_spec() < u32::MAX,
            old(self).settlements[n as int].households[old(self).settlements[n as int].place(
                id,
            )].genes.below(u64::MAX - MUTATION_AMPL),
            genes.below(u64::MAX - MUTATION_AMPL),
            old(self).population_spec() < usize::MAX,
        ensures
            final(self).sound(),
            final(self).settings == old(self).settings,
            final(self).iteration == old(self).iteration,
            final(self).matrix == old(self).matrix,
            final(self).population_spec() == old(self).population_spec() + 1,
            final(self).settlements.len() == old(self).settlements.len(),
            forall|m: int|
                0 <= m < old(self).settlements.len() && m != n ==> final(self).settlements[m]
                    == old(self).settlements[m],
            final(self).settlements[n as int].id == old(self).settlements[n as int].id,
            final(self).settlements[n as int].position == old(self).settlements[n as int].position,
            final(self).settlements[n as int].max_id_spec()
                == old(self).settlements[n as int].max_id_spec() + 1,
            born(
                old(self).settlements[n as int].households@,
                final(self).settlements[n as int].households@,
                old(self).settlements[n as int].place(id),
                genes,
            ),
    {
        let ghost before = self.settlements@;
        self.settlements[n].add(id, genes, &mut self.rng);
        proof {
            let after = self.settlements@;
            let hs = before[n as int].households@;
            let grown = after[n as int].households@;
            let place = before[n as int].place(id);
            assert forall|j: int| 0 <= j < hs.len() implies (#[trigger] grown[j]) == (Household {
                resources: if j == place {
                    hs[j].resources / 2
                } else {
                    hs[j].resources
                },
                ..hs[j]
            }) by {
                assert(grown[j] == grown.drop_last()[j]);
            }
            assert(born(hs, grown, place, genes));
            assert(extends_layout(before, after)) by {
                assert forall|m: int, i: int|
                    0 <= m < before.len() && 0 <= i < after[m].households.len() implies #[trigger] patch_of(
                    after,
                    m,
                    i,
                ) == (if i < before[m].households.len() {
                    patch_of(before, m, i)
                } else {
                    None
                }) by {
                    if m == n && i < hs.len() {
                        assert(grown[i] == grown.drop_last()[i]);
                    }
                }
            }
            lemma_layout_kept(land_of(self.matrix@), before, after, self.side());
            assert forall|m: int| 0 <= m < after.len() implies (#[trigger] after[m]).distinct_ids() by {
                assert(before[m].distinct_ids());
            }
            assert(populations(after) =~= populations(before).update(
                n as int,
                (hs.len() + 1) as nat,
            ));
            lemma_sum_update(populations(before), n as int, (hs.len() + 1) as nat);
        }
    }

    /// Every household takes the birth test at a chance of its own. For
    /// each settlement the households that pass are returned in their order,
    /// each by its id and with the genes of its mate: its own genes where no
    /// settlement is a source of mates, else those of the mate that a target
    /// drawn from the pool selects.
    pub(crate) fn draw_births(&mut self) -> (parents: Vec<Vec<(u32, Genes)>>)
        requires
            old(self).sound(),
        ensures
            final(self).settings == old(self).settings,
            final(self).iteration == old(self).iteration,
            final(self).matrix == old(self).matrix,
            final(self).settlements@ == old(self).settlements@,
            births_drawn(
                old(self).settlements@,
                old(self).settings.own_settlement_mates,
                parents@,
            ),
    {
        let ghost start = self.settlements@;
        let ghost own = self.settings.own_settlement_mates;
        let mut parents: Vec<Vec<(u32, Genes)>> = Vec::new();
        let mut n: usize = 0;
        while n < self.settlements.len()
            invariant
                self.sound(),
                self.settings == old(self).settings,
                self.iteration == old(self).iteration,
                self.matrix == old(self).matrix,
                self.settlements@ == start,
                own == self.settings.own_settlement_mates,
                n <= start.len(),
                parents.len() == n,
                forall|m: int| 0 <= m < n ==> parents_drawn(start, own, m, (#[trigger] parents[m])@),
            decreases start.len() - n,
        {
            let total: u128 = self.mate_pool_of(n);
            let mut list: Vec<(u32, Genes)> = Vec::new();
            let mut i: usize = 0;
            while i < self.settlements[n].households.len()
                invariant
                    self.sound(),
                    self.settings == old(self).settings,
                    self.iteration == old(self).iteration,
                    self.matrix == old(self).matrix,
                    self.settlements@ == start,
                    own == self.settings.own_settlement_mates,
                    n < start.len(),
                    total == mate_pool(start, own, n as int),
                    i <= start[n as int].households.len(),
                    list.len() <= i,
                    forall|k: int|
                        0 <= k < list.len() ==> parent_at(
                            start,
                            own,
                            n as int,
                            start[n as int].place((#[trigger] list[k]).0),
                            list[k],
                        ) && start[n as int].place(list[k].0) < i,
                    forall|k: int, l: int|
                        0 <= k < l < list.len() ==> start[n as int].place((#[trigger] list[k]).0)
                            < start[n as int].place((#[trigger] list[l]).0),
                decreases start[n as int].households.len() - i,
            {
                let test: u64 = chance(&mut self.rng);
                let id: u32 = self.settlements[n].households[i].id;
                let mine: Genes = self.settlements[n].households[i].genes;
                if self.settlements[n].households[i].birth(test) {
                    let ghost so_far = list@;
                    proof {
                        lemma_place(start[n as int], id, i as int);
                        let place = start[n as int].place(id);
                        if place < i {
                            assert(start[n as int].households[place].id
                                != start[n as int].households[i as int].id);
                        }
                        assert(BIRTH_NUM == 15 && BIRTH_DEN == 1000);
                    }
                    let ghost mut mate: (nat, int, int) = (0, 0, 0);
                    let genes: Genes = if total == 0 {
                        mine
                    } else {
                        let target: u128 = draw_below(&mut self.rng, total);
                        let chosen: Genes = self.select_mate(n, target);
                        proof {
                            let (s, k) = choose|s: int, k: int| #[trigger]
                                mate_at(start, own, n as int, target as nat, s, k) && chosen
                                    == start[s].households[k].genes;
                            mate = (target as nat, s, k);
                        }
                        chosen
                    };
                    list.push((id, genes));
                    proof {
                        let entry = (id, genes);
                        if total != 0 {
                            assert(mate_found(start, own, n as int, mate.0, mate.1, mate.2, entry.1));
                        }
                        assert(parent_at(start, own, n as int, i as int, entry));
                        assert forall|k: int| 0 <= k < list.len() implies parent_at(
                            start,
                            own,
                            n as int,
                            start[n as int].place((#[trigger] list[k]).0),
                            list[k],
                        ) && start[n as int].place(list[k].0) < i + 1 by {
                            if k < so_far.len() {
                                assert(list[k] == so_far[k]);
                            } else {
                                assert(list[k] == entry);
                                assert(start[n as int].place(id) == i);
                            }
                        }
                        assert forall|k: int, l: int| 0 <= k < l < list.len() implies start[n as int].place(
                            (#[trigger] list[k]).0,
                        ) < start[n as int].place((#[trigger] list[l]).0) by {
                            assert(list[k] == so_far[k]);
                            if l < so_far.len() {
                                assert(list[l] == so_far[l]);
                            }
                        }
                    }
                }
                i = i + 1;
            }
            parents.push(list);
            n = n + 1;
        }
        parents
    }

    /// The parents have their children, in the order of the list: each child
    /// is the child of the household with the given id and of a mate with
    /// the given genes. Returns how many were born.
    pub(crate) fn bear_children(&mut self, parents: &Vec<Vec<(u32, Genes)>>) -> (births: usize)
        requires
            old(self).sound(),
            old(self).iteration < u32::MAX,
            bounded(
                old(self).settlements@,
                status_limit(old(self).iteration + 1),
                gene_limit(old(self).iteration as int),
            ),
            2 * old(self).population_spec() <= usize::MAX,
            forall|n: int|
                0 <= n < old(self).settlements.len()
                    ==> (#[trigger] old(self).settlements[n]).max_id_spec()
                        + old(self).settlements[n].households.len()
                    <= u32::MAX,
            parents.len() == old(self).settlements.len(),
            forall|m: int|
                0 <= m < parents.len() ==> (#[trigger] parents[m]).len()
                    <= old(self).settlements[m].households.len(),
            forall|m: int, k: int|
                0 <= m < parents.len() && 0 <= k < parents[m].len()
                    ==> old(self).settlements[m].has((#[trigger] parents[m][k]).0)
                        && parents[m][k].1.below(
                    gene_limit(old(self).iteration as int),
                ),
        ensures
            final(self).sound(),
            final(self).settings == old(self).settings,
            final(self).iteration == old(self).iteration,
            final(self).matrix == old(self).matrix,
            final(self).population_spec() == old(self).population_spec() + births,
            bounded(
                final(self).settlements@,
                status_limit(old(self).iteration + 1),
                gene_limit(old(self).iteration + 1),
            ),
            grown(old(self).settlements@, final(self).settlements@),
            final(self).settlements.len() == old(self).settlements.len(),
            forall|m: int|
                0 <= m < old(self).settlements.len() ==> births_applied(
                    old(self).settlements[m].households@,
                    parents[m]@,
                    (#[trigger] final(self).settlements[m]).households@,
                ),
    {
        let ghost start = self.settlements@;
        let ghost cap = status_limit(self.iteration + 1);
        let ghost genes_cap = gene_limit(self.iteration as int);
        assert(genes_cap + MUTATION_AMPL <= u64::MAX - MUTATION_AMPL && gene_limit(
            self.iteration + 1,
        ) == genes_cap + MUTATION_AMPL) by (nonlinear_arith)
            requires
                genes_cap == SCALE + MUTATION_AMPL * self.iteration,
                gene_limit(self.iteration + 1) == SCALE + MUTATION_AMPL * (self.iteration + 1),
                self.iteration <= 0xffff_ffff,
                SCALE == 1_000_000,
                MUTATION_AMPL == 250_000,
        ;
        let mut n: usize = 0;
        let mut births: usize = 0;
        n = 0;
        proof {
            lemma_sum_all(populations(start));
        }
        while n < self.settlements.len()
            invariant
                self.sound(),
                self.settings == old(self).settings,
                self.iteration == old(self).iteration,
                self.matrix == old(self).matrix,
                start == old(self).settlements@,
                genes_cap + MUTATION_AMPL <= u64::MAX - MUTATION_AMPL,
                2 * population_of(start) <= usize::MAX,
                n <= start.len(),
                forall|m: int|
                    0 <= m < start.len() ==> births_applied(
                        start[m].households@,
                        if m < n {
                            parents[m]@
                        } else {
                            Seq::<(u32, Genes)>::empty()
                        },
                        (#[trigger] self.settlements[m]).households@,
                    ),
                self.settlements.len() == start.len(),
                parents.len() == start.len(),
                forall|m: int|
                    0 <= m < start.len() ==> (#[trigger] parents[m]).len()
                        <= start[m].households.len(),
                forall|m: int, k: int|
                    0 <= m < start.len() && 0 <= k < parents[m].len() ==> start[m].has(
                        (#[trigger] parents[m][k]).0,
                    ) && parents[m][k].1.below(genes_cap),
                forall|m: int|
                    0 <= m < start.len() ==> (#[trigger] start[m]).max_id_spec()
                        + start[m].households.len() <= u32::MAX,
                forall|m: int| n <= m < start.len() ==> self.settlements[m] == start[m],
                bounded(start, cap, genes_cap),
                bounded(self.settlements@, cap, genes_cap + MUTATION_AMPL),
                grown(start, self.settlements@),
                population_of(self.settlements@) == population_of(start) + births,
                births <= sum(populations(start).take(n as int)),
            decreases start.len() - n,
        {
            let mut k: usize = 0;
            proof {
                assert(parents[n as int]@.take(0) =~= Seq::<(u32, Genes)>::empty());
                lemma_sum_step(populations(start), n as int);
                lemma_sum_monotone(populations(start), n + 1, start.len() as int);
                lemma_sum_all(populations(start));
            }
            let ghost base = births;
            while k < parents[n].len()
                invariant
                    self.sound(),
                    self.settings == old(self).settings,
                    self.iteration == old(self).iteration,
                    self.matrix == old(self).matrix,
                    start == old(self).settlements@,
                    genes_cap + MUTATION_AMPL <= u64::MAX - MUTATION_AMPL,
                    2 * population_of(start) <= usize::MAX,
                    n < start.len(),
                    self.settlements.len() == start.len(),
                    parents.len() == start.len(),
                    k <= parents[n as int].len(),
                    parents[n as int].len() <= start[n as int].households.len(),
                    forall|l: int|
                        0 <= l < parents[n as int].len() ==> start[n as int].has(
                            (#[trigger] parents[n as int][l]).0,
                        ) && parents[n as int][l].1.below(genes_cap),
                    start[n as int].max_id_spec() + start[n as int].households.len() <= u32::MAX,
                    forall|m: int| n < m < start.len() ==> self.settlements[m] == start[m],
                    bounded(start, cap, genes_cap),
                    bounded(self.settlements@, cap, genes_cap + MUTATION_AMPL),
                    grown(start, self.settlements@),
                    self.settlements[n as int].households.len() == start[n as int].households.len()
                        + k,
                    self.settlements[n as int].max_id_spec() == start[n as int].max_id_spec() + k,
                    births_applied(
                        start[n as int].households@,
                        parents[n as int]@.take(k as int),
                        self.settlements[n as int].households@,
                    ),
                    forall|m: int|
                        0 <= m < start.len() && m != n ==> births_applied(
                            start[m].households@,
                            if m < n {
                                parents[m]@
                            } else {
                                Seq::<(u32, Genes)>::empty()
                            },
                            (#[trigger] self.settlements[m]).households@,
                        ),
                    population_of(self.settlements@) == population_of(start) + births,
                    births == base + k,
                    base + start[n as int].households.len() <= population_of(start),
                decreases parents[n as int].len() - k,
            {
                let (id, genes): (u32, Genes) = parents[n][k];
                let ghost before = self.settlements@;
                proof {
                    let hs = start[n as int].households@;
                    let now = before[n as int].households@;
                    let at = choose|at: int| 0 <= at < hs.len() && hs[at].id == id;
                    assert(now[at].id == id);
                    assert(before[n as int].has(id));
                    let place = before[n as int].place(id);
                    lemma_place(before[n as int], id, at);
                    assert(start[n as int].households[place].within(cap, genes_cap));
                    assert(now[place].genes == hs[place].genes);
                }
                self.bear(n, id, genes);
                proof {
                    let sofar = parents[n as int]@.take(k + 1);
                    assert(sofar.drop_last() =~= parents[n as int]@.take(k as int));
                    assert(sofar.last() == parents[n as int]@[k as int]);
                    assert(births_applied(
                        start[n as int].households@,
                        sofar.drop_last(),
                        before[n as int].households@,
                    ));
                    assert(first_with_id(
                        before[n as int].households@,
                        id,
                        place_in(before[n as int].households@, id),
                    ));
                    assert(born(
                        before[n as int].households@,
                        self.settlements[n as int].households@,
                        place_in(before[n as int].households@, sofar.last().0),
                        sofar.last().1,
                    ));
                    assert(births_applied(
                        start[n as int].households@,
                        sofar,
                        self.settlements[n as int].households@,
                    ));
                    assert forall|m: int| 0 <= m < start.len() && m != n implies births_applied(
                        start[m].households@,
                        if m < n {
                            parents[m]@
                        } else {
                            Seq::<(u32, Genes)>::empty()
                        },
                        (#[trigger] self.settlements[m]).households@,
                    ) by {
                        assert(self.settlements[m] == before[m]);
                    }
                    let after = self.settlements@;
                    let hs = start[n as int].households@;
                    let now = before[n as int].households@;
                    let next = after[n as int].households@;
                    let place = before[n as int].place(id);
                    assert(born(now, next, place, genes));
                    assert forall|m: int, i: int|
                        0 <= m < after.len() && 0 <= i < after[m].households.len() implies (
                    #[trigger] after[m].households[i]).within(cap, genes_cap + MUTATION_AMPL) by {
                        if m != n {
                            assert(after[m] == before[m]);
                            assert(before[m].households[i].within(cap, genes_cap + MUTATION_AMPL));
                        } else if i < now.len() {
                            assert(before[m].households[i].within(cap, genes_cap + MUTATION_AMPL));
                        } else {
                            assert(before[m].households[place].within(
                                cap,
                                genes_cap + MUTATION_AMPL,
                            ));
                            assert(start[m].households[place].within(cap, genes_cap));
                            assert(now[place].genes == hs[place].genes);
                        }
                    }
                    assert(grown(start, after)) by {
                        assert forall|m: int, i: int|
                            0 <= m < start.len() && 0 <= i < after[m].households.len() implies (
                        #[trigger] after[m].households[i]) == (if i < start[m].households.len() {
                            Household {
                                resources: after[m].households[i].resources,
                                ..start[m].households[i]
                            }
                        } else {
                            Household {
                                id: after[m].households[i].id,
                                resources: after[m].households[i].resources,
                                genes: after[m].households[i].genes,
                                load: 0,
                                hunger: 0,
                                resource_patch: None,
                                years_since_move: 0,
                                satisfaction: 0,
                            }
                        }) && (i < start[m].households.len() ==> after[m].households[i].resources
                            <= start[m].households[i].resources) by {
                            if m != n {
                                assert(after[m] == before[m]);
                            }
                            if i < before[m].households.len() {
                                assert(before[m].households[i] == (if i
                                    < start[m].households.len() {
                                    Household {
                                        resources: before[m].households[i].resources,
                                        ..start[m].households[i]
                                    }
                                } else {
                                    Household {
                                        id: before[m].households[i].id,
                                        resources: before[m].households[i].resources,
                                        genes: before[m].households[i].genes,
                                        load: 0,
                                        hunger: 0,
                                        resource_patch: None,
                                        years_since_move: 0,
                                        satisfaction: 0,
                                    }
                                }));
                            }
                        }
                    }
                }
                births = births + 1;
                k = k + 1;
            }
            proof {
                assert(parents[n as int]@.take(k as int) =~= parents[n as int]@);
            }
            n = n + 1;
        }
        births
    }

    /// The third phase of a tick. Every household takes the birth test. One
    /// that passes has a child: with itself as the mate where no settlement
    /// is a source of mates, else with a mate selected by a target drawn
    /// from the pool. The children join their settlements when all tests
    /// are done. Returns how many were born.
    pub(crate) fn iterate_birth(&mut self) -> (births: usize)
        requires
            old(self).sound(),
            old(self).iteration < u32::MAX,
            bounded(
                old(self).settlements@,
                status_limit(old(self).iteration + 1),
                gene_limit(old(self).iteration as int),
            ),
            2 * old(self).population_spec() <= usize::MAX,
            forall|n: int|
                0 <= n < old(self).settlements.len()
                    ==> (#[trigger] old(self).settlements[n]).max_id_spec()
                        + old(self).settlements[n].households.len()
                    <= u32::MAX,
        ensures
            final(self).sound(),
            final(self).settings == old(self).settings,
            final(self).iteration == old(self).iteration,
            final(self).matrix == old(self).matrix,
            final(self).population_spec() == old(self).population_spec() + births,
            bounded(
                final(self).settlements@,
                status_limit(old(self).iteration + 1),
                gene_limit(old(self).iteration + 1),
            ),
            grown(old(self).settlements@, final(self).settlements@),
            born_step(old(self).settings.own_settlement_mates, old(self).scene(), final(self).scene()),
    {
        let ghost start = self.settlements@;
        let ghost own = self.settings.own_settlement_mates;
        let ghost genes_cap = gene_limit(self.iteration as int);
        let parents: Vec<Vec<(u32, Genes)>> = self.draw_births();
        proof {
            assert forall|m: int, k: int|
                0 <= m < parents.len() && 0 <= k < parents[m].len() implies start[m].has(
                (#[trigger] parents[m][k]).0,
            ) && parents[m][k].1.below(genes_cap) by {
                assert(parents_drawn(start, own, m, parents[m]@));
                let entry = parents[m][k];
                let place = start[m].place(entry.0);
                assert(parent_at(start, own, m, place, entry));
                assert(start[m].households[place].within(
                    status_limit(self.iteration + 1),
                    genes_cap,
                ));
                if mate_pool(start, own, m) != 0 {
                    let (target, s, l) = choose|target: nat, s: int, l: int| #[trigger]
                        mate_found(start, own, m, target, s, l, entry.1);
                    assert(start[s].households[l].within(
                        status_limit(self.iteration + 1),
                        genes_cap,
                    ));
                }
            }
            assert forall|m: int| 0 <= m < parents.len() implies (#[trigger] parents[m]).len()
                <= start[m].households.len() by {
                assert(parents_drawn(start, own, m, parents[m]@));
            }
        }
        let births: usize = self.bear_children(&parents);
        proof {
            let a = old(self).scene();
            let b = self.scene();
            assert(births_drawn(a.people, own, parents@));
            assert forall|n: int| 0 <= n < a.people.len() implies births_applied(
                a.people[n].households@,
                parents@[n]@,
                (#[trigger] b.people[n]).households@,
            ) by {
                assert(births_applied(
                    start[n].households@,
                    parents[n]@,
                    self.settlements[n].households@,
                ));
            }
            assert forall|n: int| 0 <= n < a.people.len() implies (#[trigger] b.people[n]).id
                == a.people[n].id && b.people[n].position == a.people[n].position by {
                assert(self.settlements[n].id == start[n].id);
            }
        }
        births
    }
}

/// The household may pass the birth test at some chance: it has some hunger.
pub open spec fn may_bear(h: Household) -> bool {
    h.hunger > 0
}

/// The target selects the household at place `k` of the settlement at place
/// `s` as the mate, and `genes` are its genes.
pub open spec fn mate_found(
    ss: Seq<Settlement>,
    own: bool,
    n: int,
    target: nat,
    s: int,
    k: int,
    genes: Genes,
) -> bool {
    &&& target < mate_pool(ss, own, n)
    &&& mate_at(ss, own, n, target, s, k)
    &&& genes == ss[s].households[k].genes
}

/// The household at place `i` of the settlement at place `n` is a parent as
/// the entry says: it has the id of the entry and may pass the birth test,
/// and the genes of the entry are those of its mate: its own where the pool
/// of mates is empty, else those of a household that some target selects.
pub open spec fn parent_at(
    ss: Seq<Settlement>,
    own: bool,
    n: int,
    i: int,
    entry: (u32, Genes),
) -> bool {
    &&& 0 <= i < ss[n].households.len()
    &&& ss[n].households[i].id == entry.0
    &&& may_bear(ss[n].households[i])
    &&& if mate_pool(ss, own, n) == 0 {
        entry.1 == ss[n].households[i].genes
    } else {
        exists|target: nat, s: int, k: int| #[trigger] mate_found(ss, own, n, target, s, k, entry.1)
    }
}

/// The list names parents of the settlement at place `n`, each once and in
/// the order in which they stand.
pub open spec fn parents_drawn(
    ss: Seq<Settlement>,
    own: bool,
    n: int,
    list: Seq<(u32, Genes)>,
) -> bool {
    &&& list.len() <= ss[n].households.len()
    &&& forall|k: int|
        0 <= k < list.len() ==> parent_at(ss, own, n, ss[n].place((#[trigger] list[k]).0), list[k])
    &&& forall|k: int, l: int|
        0 <= k < l < list.len() ==> ss[n].place((#[trigger] list[k]).0) < ss[n].place(
            (#[trigger] list[l]).0,
        )
}

/// For every settlement the list names its parents.
pub open spec fn births_drawn(ss: Seq<Settlement>, own: bool, parents: Seq<Vec<(u32, Genes)>>) -> bool {
    &&& parents.len() == ss.len()
    &&& forall|n: int| 0 <= n < ss.len() ==> parents_drawn(ss, own, n, (#[trigger] parents[n])@)
}

/// `after` is what becomes of the households `hs` when the parents of the
/// list have their children one after the other.
pub open spec fn births_applied(
    hs: Seq<Household>,
    list: Seq<(u32, Genes)>,
    after: Seq<Household>,
) -> bool
    decreases list.len(),
{
    if list.len() == 0 {
        after == hs
    } else {
        exists|mid: Seq<Household>|
            births_applied(hs, list.drop_last(), mid) && first_with_id(
                mid,
                list.last().0,
                place_in(mid, list.last().0),
            ) && #[trigger] born(mid, after, place_in(mid, list.last().0), list.last().1)
    }
}

/// `grown` holds the households of `hs`, of which the one at `place` has
/// half the resources it had, and behind them their child with the mate of
/// the genes `mate`.
pub open spec fn born(hs: Seq<Household>, grown: Seq<Household>, place: int, mate: Genes) -> bool {
    &&& 0 <= place < hs.len()
    &&& grown.len() == hs.len() + 1
    &&& forall|j: int|
        0 <= j < hs.len() ==> (#[trigger] grown[j]) == (Household {
            resources: if j == place {
                hs[j].resources / 2
            } else {
                hs[j].resources
            },
            ..hs[j]
        })
    &&& grown.last() == (Household {
        id: grown.last().id,
        resources: hs[place].resources / 2,
        load: 0,
        hunger: 0,
        resource_patch: None,
        genes: grown.last().genes,
        years_since_move: 0,
        satisfaction: 0,
    })
    &&& grown.last().id == max_id_of(hs) + 1
    &&& grown.last().genes.descends(hs[place].genes, mate)
}

/// `after` holds the settlements of `before`. The households of `before`
/// stand where they stood and are as they were, but that they may have less
/// resources; the households that have come since stand behind them and have
/// no load, no hunger and no patch.
pub open spec fn grown(before: Seq<Settlement>, after: Seq<Settlement>) -> bool {
    &&& before.len() == after.len()
    &&& forall|n: int|
        0 <= n < before.len() ==> {
            &&& (#[trigger] after[n]).id == before[n].id
            &&& after[n].position == before[n].position
            &&& before[n].households.len() <= after[n].households.len()
        }
    &&& forall|n: int, i: int|
        0 <= n < before.len() && 0 <= i < after[n].households.len() ==> (
        #[trigger] after[n].households[i]) == (if i < before[n].households.len() {
            Household { resources: after[n].households[i].resources, ..before[n].households[i] }
        } else {
            Household {
                id: after[n].households[i].id,
                resources: after[n].households[i].resources,
                genes: after[n].households[i].genes,
                load: 0,
                hunger: 0,
                resource_patch: None,
                years_since_move: 0,
                satisfaction: 0,
            }
        }) && (i < before[n].households.len() ==> after[n].households[i].resources
            <= before[n].households[i].resources)
}

} // verus!
