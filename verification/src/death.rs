//! The fourth phase of a tick: deaths, and the end of settlements that
//! nobody lives in.

use crate::grid::{Cell, Index};
use crate::household::Household;
use crate::random::chance;
use crate::settlement::Settlement;
use crate::sums::{lemma_sum_update, sum};
use crate::territory::{lemma_land, land_of, 
    cell_of, consistent, grid_set, lemma_delete_kept, lemma_release_kept, patch_of,
};
use crate::tick::{deaths_drawn, died_step};
use crate::units::{DEATH_DEN, SCALE};
use crate::world::{bounded, population_of, populations, World};
use vstd::prelude::*;

verus! {

/// The household `h` of the settlement `s` was a household of that
/// settlement in `before`.
pub open spec fn kept_from(before: Seq<Settlement>, s: Settlement, h: Household) -> bool {
    exists|m: int, j: int|
        0 <= m < before.len() && 0 <= j < before[m].households.len() && before[m].id == s.id
            && before[m].position == s.position && #[trigger] before[m].households[j] == h
}

/// Every household of `after` was a household of the same settlement in
/// `before`, and is as it was.
pub open spec fn remnant(before: Seq<Settlement>, after: Seq<Settlement>) -> bool {
    forall|n: int, i: int|
        0 <= n < after.len() && 0 <= i < after[n].households.len() ==> kept_from(
            before,
            after[n],
            #[trigger] after[n].households[i],
        )
}

/// What is left stays within the limits that held before.
pub proof fn lemma_remnant_bounded(
    before: Seq<Settlement>,
    after: Seq<Settlement>,
    status_limit: int,
    gene_limit: int,
)
    requires
        remnant(before, after),
        bounded(before, status_limit, gene_limit),
    ensures
        bounded(after, status_limit, gene_limit),
{
    assert forall|n: int, i: int|
        0 <= n < after.len() && 0 <= i < after[n].households.len() implies (
    #[trigger] after[n].households[i]).within(status_limit, gene_limit) by {
        let h = after[n].households[i];
        assert(kept_from(before, after[n], h));
        let (m, j) = choose|m: int, j: int|
            0 <= m < before.len() && 0 <= j < before[m].households.len() && before[m].id
                == after[n].id && before[m].position == after[n].position
                && #[trigger] before[m].households[j] == h;
        assert(before[m].households[j].within(status_limit, gene_limit));
    }
}

/// From `before` to `after` cells have changed only from claimed to unclaimed.
pub open spec fn only_released(before: Seq<Seq<Cell>>, after: Seq<Seq<Cell>>, size: int) -> bool {
    forall|p: Index|
        p.inside(size) ==> #[trigger] cell_of(after, p) == cell_of(before, p) || (cell_of(
            before,
            p,
        ) is Claimed && cell_of(after, p) == Cell::Unclaimed)
}

/// The household `h` of the settlement `s` is a household of that
/// settlement in `after`, as it was.
pub open spec fn stays(after: Seq<Settlement>, s: Settlement, h: Household) -> bool {
    exists|n: int, i: int|
        0 <= n < after.len() && 0 <= i < after[n].households.len() && after[n].id == s.id
            && #[trigger] after[n].households[i] == h
}

/// The patch of the household, if it has one, is unclaimed.
pub open spec fn freed(matrix: Seq<Seq<Cell>>, h: Household) -> bool {
    h.resource_patch is Some ==> cell_of(matrix, h.resource_patch->Some_0) == Cell::Unclaimed
}

/// Every household of `before` is in `after`, or its patch is unclaimed on
/// the grid `land`.
pub open spec fn stays_or_freed(
    before: Seq<Settlement>,
    after: Seq<Settlement>,
    land: Seq<Seq<Cell>>,
) -> bool {
    forall|m: int, j: int|
        0 <= m < before.len() && 0 <= j < before[m].households.len() ==> stays(
            after,
            before[m],
            #[trigger] before[m].households[j],
        ) || freed(land, before[m].households[j])
}

/// The households that are not marked, in their order.
pub open spec fn survivors(hs: Seq<Household>, marks: Seq<bool>) -> Seq<Household>
    decreases hs.len(),
{
    if hs.len() == 0 {
        Seq::empty()
    } else if marks[0] {
        survivors(hs.skip(1), marks.skip(1))
    } else {
        seq![hs[0]] + survivors(hs.skip(1), marks.skip(1))
    }
}

/// The household that may die at some chance: it has some hunger.
pub open spec fn may_die(h: Household) -> bool {
    h.hunger > 0
}

/// The household that may live at some chance: its hunger is below the
/// death rate.
pub open spec fn may_live(h: Household) -> bool {
    h.hunger * DEATH_DEN < SCALE
}

/// The marks fit the settlements: there is one for every household.
pub open spec fn marks_fit(ss: Seq<Settlement>, marks: Seq<Vec<bool>>) -> bool {
    &&& marks.len() == ss.len()
    &&& forall|m: int| 0 <= m < ss.len() ==> (#[trigger] marks[m]).len() == ss[m].households.len()
}

/// The settlement `s` is a settlement of `start` without those of its
/// households that are marked.
pub open spec fn thinned(start: Seq<Settlement>, marks: Seq<Vec<bool>>, s: Settlement) -> bool {
    exists|m: int|
        0 <= m < start.len() && (#[trigger] start[m]).id == s.id && start[m].position
            == s.position && s.households@ == survivors(start[m].households@, marks[m]@)
}

/// A settlement with this id is among `ss`.
pub open spec fn lasting(ss: Seq<Settlement>, id: u32) -> bool {
    exists|k: int| 0 <= k < ss.len() && (#[trigger] ss[k]).id == id
}

/// `after` holds the settlements of `start` without the households that are
/// marked and without the settlements of which no household is left. The
/// households that are left stand in the order in which they stood.
pub open spec fn culled(
    start: Seq<Settlement>,
    marks: Seq<Vec<bool>>,
    after: Seq<Settlement>,
) -> bool {
    &&& forall|k: int|
        0 <= k < after.len() ==> thinned(start, marks, #[trigger] after[k])
            && after[k].households.len() > 0
    &&& forall|m: int|
        0 <= m < start.len() && survivors(start[m].households@, marks[m]@).len() > 0 ==> lasting(
            after,
            (#[trigger] start[m]).id,
        )
}

/// Every survivor is a household that is not marked.
pub proof fn lemma_survivor_from(hs: Seq<Household>, marks: Seq<bool>, k: int) -> (j: int)
    requires
        marks.len() == hs.len(),
        0 <= k < survivors(hs, marks).len(),
    ensures
        0 <= j < hs.len(),
        !marks[j],
        hs[j] == survivors(hs, marks)[k],
    decreases hs.len(),
{
    if marks[0] {
        lemma_survivor_from(hs.skip(1), marks.skip(1), k) + 1
    } else if k == 0 {
        0
    } else {
        lemma_survivor_from(hs.skip(1), marks.skip(1), k - 1) + 1
    }
}

/// Every household that is not marked is a survivor.
pub proof fn lemma_survivor_holds(hs: Seq<Household>, marks: Seq<bool>, j: int) -> (k: int)
    requires
        marks.len() == hs.len(),
        0 <= j < hs.len(),
        !marks[j],
    ensures
        0 <= k < survivors(hs, marks).len(),
        survivors(hs, marks)[k] == hs[j],
    decreases hs.len(),
{
    if j == 0 {
        0
    } else {
        let rest = lemma_survivor_holds(hs.skip(1), marks.skip(1), j - 1);
        if marks[0] {
            rest
        } else {
            rest + 1
        }
    }
}

/// The survivors from a place on are the household at that place, if it is
/// not marked, and the survivors behind it.
pub proof fn lemma_survivors_step(hs: Seq<Household>, marks: Seq<bool>, j: int)
    requires
        marks.len() == hs.len(),
        0 <= j < hs.len(),
    ensures
        survivors(hs.skip(j), marks.skip(j)) == (if marks[j] {
            Seq::<Household>::empty()
        } else {
            seq![hs[j]]
        }) + survivors(hs.skip(j + 1), marks.skip(j + 1)),
        survivors(hs.skip(hs.len() as int), marks.skip(hs.len() as int)) == Seq::<
            Household,
        >::empty(),
        survivors(hs.skip(0), marks.skip(0)) == survivors(hs, marks),
{
    assert(hs.skip(j).skip(1) =~= hs.skip(j + 1));
    assert(marks.skip(j).skip(1) =~= marks.skip(j + 1));
    assert(hs.skip(0) =~= hs);
    assert(marks.skip(0) =~= marks);
    let rest = survivors(hs.skip(j + 1), marks.skip(j + 1));
    assert(Seq::<Household>::empty() + rest =~= rest);
}

/// What the removal of the marked households means for each household:
/// those that are not marked stay, those that are marked are gone, and all
/// that are left were there.
pub proof fn lemma_culled(
    start: Seq<Settlement>,
    marks: Seq<Vec<bool>>,
    after: Seq<Settlement>,
)
    requires
        marks_fit(start, marks),
        culled(start, marks, after),
        forall|n: int, m: int|
            0 <= n < m < start.len() ==> (#[trigger] start[n]).id != (#[trigger] start[m]).id,
        forall|m: int| 0 <= m < start.len() ==> (#[trigger] start[m]).distinct_ids(),
    ensures
        remnant(start, after),
        forall|m: int, j: int|
            0 <= m < start.len() && 0 <= j < start[m].households.len() ==> (marks[m][j]
                <==> !stays(after, start[m], #[trigger] start[m].households[j])),
{
    assert forall|n: int, i: int|
        0 <= n < after.len() && 0 <= i < after[n].households.len() implies kept_from(
        start,
        after[n],
        #[trigger] after[n].households[i],
    ) by {
        assert(thinned(start, marks, after[n]));
        let m = choose|m: int|
            0 <= m < start.len() && (#[trigger] start[m]).id == after[n].id && start[m].position
                == after[n].position && after[n].households@ == survivors(
                start[m].households@,
                marks[m]@,
            );
        let j = lemma_survivor_from(start[m].households@, marks[m]@, i);
        assert(start[m].households[j] == after[n].households[i]);
    }
    assert forall|m: int, j: int|
        0 <= m < start.len() && 0 <= j < start[m].households.len() implies (marks[m][j]
        <==> !stays(after, start[m], #[trigger] start[m].households[j])) by {
        let h = start[m].households[j];
        if !marks[m][j] {
            let k = lemma_survivor_holds(start[m].households@, marks[m]@, j);
            assert(lasting(after, start[m].id));
            let n = choose|n: int| 0 <= n < after.len() && (#[trigger] after[n]).id == start[m].id;
            assert(thinned(start, marks, after[n]));
            let o = choose|o: int|
                0 <= o < start.len() && (#[trigger] start[o]).id == after[n].id
                    && start[o].position == after[n].position && after[n].households@
                    == survivors(start[o].households@, marks[o]@);
            if o < m {
                assert(start[o].id != start[m].id);
            } else if m < o {
                assert(start[m].id != start[o].id);
            }
            assert(after[n].households[k] == h);
        } else if stays(after, start[m], h) {
            let (n, i) = choose|n: int, i: int|
                0 <= n < after.len() && 0 <= i < after[n].households.len() && after[n].id
                    == start[m].id && #[trigger] after[n].households[i] == h;
            assert(thinned(start, marks, after[n]));
            let o = choose|o: int|
                0 <= o < start.len() && (#[trigger] start[o]).id == after[n].id
                    && start[o].position == after[n].position && after[n].households@
                    == survivors(start[o].households@, marks[o]@);
            if o < m {
                assert(start[o].id != start[m].id);
            } else if m < o {
                assert(start[m].id != start[o].id);
            }
            let l = lemma_survivor_from(start[m].households@, marks[m]@, i);
            assert(start[m].households[l] == h);
            if l < j {
                assert(start[m].households[l].id != start[m].households[j].id);
            } else if j < l {
                assert(start[m].households[j].id != start[m].households[l].id);
            }
        }
    }
}

impl World {
    /// The household at place `i` of the settlement at place `n` leaves the
    /// world, and its patch, if it has one, becomes unclaimed. The households
    /// behind it move up.
    fn bury(&mut self, n: usize, i: usize)
        requires
            old(self).sound(),
            n < old(self).settlements.len(),
            i < old(self).settlements[n as int].households.len(),
        ensures
            final(self).sound(),
            final(self).settings == old(self).settings,
            final(self).iteration == old(self).iteration,
            final(self).population_spec() + 1 == old(self).population_spec(),
            final(self).settlements.len() == old(self).settlements.len(),
            forall|m: int|
                0 <= m < old(self).settlements.len() && m != n ==> final(self).settlements[m]
                    == old(self).settlements[m],
            final(self).settlements[n as int].id == old(self).settlements[n as int].id,
            final(self).settlements[n as int].position == old(self).settlements[n as int].position,
            final(self).settlements[n as int].households@
                == old(self).settlements[n as int].households@.remove(i as int),
            patch_of(old(self).settlements@, n as int, i as int) is Some ==> grid_set(
                land_of(old(self).matrix@),
                land_of(final(self).matrix@),
                old(self).side(),
                patch_of(old(self).settlements@, n as int, i as int)->Some_0,
                Cell::Unclaimed,
            ),
            patch_of(old(self).settlements@, n as int, i as int) is None ==> final(self).matrix
                == old(self).matrix,
    {
        let ghost before = self.settlements@;
        let gone: Household = self.settlements[n].households.remove(i);
        match gone.resource_patch {
            Some(p) => {
                assert(patch_of(before, n as int, i as int) == Some(p));
                proof {
                    lemma_land(self.matrix@);
                }
                self.matrix[p.0][p.1] = Cell::Unclaimed;
            },
            None => {},
        }
        proof {
            let after = self.settlements@;
            let size = self.side();
            lemma_land(old(self).matrix@);
            lemma_land(self.matrix@);
            if gone.resource_patch is Some {
                assert(grid_set(
                    land_of(old(self).matrix@),
                    land_of(self.matrix@),
                    size,
                    gone.resource_patch->Some_0,
                    Cell::Unclaimed,
                ));
            }
            lemma_release_kept(
                land_of(old(self).matrix@),
                land_of(self.matrix@),
                before,
                after,
                size,
                n as int,
                i as int,
            );
            assert forall|m: int| 0 <= m < after.len() implies (#[trigger] after[m]).distinct_ids() by {
                assert(before[m].distinct_ids());
                if m == n {
                    assert forall|a: int, b: int|
                        0 <= a < b < after[m].households.len() implies after[m].households[a].id
                        != after[m].households[b].id by {
                        let oa = if a < i {
                            a
                        } else {
                            a + 1
                        };
                        let ob = if b < i {
                            b
                        } else {
                            b + 1
                        };
                        assert(after[m].households[a] == before[m].households[oa]);
                        assert(after[m].households[b] == before[m].households[ob]);
                    }
                }
            }
            assert(populations(after) =~= populations(before).update(
                n as int,
                (before[n as int].households.len() - 1) as nat,
            ));
            lemma_sum_update(
                populations(before),
                n as int,
                (before[n as int].households.len() - 1) as nat,
            );
        }
    }

    /// The marked households of the settlement at place `n` leave the world,
    /// and their patches become unclaimed. Returns how many they are.
    fn thin(&mut self, n: usize, marks: &Vec<bool>) -> (gone: usize)
        requires
            old(self).sound(),
            n < old(self).settlements.len(),
            marks.len() == old(self).settlements[n as int].households.len(),
        ensures
            final(self).sound(),
            final(self).settings == old(self).settings,
            final(self).iteration == old(self).iteration,
            final(self).population_spec() + gone == old(self).population_spec(),
            final(self).settlements.len() == old(self).settlements.len(),
            forall|m: int|
                0 <= m < old(self).settlements.len() && m != n ==> final(self).settlements[m]
                    == old(self).settlements[m],
            final(self).settlements[n as int].id == old(self).settlements[n as int].id,
            final(self).settlements[n as int].position == old(self).settlements[n as int].position,
            final(self).settlements[n as int].households@ == survivors(
                old(self).settlements[n as int].households@,
                marks@,
            ),
            only_released(land_of(old(self).matrix@), land_of(final(self).matrix@), old(self).side()),
            forall|j: int|
                0 <= j < marks.len() && marks[j] ==> freed(
                    land_of(final(self).matrix@),
                    #[trigger] old(self).settlements[n as int].households[j],
                ),
    {
        let ghost start = self.settlements@;
        let ghost hs = self.settlements[n as int].households@;
        let ghost land = land_of(self.matrix@);
        let ghost size = self.side();
        let mut gone: usize = 0;
        let mut j: usize = marks.len();
        proof {
            if hs.len() > 0 {
                lemma_survivors_step(hs, marks@, 0);
            } else {
                assert(hs.skip(0) =~= hs);
            }
            assert(hs.take(j as int) + survivors(hs.skip(j as int), marks@.skip(j as int)) =~= hs);
        }
        while j > 0
            invariant
                self.sound(),
                self.settings == old(self).settings,
                self.iteration == old(self).iteration,
                size == self.side(),
                start == old(self).settlements@,
                land == land_of(old(self).matrix@),
                consistent(land, start, size),
                n < start.len(),
                hs == start[n as int].households@,
                marks.len() == hs.len(),
                j <= marks.len(),
                self.settlements.len() == start.len(),
                forall|m: int| 0 <= m < start.len() && m != n ==> self.settlements[m] == start[m],
                self.settlements[n as int].id == start[n as int].id,
                self.settlements[n as int].position == start[n as int].position,
                self.settlements[n as int].households@ == hs.take(j as int) + survivors(
                    hs.skip(j as int),
                    marks@.skip(j as int),
                ),
                population_of(self.settlements@) + gone == population_of(start),
                population_of(start) <= usize::MAX,
                only_released(land, land_of(self.matrix@), size),
                forall|k: int| j <= k < marks.len() && marks[k]
                    ==> freed(land_of(self.matrix@), #[trigger] hs[k]),
            decreases j,
        {
            j = j - 1;
            let ghost behind = survivors(hs.skip(j + 1), marks@.skip(j + 1));
            proof {
                lemma_survivors_step(hs, marks@, j as int);
            }
            if marks[j] {
                let ghost was = land_of(self.matrix@);
                let ghost before = self.settlements@;
                assert(before[n as int].households[j as int] == hs[j as int]);
                self.bury(n, j);
                proof {
                    assert(self.settlements[n as int].households@ =~= hs.take(j as int) + behind);
                    let gone_patch = hs[j as int].resource_patch;
                    assert(patch_of(before, n as int, j as int) == gone_patch);
                    if gone_patch is Some {
                        assert(cell_of(was, gone_patch->Some_0) == Cell::Claimed(before[n as int].id));
                    }
                    assert forall|p: Index| p.inside(size) implies #[trigger] cell_of(
                        land_of(self.matrix@),
                        p,
                    ) == cell_of(land, p) || (cell_of(land, p) is Claimed && cell_of(
                        land_of(self.matrix@),
                        p,
                    ) == Cell::Unclaimed) by {
                        assert(cell_of(was, p) == cell_of(land, p) || (cell_of(land, p)
                            is Claimed && cell_of(was, p) == Cell::Unclaimed));
                    }
                    assert forall|k: int| j <= k < marks.len() && marks[k] implies freed(
                        land_of(self.matrix@),
                        #[trigger] hs[k],
                    ) by {
                        if k > j && hs[k].resource_patch is Some {
                            assert(patch_of(start, n as int, k) == hs[k].resource_patch);
                            assert(hs[k].resource_patch->Some_0.inside(size));
                        }
                    }
                }
                gone = gone + 1;
            } else {
                proof {
                    assert(hs.take(j + 1) + behind =~= hs.take(j as int) + (seq![hs[j as int]]
                        + behind));
                }
            }
        }
        proof {
            assert(hs.take(0) + survivors(hs, marks@) =~= survivors(hs, marks@));
            if hs.len() > 0 {
                lemma_survivors_step(hs, marks@, 0);
            } else {
                assert(hs.skip(0) =~= hs);
                assert(marks@.skip(0) =~= marks@);
            }
        }
        gone
    }

    /// Every household takes the death test at a chance of its own. Returns
    /// for each household whether it dies.
    pub(crate) fn draw_deaths(&mut self) -> (marks: Vec<Vec<bool>>)
        ensures
            final(self).settings == old(self).settings,
            final(self).iteration == old(self).iteration,
            final(self).matrix == old(self).matrix,
            final(self).settlements == old(self).settlements,
            marks_fit(old(self).settlements@, marks@),
            forall|m: int, j: int|
                0 <= m < old(self).settlements.len() && 0
                    <= j < old(self).settlements[m].households.len() ==> if marks[m][j] {
                    may_die(#[trigger] old(self).settlements[m].households[j])
                } else {
                    may_live(old(self).settlements[m].households[j])
                },
    {
        let mut marks: Vec<Vec<bool>> = Vec::new();
        let mut n: usize = 0;
        while n < self.settlements.len()
            invariant
                self.settings == old(self).settings,
                self.iteration == old(self).iteration,
                self.matrix == old(self).matrix,
                self.settlements == old(self).settlements,
                n <= self.settlements.len(),
                marks.len() == n,
                forall|m: int|
                    0 <= m < n ==> (#[trigger] marks[m]).len() == self.settlements[m].households.len(),
                forall|m: int, j: int|
                    0 <= m < n && 0 <= j < self.settlements[m].households.len() ==> if marks[m][j] {
                        may_die(#[trigger] self.settlements[m].households[j])
                    } else {
                        may_live(self.settlements[m].households[j])
                    },
            decreases self.settlements.len() - n,
        {
            let mut row: Vec<bool> = Vec::new();
            let mut i: usize = 0;
            while i < self.settlements[n].households.len()
                invariant
                    self.settings == old(self).settings,
                    self.iteration == old(self).iteration,
                    self.matrix == old(self).matrix,
                    self.settlements == old(self).settlements,
                    n < self.settlements.len(),
                    i <= self.settlements[n as int].households.len(),
                    row.len() == i,
                    forall|j: int|
                        0 <= j < i ==> if row[j] {
                            may_die(#[trigger] self.settlements[n as int].households[j])
                        } else {
                            may_live(self.settlements[n as int].households[j])
                        },
                decreases self.settlements[n as int].households.len() - i,
            {
                let test: u64 = chance(&mut self.rng);
                let dies: bool = self.settlements[n].households[i].death(test);
                assert(DEATH_DEN == 100 && SCALE == 1_000_000);
                row.push(dies);
                i = i + 1;
            }
            marks.push(row);
            n = n + 1;
        }
        marks
    }

    /// The marked households leave the world together, and their patches
    /// become unclaimed. A settlement that is left without households leaves
    /// the world too, and the last settlement takes its place. Returns how
    /// many households have gone.
    pub fn remove_dead(&mut self, marks: &Vec<Vec<bool>>) -> (deaths: usize)
        requires
            old(self).sound(),
            marks_fit(old(self).settlements@, marks@),
        ensures
            final(self).sound(),
            final(self).settings == old(self).settings,
            final(self).iteration == old(self).iteration,
            final(self).population_spec() + deaths == old(self).population_spec(),
            culled(old(self).settlements@, marks@, final(self).settlements@),
            only_released(land_of(old(self).matrix@), land_of(final(self).matrix@), old(self).side()),
            forall|m: int, j: int|
                0 <= m < old(self).settlements.len() && 0
                    <= j < old(self).settlements[m].households.len() && marks[m][j] ==> freed(
                    land_of(final(self).matrix@),
                    #[trigger] old(self).settlements[m].households[j],
                ),
    {
        let ghost start = self.settlements@;
        let ghost land = land_of(self.matrix@);
        let ghost size = self.side();
        let mut deaths: usize = 0;
        let mut n: usize = 0;
        while n < self.settlements.len()
            invariant
                self.sound(),
                self.settings == old(self).settings,
                self.iteration == old(self).iteration,
                size == self.side(),
                start == old(self).settlements@,
                land == land_of(old(self).matrix@),
                consistent(land, start, size),
                marks_fit(start, marks@),
                n <= start.len(),
                self.settlements.len() == start.len(),
                forall|m: int|
                    0 <= m < start.len() ==> (#[trigger] self.settlements[m]).id == start[m].id
                        && self.settlements[m].position == start[m].position,
                forall|m: int|
                    0 <= m < n ==> (#[trigger] self.settlements[m]).households@ == survivors(
                        start[m].households@,
                        marks[m]@,
                    ),
                forall|m: int| n <= m < start.len() ==> self.settlements[m] == start[m],
                population_of(self.settlements@) + deaths == population_of(start),
                population_of(start) <= usize::MAX,
                only_released(land, land_of(self.matrix@), size),
                forall|m: int, j: int|
                    0 <= m < n && 0 <= j < start[m].households.len() && marks[m][j] ==> freed(
                        land_of(self.matrix@),
                        #[trigger] start[m].households[j],
                    ),
            decreases start.len() - n,
        {
            let ghost was = land_of(self.matrix@);
            let ghost before = self.settlements@;
            let gone: usize = self.thin(n, &marks[n]);
            proof {
                assert forall|p: Index| p.inside(size) implies #[trigger] cell_of(land_of(self.matrix@), p)
                    == cell_of(land, p) || (cell_of(land, p) is Claimed && cell_of(
                    land_of(self.matrix@),
                    p,
                ) == Cell::Unclaimed) by {
                    assert(cell_of(was, p) == cell_of(land, p) || (cell_of(land, p) is Claimed
                        && cell_of(was, p) == Cell::Unclaimed));
                    assert(cell_of(land_of(self.matrix@), p) == cell_of(was, p) || (cell_of(was, p)
                        is Claimed && cell_of(land_of(self.matrix@), p) == Cell::Unclaimed));
                }
                assert forall|m: int, j: int|
                    0 <= m < n + 1 && 0 <= j < start[m].households.len()
                        && marks[m][j] implies freed(
                    land_of(self.matrix@),
                    #[trigger] start[m].households[j],
                ) by {
                    let h = start[m].households[j];
                    if m < n {
                        assert(freed(was, h));
                        if h.resource_patch is Some {
                            assert(patch_of(start, m, j) == h.resource_patch);
                            let q = h.resource_patch->Some_0;
                            assert(q.inside(size));
                            assert(cell_of(land_of(self.matrix@), q) == cell_of(was, q) || (cell_of(was, q)
                                is Claimed && cell_of(land_of(self.matrix@), q) == Cell::Unclaimed));
                        }
                    } else {
                        assert(before[n as int] == start[n as int]);
                    }
                }
                assert forall|m: int| 0 <= m < n + 1 implies (
                #[trigger] self.settlements[m]).households@ == survivors(
                    start[m].households@,
                    marks[m]@,
                ) by {
                    if m < n {
                        assert(self.settlements[m] == before[m]);
                    }
                }
            }
            deaths = deaths + gone;
            n = n + 1;
        }
        let ghost thin = self.settlements@;
        proof {
            assert forall|k: int| 0 <= k < thin.len() implies thinned(
                start,
                marks@,
                #[trigger] thin[k],
            ) by {
                assert(start[k].id == thin[k].id);
            }
            assert forall|m: int|
                0 <= m < start.len() && survivors(start[m].households@, marks[m]@).len()
                    > 0 implies lasting(thin, (#[trigger] start[m]).id) by {
                assert(thin[m].id == start[m].id);
            }
        }
        n = 0;
        while n < self.settlements.len()
            invariant
                self.sound(),
                self.settings == old(self).settings,
                self.iteration == old(self).iteration,
                only_released(land, land_of(self.matrix@), size),
                size == self.side(),
                consistent(land, start, size),
                marks_fit(start, marks@),
                n <= self.settlements.len(),
                population_of(self.settlements@) + deaths == population_of(start),
                forall|k: int|
                    0 <= k < self.settlements.len() ==> thinned(
                        start,
                        marks@,
                        #[trigger] self.settlements[k],
                    ),
                forall|m: int|
                    0 <= m < start.len() && survivors(start[m].households@, marks[m]@).len() > 0
                        ==> lasting(self.settlements@, (#[trigger] start[m]).id),
                forall|m: int| 0 <= m < n ==> (#[trigger] self.settlements[m]).households.len() > 0,
                forall|m: int, j: int|
                    0 <= m < start.len() && 0 <= j < start[m].households.len() && marks[m][j]
                        ==> freed(land_of(self.matrix@), #[trigger] start[m].households[j]),
            decreases self.settlements.len() - n,
        {
            if self.settlements[n].households.len() == 0 {
                let ghost before = self.settlements@;
                self.settlements.swap_remove(n);
                proof {
                    let after = self.settlements@;
                    lemma_delete_kept(land_of(self.matrix@), before, after, size, n as int);
                    let last = before.len() - 1;
                    assert forall|m: int| 0 <= m < after.len() implies #[trigger] after[m]
                        == before[if m == n {
                        last
                    } else {
                        m
                    }] by {}
                    assert forall|m: int| 0 <= m < after.len() implies (
                    #[trigger] after[m]).distinct_ids() by {
                        let o = if m == n {
                            last
                        } else {
                            m
                        };
                        assert(after[m] == before[o]);
                        assert(before[o].distinct_ids());
                    }
                    lemma_population_without(before, n as int);
                    assert forall|k: int| 0 <= k < after.len() implies thinned(
                        start,
                        marks@,
                        #[trigger] after[k],
                    ) by {
                        let o = if k == n {
                            last
                        } else {
                            k
                        };
                        assert(after[k] == before[o]);
                        assert(thinned(start, marks@, before[o]));
                    }
                    assert forall|m: int|
                        0 <= m < start.len() && survivors(start[m].households@, marks[m]@).len()
                            > 0 implies lasting(after, (#[trigger] start[m]).id) by {
                        assert(lasting(before, start[m].id));
                        let k = choose|k: int|
                            0 <= k < before.len() && (#[trigger] before[k]).id == start[m].id;
                        assert(thinned(start, marks@, before[k]));
                        let o = choose|o: int|
                            0 <= o < start.len() && (#[trigger] start[o]).id == before[k].id
                                && start[o].position == before[k].position
                                && before[k].households@ == survivors(
                                start[o].households@,
                                marks[o]@,
                            );
                        if o < m {
                            assert(start[o].id != start[m].id);
                        } else if m < o {
                            assert(start[m].id != start[o].id);
                        }
                        assert(k != n);
                        let to = if k == last {
                            n as int
                        } else {
                            k
                        };
                        assert(after[to] == before[k]);
                    }
                    assert forall|m: int| 0 <= m < n implies (
                    #[trigger] after[m]).households.len() > 0 by {
                        assert(after[m] == before[m]);
                    }
                }
            } else {
                n = n + 1;
            }
        }
        deaths
    }

    /// The fourth phase of a tick. Every household takes the death test;
    /// then those that failed leave together, and their patches become
    /// unclaimed. A settlement that is left without households leaves the
    /// world. Returns how many died. A household without hunger is sure to
    /// stay, and one whose hunger is not below the death rate is sure to go.
    pub(crate) fn iterate_death(&mut self) -> (deaths: usize)
        requires
            old(self).sound(),
        ensures
            died_step(old(self).side(), old(self).scene(), final(self).scene()),
            final(self).sound(),
            final(self).settings == old(self).settings,
            final(self).iteration == old(self).iteration,
            final(self).population_spec() + deaths == old(self).population_spec(),
            remnant(old(self).settlements@, final(self).settlements@),
            only_released(land_of(old(self).matrix@), land_of(final(self).matrix@), old(self).side()),
            stays_or_freed(old(self).settlements@, final(self).settlements@, land_of(final(self).matrix@)),
            forall|n: int|
                0 <= n < final(self).settlements.len()
                    ==> (#[trigger] final(self).settlements[n]).households.len() > 0,
            forall|m: int, j: int|
                0 <= m < old(self).settlements.len() && 0
                    <= j < old(self).settlements[m].households.len() ==> if stays(
                    final(self).settlements@,
                    old(self).settlements[m],
                    #[trigger] old(self).settlements[m].households[j],
                ) {
                    may_live(old(self).settlements[m].households[j])
                } else {
                    may_die(old(self).settlements[m].households[j])
                },
    {
        let ghost start = self.settlements@;
        let marks: Vec<Vec<bool>> = self.draw_deaths();
        let deaths: usize = self.remove_dead(&marks);
        proof {
            lemma_culled(start, marks@, self.settlements@);
            assert(deaths_drawn(old(self).scene().people, marks@));
            assert(culled(old(self).scene().people, marks@, self.scene().people));
            assert forall|m: int, j: int|
                0 <= m < start.len() && 0 <= j < start[m].households.len()
                    && marks@[m][j] implies freed(
                self.scene().land,
                #[trigger] old(self).scene().people[m].households[j],
            ) by {
                assert(freed(land_of(self.matrix@), old(self).settlements[m].households[j]));
            }
        }
        deaths
    }
}

/// A settlement without households takes nothing from the population when
/// it leaves and the last settlement takes its place.
pub proof fn lemma_population_without(ss: Seq<Settlement>, n: int)
    requires
        0 <= n < ss.len(),
        ss[n].households.len() == 0,
    ensures
        population_of(ss.update(n, ss.last()).drop_last()) == population_of(ss),
{
    let heads = populations(ss);
    let last = ss.len() - 1;
    let moved = heads.update(n, heads[last]);
    assert(populations(ss.update(n, ss.last()).drop_last()) =~= moved.drop_last());
    lemma_sum_update(heads, n, heads[last]);
    assert(sum(moved) == sum(moved.drop_last()) + moved.last());
    if n == last {
        assert(moved.last() == heads[last]);
    } else {
        assert(moved.last() == heads[last]);
    }
}

} // verus!
