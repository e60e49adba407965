//! The world: the grid, the settlements that live on it, and the yearly round.

use crate::birth::grown;
use crate::death::{
    freed, kept_from, lemma_remnant_bounded, may_live, only_released, remnant, stays,
    stays_or_freed,
};
use crate::grid::{Cell, Index};
use crate::household::Household;
use crate::random::{draw_below, seeded};
use crate::resource::ResourceGenerator;
use crate::search::{
    find_unclaimed, lemma_claim_elsewhere, no_free_cell, none_nearer, search_from, walk_of,
};
use crate::settings::{ConfigError, Settings};
use crate::settlement::{lemma_max_id_by_ids, provisioned, Settlement};
use crate::sums::{
    lemma_sum_all, lemma_sum_constant, lemma_sum_monotone, lemma_sum_step, lemma_sum_update, sum,
};
use crate::tick::{
    born_step, decayed_step, died_step, fed_step, searched_step, settle, tick, Scene,
};
use crate::territory::{lemma_land, land_of, 
    cell_of, consistent, extends_layout, free_cells, free_in_row, free_rows, grid_ok, grid_set,
    lemma_claim_kept, lemma_found_kept, lemma_free_all, lemma_free_step, lemma_free_taken,
    lemma_layout_kept, lemma_one_owner, owns, patch_of,
};
use crate::units::{scaled, GROWTH, MUTATION_AMPL, SCALE};
use rand::rngs::StdRng;
use vstd::prelude::*;

verus! {

/// How many households each settlement has, in the order of the settlements.
pub open spec fn populations(ss: Seq<Settlement>) -> Seq<nat> {
    ss.map_values(|s: Settlement| s.households.len() as nat)
}

/// How many households there are in all.
pub open spec fn population_of(ss: Seq<Settlement>) -> nat {
    sum(populations(ss))
}

/// Every household stays within the two limits.
pub open spec fn bounded(ss: Seq<Settlement>, status_limit: int, gene_limit: int) -> bool {
    forall|n: int, i: int|
        0 <= n < ss.len() && 0 <= i < ss[n].households.len() ==> (#[trigger] ss[n].households[i]).within(
            status_limit,
            gene_limit,
        )
}

/// Within each settlement no two households share an id.
pub open spec fn members_distinct(ss: Seq<Settlement>) -> bool {
    forall|n: int| 0 <= n < ss.len() ==> (#[trigger] ss[n]).distinct_ids()
}

/// `after` holds the settlements of `before`, each with as many households.
pub open spec fn same_frame(before: Seq<Settlement>, after: Seq<Settlement>) -> bool {
    &&& before.len() == after.len()
    &&& forall|n: int|
        0 <= n < before.len() ==> {
            &&& (#[trigger] after[n]).id == before[n].id
            &&& after[n].position == before[n].position
            &&& after[n].households.len() == before[n].households.len()
        }
}

/// The households of `after` are those of `before` but for resources, load
/// and hunger.
pub open spec fn ledgers_only(before: Seq<Settlement>, after: Seq<Settlement>) -> bool {
    &&& same_frame(before, after)
    &&& forall|n: int, i: int|
        0 <= n < before.len() && 0 <= i < before[n].households.len() ==> (
        #[trigger] after[n].households[i]) == (Household {
            resources: after[n].households[i].resources,
            load: after[n].households[i].load,
            hunger: after[n].households[i].hunger,
            ..before[n].households[i]
        })
}

/// No household of `after` has less load than it had in `before`.
pub open spec fn loads_kept(before: Seq<Settlement>, after: Seq<Settlement>) -> bool {
    forall|n: int, i: int|
        0 <= n < before.len() && 0 <= i < before[n].households.len() ==> (
        #[trigger] after[n].households[i]).load >= before[n].households[i].load
}

/// The households of `after` are those of `before`, but some that had no
/// patch have one.
pub open spec fn patches_only(before: Seq<Settlement>, after: Seq<Settlement>) -> bool {
    &&& same_frame(before, after)
    &&& forall|n: int, i: int|
        0 <= n < before.len() && 0 <= i < before[n].households.len() ==> {
            &&& (#[trigger] after[n].households[i]) == (Household {
                resource_patch: after[n].households[i].resource_patch,
                ..before[n].households[i]
            })
            &&& before[n].households[i].resource_patch is Some ==> after[n].households[i].resource_patch
                == before[n].households[i].resource_patch
        }
}

/// A change of resources, load and hunger alone leaves the world sound.
pub proof fn lemma_ledgers_sound(
    matrix: Seq<Seq<Cell>>,
    before: Seq<Settlement>,
    after: Seq<Settlement>,
    size: int,
)
    requires
        consistent(matrix, before, size),
        members_distinct(before),
        ledgers_only(before, after),
    ensures
        consistent(matrix, after, size),
        members_distinct(after),
        populations(after) == populations(before),
{
    assert(extends_layout(before, after)) by {
        assert forall|n: int, i: int|
            0 <= n < before.len() && 0 <= i < after[n].households.len() implies #[trigger] patch_of(
            after,
            n,
            i,
        ) == (if i < before[n].households.len() {
            patch_of(before, n, i)
        } else {
            None
        }) by {
            assert(after[n].households[i].resource_patch == before[n].households[i].resource_patch);
        }
    }
    lemma_layout_kept(matrix, before, after, size);
    assert forall|n: int| 0 <= n < after.len() implies (#[trigger] after[n]).distinct_ids() by {
        assert(before[n].distinct_ids());
        assert forall|i: int, j: int| 0 <= i < j < after[n].households.len() implies after[n].households[i].id
            != after[n].households[j].id by {
            assert(after[n].households[i].id == before[n].households[i].id);
            assert(after[n].households[j].id == before[n].households[j].id);
        }
    }
    assert(populations(after) =~= populations(before));
}

/// Where only patches differ, limits, counts and ids are as they were.
pub proof fn lemma_patches_keep(
    before: Seq<Settlement>,
    after: Seq<Settlement>,
    status_limit: int,
    gene_limit: int,
)
    requires
        patches_only(before, after),
        bounded(before, status_limit, gene_limit),
    ensures
        bounded(after, status_limit, gene_limit),
        populations(after) == populations(before),
        forall|n: int|
            0 <= n < before.len() ==> (#[trigger] after[n]).max_id_spec()
                == before[n].max_id_spec(),
{
    assert forall|n: int, i: int|
        0 <= n < after.len() && 0 <= i < after[n].households.len() implies (
    #[trigger] after[n].households[i]).within(status_limit, gene_limit) by {
        assert(before[n].households[i].within(status_limit, gene_limit));
    }
    assert(populations(after) =~= populations(before));
    assert forall|n: int| 0 <= n < before.len() implies (#[trigger] after[n]).max_id_spec()
        == before[n].max_id_spec() by {
        assert forall|i: int| 0 <= i < after[n].households.len() implies after[n].households[i].id
            == before[n].households[i].id by {
            assert(after[n].households[i] == (Household {
                resource_patch: after[n].households[i].resource_patch,
                ..before[n].households[i]
            }));
        }
        lemma_max_id_by_ids(after[n].households@, before[n].households@);
    }
}

/// How a cell may change in one tick: not at all, from unclaimed to
/// claimed, or from claimed to unclaimed.
pub open spec fn cell_step(before: Cell, after: Cell) -> bool {
    ||| after == before
    ||| before == Cell::Unclaimed && after is Claimed
    ||| before is Claimed && after == Cell::Unclaimed
}

/// The household `is` is the household `was` a tick later: it may differ in
/// resources and hunger, it has at least the load it had, and it has the
/// patch it had, or has one where it had none.
pub open spec fn survivor(was: Household, is: Household) -> bool {
    &&& is == (Household {
        resources: is.resources,
        load: is.load,
        hunger: is.hunger,
        resource_patch: is.resource_patch,
        ..was
    })
    &&& is.load >= was.load
    &&& was.resource_patch is Some ==> is.resource_patch == was.resource_patch
}

/// The household was born in this tick: it has no load, no hunger and no patch.
pub open spec fn newborn(h: Household) -> bool {
    &&& h.load == 0
    &&& h.hunger == 0
    &&& h.resource_patch is None
    &&& h.years_since_move == 0
    &&& h.satisfaction == 0
}

/// The household `h` of the settlement `s` comes from `before`: the
/// settlement was there, with its id and its anchor, and the household was
/// one of its households or is a child born to it.
pub open spec fn descends(before: Seq<Settlement>, s: Settlement, h: Household) -> bool {
    exists|m: int|
        0 <= m < before.len() && (#[trigger] before[m]).id == s.id && before[m].position
            == s.position && (newborn(h) || exists|j: int|
            0 <= j < before[m].households.len() && survivor(#[trigger] before[m].households[j], h))
}

/// Every household of `after` comes from `before`.
pub open spec fn descended(before: Seq<Settlement>, after: Seq<Settlement>) -> bool {
    forall|n: int, i: int|
        0 <= n < after.len() && 0 <= i < after[n].households.len() ==> descends(
            before,
            after[n],
            #[trigger] after[n].households[i],
        )
}

/// The household `was` of the settlement `s` is among the households of
/// that settlement in `after`, a tick later.
pub open spec fn lives_on(after: Seq<Settlement>, s: Settlement, was: Household) -> bool {
    exists|n: int, i: int|
        0 <= n < after.len() && 0 <= i < after[n].households.len() && after[n].id == s.id
            && survivor(was, #[trigger] after[n].households[i])
}

/// Every household of `before` lives on in `after`, or its patch is
/// unclaimed on the grid `land`.
pub open spec fn lives_or_freed(
    before: Seq<Settlement>,
    after: Seq<Settlement>,
    land: Seq<Seq<Cell>>,
) -> bool {
    forall|m: int, j: int|
        0 <= m < before.len() && 0 <= j < before[m].households.len() ==> lives_on(
            after,
            before[m],
            #[trigger] before[m].households[j],
        ) || freed(land, before[m].households[j])
}

/// After the five phases of a tick every household from before the tick
/// lives on, or its patch is unclaimed.
proof fn lemma_lives_or_freed(
    start: Seq<Settlement>,
    searched: Seq<Settlement>,
    fed: Seq<Settlement>,
    grown_up: Seq<Settlement>,
    left: Seq<Settlement>,
    last: Seq<Settlement>,
    land: Seq<Seq<Cell>>,
)
    requires
        patches_only(start, searched),
        ledgers_only(searched, fed),
        loads_kept(searched, fed),
        grown(fed, grown_up),
        stays_or_freed(grown_up, left, land),
        same_frame(left, last),
        forall|n: int, i: int|
            0 <= n < left.len() && 0 <= i < left[n].households.len() ==> (
            #[trigger] last[n].households[i]) == (Household {
                resources: last[n].households[i].resources,
                ..left[n].households[i]
            }),
    ensures
        lives_or_freed(start, last, land),
{
    assert forall|m: int, j: int|
        0 <= m < start.len() && 0 <= j < start[m].households.len() implies lives_on(
        last,
        start[m],
        #[trigger] start[m].households[j],
    ) || freed(land, start[m].households[j]) by {
        let a = start[m].households[j];
        let b = searched[m].households[j];
        let c = fed[m].households[j];
        let d = grown_up[m].households[j];
        assert(b == (Household { resource_patch: b.resource_patch, ..a }));
        assert(c == (Household { resources: c.resources, load: c.load, hunger: c.hunger, ..b }));
        assert(c.load >= b.load);
        assert(d == (Household { resources: d.resources, ..c }));
        assert(grown_up[m].id == fed[m].id && fed[m].id == searched[m].id && searched[m].id
            == start[m].id);
        assert(stays(left, grown_up[m], grown_up[m].households[j]) || freed(
            land,
            grown_up[m].households[j],
        ));
        if stays(left, grown_up[m], d) {
            let (n, i) = choose|n: int, i: int|
                0 <= n < left.len() && 0 <= i < left[n].households.len() && left[n].id
                    == grown_up[m].id && #[trigger] left[n].households[i] == d;
            let f = last[n].households[i];
            assert(f == (Household { resources: f.resources, ..left[n].households[i] }));
            assert(survivor(a, last[n].households[i]));
            assert(last[n].id == left[n].id);
        }
    }
}

/// What the five phases of a tick do one after the other leaves households
/// that come from those before the tick.
proof fn lemma_descended(
    start: Seq<Settlement>,
    searched: Seq<Settlement>,
    fed: Seq<Settlement>,
    grown_up: Seq<Settlement>,
    left: Seq<Settlement>,
    last: Seq<Settlement>,
)
    requires
        patches_only(start, searched),
        ledgers_only(searched, fed),
        loads_kept(searched, fed),
        grown(fed, grown_up),
        remnant(grown_up, left),
        same_frame(left, last),
        forall|n: int, i: int|
            0 <= n < left.len() && 0 <= i < left[n].households.len() ==> (
            #[trigger] last[n].households[i]) == (Household {
                resources: last[n].households[i].resources,
                ..left[n].households[i]
            }),
    ensures
        descended(start, last),
{
    assert forall|n: int, i: int|
        0 <= n < last.len() && 0 <= i < last[n].households.len() implies descends(
        start,
        last[n],
        #[trigger] last[n].households[i],
    ) by {
        let h = last[n].households[i];
        let e = left[n].households[i];
        assert(h == (Household { resources: h.resources, ..e }));
        assert(kept_from(grown_up, left[n], e));
        let (m, j) = choose|m: int, j: int|
            0 <= m < grown_up.len() && 0 <= j < grown_up[m].households.len() && grown_up[m].id
                == left[n].id && grown_up[m].position == left[n].position
                && #[trigger] grown_up[m].households[j] == e;
        assert(grown_up[m].id == fed[m].id && fed[m].id == searched[m].id && searched[m].id
            == start[m].id);
        assert(grown_up[m].position == fed[m].position && fed[m].position == searched[m].position
            && searched[m].position == start[m].position);
        if j < fed[m].households.len() {
            let c = fed[m].households[j];
            let b = searched[m].households[j];
            let a = start[m].households[j];
            assert(e == (Household { resources: e.resources, ..c }));
            assert(c == (Household { resources: c.resources, load: c.load, hunger: c.hunger, ..b }));
            assert(c.load >= b.load);
            assert(b == (Household { resource_patch: b.resource_patch, ..a }));
            assert(survivor(start[m].households[j], h));
        } else {
            assert(newborn(e));
        }
        assert(start[m].id == last[n].id);
    }
}

/// The most that the status of a household can be after `ticks` ticks.
pub open spec fn status_limit(ticks: int) -> int {
    GROWTH * ticks
}

/// The most that a gene can be after `ticks` ticks.
pub open spec fn gene_limit(ticks: int) -> int {
    SCALE + MUTATION_AMPL * ticks
}

/// Some settlement has its anchor at `p`.
pub open spec fn anchor_at(ss: Seq<Settlement>, p: Index) -> bool {
    exists|n: int| 0 <= n < ss.len() && (#[trigger] ss[n]).position == p
}

/// A grid of side `size` on which every cell is unclaimed.
fn blank_grid(size: u16) -> (matrix: Vec<Vec<Cell>>)
    ensures
        grid_ok(land_of(matrix@), size as int),
        forall|p: Index| p.inside(size as int) ==> cell_of(land_of(matrix@), p) == Cell::Unclaimed,
        free_cells(land_of(matrix@)) == size * size,
{
    let mut matrix: Vec<Vec<Cell>> = Vec::new();
    let mut r: u16 = 0;
    while r < size
        invariant
            r <= size,
            matrix.len() == r,
            forall|k: int| 0 <= k < r ==> (#[trigger] matrix[k]).len() == size,
            forall|k: int, c: int|
                0 <= k < r && 0 <= c < size ==> (#[trigger] matrix[k]@[c]) == Cell::Unclaimed,
        decreases size - r,
    {
        let mut row: Vec<Cell> = Vec::new();
        let mut c: u16 = 0;
        while c < size
            invariant
                c <= size,
                row.len() == c,
                forall|k: int| 0 <= k < c ==> row[k] == Cell::Unclaimed,
            decreases size - c,
        {
            row.push(Cell::Unclaimed);
            c = c + 1;
        }
        matrix.push(row);
        r = r + 1;
    }
    proof {
        assert forall|k: int| 0
            <= k < free_rows(land_of(matrix@)).len() implies free_rows(land_of(matrix@))[k]
            == size as nat by {
            lemma_free_all(matrix[k]@);
        }
        lemma_sum_constant(free_rows(land_of(matrix@)), size as nat);
    }
    matrix
}

/// The unclaimed cell before which, reading the grid row by row, `target`
/// unclaimed cells stand.
pub fn nth_free(matrix: &Vec<Vec<Cell>>, size: u16, target: u64) -> (p: Index)
    requires
        grid_ok(land_of(matrix@), size as int),
        target < free_cells(land_of(matrix@)),
    ensures
        p.inside(size as int),
        cell_of(land_of(matrix@), p) == Cell::Unclaimed,
        sum(free_rows(land_of(matrix@)).take(p.0 as int)) + free_in_row(
            land_of(matrix@)[p.0 as int].take(p.1 as int),
        ) == target,
{
    let mut r: usize = 0;
    let mut c: usize = 0;
    let mut skipped: u64 = 0;
    proof {
        lemma_land(matrix@);
        lemma_sum_all(free_rows(land_of(matrix@)));
        if size == 0 {
            assert(free_rows(land_of(matrix@)) =~= Seq::<nat>::empty());
        }
        lemma_free_step(matrix[0]@, 0);
    }
    while !(matrix[r][c] == Cell::Unclaimed && skipped == target)
        invariant
            grid_ok(land_of(matrix@), size as int),
            matrix.len() == size,
            forall|k: int| 0 <= k < size ==> (#[trigger] matrix[k]).len() == size,
            r < size,
            c < size,
            skipped == sum(free_rows(land_of(matrix@)).take(r as int)) + free_in_row(
                matrix[r as int]@.take(c as int),
            ),
            skipped <= target < free_cells(land_of(matrix@)),
        decreases size - r, size - c,
    {
        proof {
            lemma_land(matrix@);
            lemma_free_step(matrix[r as int]@, c as int);
            lemma_sum_step(free_rows(land_of(matrix@)), r as int);
            lemma_sum_all(free_rows(land_of(matrix@)));
        }
        if matrix[r][c] == Cell::Unclaimed {
            skipped = skipped + 1;
        }
        if c + 1 < size as usize {
            c = c + 1;
        } else {
            proof {
                if r + 1 < size {
                    lemma_free_step(matrix[r + 1]@, 0);
                }
            }
            r = r + 1;
            c = 0;
        }
    }
    Index(r, c)
}

/// What one tick has done to the population.
#[derive(Clone, Copy, PartialEq, Eq, Debug)]
pub struct TickReport {
    /// How many households were born.
    pub births: usize,
    /// How many households died.
    pub deaths: usize,
}

/// In a sound world every claimed cell is the patch of one household of the
/// settlement that claimed it, and of no other household of that settlement.
pub proof fn lemma_claimed_cell_has_one_owner(world: World, p: Index) -> (owner: (int, int))
    requires
        world.sound(),
        p.inside(world.side()),
        cell_of(land_of(world.matrix@), p) is Claimed,
    ensures
        owns(world.settlements@, owner.0, owner.1, cell_of(land_of(world.matrix@), p)->Claimed_0, p),
        forall|n: int, i: int|
            owns(world.settlements@, n, i, cell_of(land_of(world.matrix@), p)->Claimed_0, p) ==> n
                == owner.0 && i == owner.1,
{
    let sid = cell_of(land_of(world.matrix@), p)->Claimed_0;
    let (n, i) = choose|n: int, i: int| #[trigger] owns(world.settlements@, n, i, sid, p);
    assert forall|m: int, j: int| owns(world.settlements@, m, j, sid, p) implies m == n && j
        == i by {
        lemma_one_owner(land_of(world.matrix@), world.settlements@, world.side(), p, sid, n, i, m, j);
    }
    (n, i)
}

/// In a sound world the patch of every household is a cell of the grid that
/// its settlement has claimed, and no household of another settlement has
/// the same patch.
pub proof fn lemma_patch_is_claimed(world: World, n: int, i: int)
    requires
        world.sound(),
        0 <= n < world.settlements.len(),
        0 <= i < world.settlements[n].households.len(),
        patch_of(world.settlements@, n, i) is Some,
    ensures
        patch_of(world.settlements@, n, i)->Some_0.inside(world.side()),
        cell_of(land_of(world.matrix@), patch_of(world.settlements@, n, i)->Some_0) == Cell::Claimed(
            world.settlements[n].id,
        ),
        forall|m: int, j: int|
            0 <= m < world.settlements.len() && 0 <= j < world.settlements[m].households.len()
                && #[trigger] patch_of(world.settlements@, m, j) == patch_of(
                world.settlements@,
                n,
                i,
            ) ==> m == n && j == i,
{
    let ss = world.settlements@;
    let p = patch_of(ss, n, i)->Some_0;
    assert forall|m: int, j: int|
        0 <= m < ss.len() && 0 <= j < ss[m].households.len() && #[trigger] patch_of(ss, m, j)
            == patch_of(ss, n, i) implies m == n && j == i by {
        assert(cell_of(land_of(world.matrix@), p) == Cell::Claimed(ss[m].id));
        assert(owns(ss, m, j, ss[n].id, p));
        assert(owns(ss, n, i, ss[n].id, p));
        lemma_one_owner(land_of(world.matrix@), ss, world.side(), p, ss[n].id, n, i, m, j);
    }
}

/// The world of one run.
pub struct World {
    pub settings: Settings,
    /// The cells, row by row.
    pub matrix: Vec<Vec<Cell>>,
    pub settlements: Vec<Settlement>,
    /// How many ticks have passed.
    pub iteration: u32,
    pub rng: StdRng,
}

impl World {
    /// The side of the grid.
    pub open spec fn side(self) -> int {
        self.settings.size as int
    }

    /// The grid and the settlements.
    pub open spec fn scene(self) -> Scene {
        Scene { land: land_of(self.matrix@), people: self.settlements@ }
    }

    /// The configuration is valid, grid and settlements agree about who holds
    /// which cell, ids are unique and the households can be counted.
    pub open spec fn sound(self) -> bool {
        &&& self.settings.fault() is None
        &&& consistent(land_of(self.matrix@), self.settlements@, self.side())
        &&& members_distinct(self.settlements@)
        &&& population_of(self.settlements@) <= usize::MAX
    }

    /// The world is sound, and no household holds more than the ticks so far
    /// can have given it.
    pub open spec fn wf(self) -> bool {
        &&& self.sound()
        &&& bounded(
            self.settlements@,
            status_limit(self.iteration as int),
            gene_limit(self.iteration as int),
        )
    }

    /// How many households there are in all.
    pub open spec fn population_spec(self) -> nat {
        population_of(self.settlements@)
    }

    /// The machine has room for one more tick: the count of ticks can grow,
    /// the population can double, and every settlement has an unused id for
    /// a child of each of its households.
    pub open spec fn room(self) -> bool {
        &&& self.iteration < u32::MAX
        &&& 2 * self.population_spec() <= usize::MAX
        &&& forall|n: int|
            0 <= n < self.settlements.len() ==> (#[trigger] self.settlements[n]).max_id_spec()
                + self.settlements[n].households.len() <= u32::MAX
    }

    /// Whether the machine has room for one more tick.
    pub fn has_room(&self) -> (room: bool)
        requires
            self.sound(),
        ensures
            room == self.room(),
    {
        if self.iteration == u32::MAX {
            return false;
        }
        if self.count_population() > usize::MAX / 2 {
            return false;
        }
        let mut n: usize = 0;
        while n < self.settlements.len()
            invariant
                n <= self.settlements.len(),
                self.iteration < u32::MAX,
                2 * self.population_spec() <= usize::MAX,
                forall|m: int|
                    0 <= m < n ==> (#[trigger] self.settlements[m]).max_id_spec()
                        + self.settlements[m].households.len() <= u32::MAX,
            decreases self.settlements.len() - n,
        {
            let top: u128 = self.settlements[n].max_id() as u128;
            let count: u128 = self.settlements[n].households.len() as u128;
            if top + count > u32::MAX as u128 {
                return false;
            }
            n = n + 1;
        }
        true
    }

    /// One tick: the households look for land; they gather, share and
    /// consume; some have children; some die, and empty settlements end;
    /// resources decay.
    pub fn iterate(&mut self) -> (report: TickReport)
        requires
            old(self).wf(),
            old(self).room(),
        ensures
            tick(old(self).settings, old(self).iteration, old(self).scene(), final(self).scene()),
            final(self).wf(),
            final(self).settings == old(self).settings,
            final(self).iteration == old(self).iteration + 1,
            final(self).population_spec() + report.deaths == old(self).population_spec()
                + report.births,
            forall|n: int|
                0 <= n < final(self).settlements.len()
                    ==> (#[trigger] final(self).settlements[n]).households.len() > 0,
            forall|p: Index|
                p.inside(old(self).side()) ==> cell_step(
                    cell_of(land_of(old(self).matrix@), p),
                    #[trigger] cell_of(land_of(final(self).matrix@), p),
                ),
            descended(old(self).settlements@, final(self).settlements@),
            lives_or_freed(old(self).settlements@, final(self).settlements@, land_of(final(self).matrix@)),
            old(self).population_spec() >= old(self).side() * old(self).side() ==> only_released(
                land_of(old(self).matrix@),
                land_of(final(self).matrix@),
                old(self).side(),
            ),
            forall|n: int, i: int|
                0 <= n < final(self).settlements.len() && 0
                    <= i < final(self).settlements[n].households.len() ==> may_live(
                    #[trigger] final(self).settlements[n].households[i],
                ),
    {
        let ghost size = self.side();
        let ghost land = land_of(self.matrix@);
        let ghost start = self.settlements@;
        let ghost cap = status_limit(self.iteration as int);
        let ghost genes_cap = gene_limit(self.iteration as int);
        let side: u64 = self.settings.size as u64;
        assert(side * side <= 0xffff * 0xffff) by (nonlinear_arith)
            requires
                side <= 0xffff,
        ;
        if (self.count_population() as u64) < side * side {
            self.iterate_settlement();
            proof {
                lemma_patches_keep(start, self.settlements@, cap, genes_cap);
            }
        }
        assert(patches_only(start, self.settlements@));
        let ghost searched = self.settlements@;
        let ghost claimed = land_of(self.matrix@);
        let ghost searched_scene = self.scene();
        assert(forall|n: int|
            0 <= n < searched.len() ==> (#[trigger] searched[n]).max_id_spec()
                + searched[n].households.len() <= u32::MAX) by {
            assert forall|n: int| 0 <= n < searched.len() implies (
            #[trigger] searched[n]).max_id_spec() + searched[n].households.len() <= u32::MAX by {
                assert(start[n].max_id_spec() + start[n].households.len() <= u32::MAX);
            }
        }
        self.iterate_consumption();
        let ghost fed = self.settlements@;
        proof {
            assert forall|n: int| 0 <= n < fed.len() implies (#[trigger] fed[n]).max_id_spec()
                + fed[n].households.len() <= u32::MAX by {
                assert(searched[n].max_id_spec() + searched[n].households.len() <= u32::MAX);
                assert forall|i: int| 0 <= i < fed[n].households.len() implies fed[n].households[i].id
                    == searched[n].households[i].id by {
                    assert(fed[n].households[i] == (Household {
                        resources: fed[n].households[i].resources,
                        load: fed[n].households[i].load,
                        hunger: fed[n].households[i].hunger,
                        ..searched[n].households[i]
                    }));
                }
                lemma_max_id_by_ids(fed[n].households@, searched[n].households@);
            }
        }
        let ghost fed_scene = self.scene();
        let births: usize = self.iterate_birth();
        let ghost grown = self.settlements@;
        let ghost grown_scene = self.scene();
        let deaths: usize = self.iterate_death();
        let ghost left = self.settlements@;
        let ghost left_scene = self.scene();
        proof {
            lemma_remnant_bounded(
                grown,
                left,
                status_limit(self.iteration + 1),
                gene_limit(self.iteration + 1),
            );
        }
        self.iterate_degradation();
        proof {
            let last = self.settlements@;
            assert forall|n: int, i: int|
                0 <= n < last.len() && 0 <= i < last[n].households.len() implies may_live(
                #[trigger] last[n].households[i],
            ) by {
                let e = left[n].households[i];
                assert(kept_from(grown, left[n], e));
                let (m, j) = choose|m: int, j: int|
                    0 <= m < grown.len() && 0 <= j < grown[m].households.len() && grown[m].id
                        == left[n].id && grown[m].position == left[n].position
                        && #[trigger] grown[m].households[j] == e;
                assert(stays(left, grown[m], grown[m].households[j]));
            }
            assert forall|n: int, i: int|
                0 <= n < last.len() && 0 <= i < last[n].households.len() implies (
            #[trigger] last[n].households[i]).within(
                status_limit(self.iteration + 1),
                gene_limit(self.iteration + 1),
            ) by {
                assert(left[n].households[i].within(
                    status_limit(self.iteration + 1),
                    gene_limit(self.iteration + 1),
                ));
                let r = left[n].households[i].resources as int;
                let f = (SCALE - self.settings.degradation) as int;
                assert((r * f) / (SCALE as int) <= r) by (nonlinear_arith)
                    requires
                        0 <= r,
                        0 <= f <= SCALE,
                        SCALE == 1_000_000,
                ;
            }
        }
        proof {
            lemma_descended(start, searched, fed, grown, left, self.settlements@);
            lemma_lives_or_freed(
                start,
                searched,
                fed,
                grown,
                left,
                self.settlements@,
                land_of(self.matrix@),
            );
            assert forall|p: Index| p.inside(size) implies cell_step(
                cell_of(land, p),
                #[trigger] cell_of(land_of(self.matrix@), p),
            ) by {
                assert(cell_of(claimed, p) == cell_of(land, p) || (cell_of(land, p)
                    == Cell::Unclaimed && cell_of(claimed, p) is Claimed));
                assert(cell_of(land_of(self.matrix@), p) == cell_of(claimed, p) || (cell_of(claimed, p)
                    is Claimed && cell_of(land_of(self.matrix@), p) == Cell::Unclaimed));
            }
        }
        proof {
            assert(fed_step(
                old(self).settings.level_spec(old(self).iteration),
                searched_scene,
                fed_scene,
            ));
            assert(born_step(old(self).settings.own_settlement_mates, fed_scene, grown_scene));
            assert(died_step(size, grown_scene, left_scene));
            assert(decayed_step(old(self).settings.degradation, left_scene, self.scene()));
        }
        self.iteration = self.iteration + 1;
        TickReport { births, deaths }
    }

    /// The world at the start of a run: the settlements stand on cells
    /// chosen at random, every other cell is unclaimed, and no household
    /// owns anything. A configuration with a fault is refused.
    pub fn new(settings: Settings) -> (made: Result<World, ConfigError>)
        ensures
            made matches Err(e) ==> settings.fault() == Some(e),
            made matches Ok(w) ==> {
                &&& settings.fault() is None
                &&& w.wf()
                &&& w.settings == settings
                &&& w.iteration == 0
                &&& w.settlements.len() == settings.settlements
                &&& forall|n: int|
                    0 <= n < w.settlements.len() ==> (#[trigger] w.settlements[n]).fresh(
                        n as u32,
                        w.settlements[n].position,
                        settings.households,
                        settings.genes,
                    )
                &&& free_cells(land_of(w.matrix@)) == settings.size * settings.size
                    - settings.settlements
                &&& forall|p: Index|
                    p.inside(settings.size as int) ==> #[trigger] cell_of(land_of(w.matrix@), p)
                        == Cell::Unclaimed || anchor_at(w.settlements@, p)
            },
    {
        match settings.check() {
            Some(e) => {
                return Err(e);
            },
            None => {},
        }
        let size: u16 = settings.size;
        let mut matrix: Vec<Vec<Cell>> = blank_grid(size);
        let mut settlements: Vec<Settlement> = Vec::new();
        let mut rng: StdRng = seeded(settings.seed);
        assert(size * size <= 0xffff * 0xffff) by (nonlinear_arith)
            requires
                size <= 0xffff,
        ;
        let cells: u64 = (size as u64) * (size as u64);
        let mut n: u16 = 0;
        proof {
            assert(populations(settlements@) =~= Seq::<nat>::empty());
        }
        while n < settings.settlements
            invariant
                n <= settings.settlements,
                settings.fault() is None,
                size == settings.size,
                cells == size * size,
                settlements.len() == n,
                consistent(land_of(matrix@), settlements@, size as int),
                free_cells(land_of(matrix@)) == cells - n,
                forall|q: Index|
                    q.inside(size as int) ==> #[trigger] cell_of(land_of(matrix@), q)
                        == Cell::Unclaimed || anchor_at(settlements@, q),
                forall|m: int|
                    0 <= m < n ==> (#[trigger] settlements[m]).fresh(
                        m as u32,
                        settlements[m].position,
                        settings.households,
                        settings.genes,
                    ),
            decreases settings.settlements - n,
        {
            let drawn: u128 = draw_below(&mut rng, (cells - n as u64) as u128);
            let p: Index = nth_free(&matrix, size, drawn as u64);
            let founded: Settlement = Settlement::new(
                n as u32,
                p,
                settings.households,
                settings.genes,
            );
            let ghost before = settlements@;
            let ghost unsettled = land_of(matrix@);
            proof {
                lemma_land(matrix@);
            }
            settlements.push(founded);
            matrix[p.0][p.1] = Cell::Settled(n as u32);
            proof {
                let founded = settlements[n as int];
                lemma_land(matrix@);
                assert(grid_set(unsettled, land_of(matrix@), size as int, p, Cell::Settled(n as u32)));
                lemma_found_kept(unsettled, land_of(matrix@), before, founded, size as int);
                assert(settlements@ =~= before.push(founded));
                assert forall|q: Index| q.inside(size as int) implies #[trigger] cell_of(
                    land_of(matrix@),
                    q,
                ) == Cell::Unclaimed || anchor_at(settlements@, q) by {
                    if q == p {
                        assert(settlements@[n as int].position == q);
                    } else if cell_of(unsettled, q) != Cell::Unclaimed {
                        assert(anchor_at(before, q));
                        let m = choose|m: int| 0 <= m < before.len() && (#[trigger] before[m]).position == q;
                        assert(settlements@[m].position == q);
                    }
                }
                lemma_free_taken(unsettled[p.0 as int], p.1 as int, Cell::Settled(n as u32));
                assert(free_rows(land_of(matrix@)) =~= free_rows(unsettled).update(
                    p.0 as int,
                    free_in_row(matrix[p.0 as int]@),
                ));
                lemma_sum_update(free_rows(unsettled), p.0 as int, free_in_row(matrix[p.0 as int]@));
            }
            n = n + 1;
        }
        proof {
            let ss = settlements@;
            assert forall|m: int| 0 <= m < ss.len() implies (#[trigger] ss[m]).distinct_ids() by {}
            assert forall|m: int, i: int|
                0 <= m < ss.len() && 0 <= i < ss[m].households.len() implies (
            #[trigger] ss[m].households[i]).within(status_limit(0), gene_limit(0)) by {}
            assert forall|m: int| 0 <= m < populations(ss).len() implies populations(ss)[m]
                == settings.households as nat by {}
            lemma_sum_constant(populations(ss), settings.households as nat);
            assert(ss.len() * settings.households <= 0xffff * 0xffff) by (nonlinear_arith)
                requires
                    ss.len() <= 0xffff,
                    settings.households <= 0xffff,
            ;
        }
        Ok(World { settings, matrix, settlements, iteration: 0, rng })
    }

    /// How many ticks have passed.
    pub fn iteration(&self) -> (ticks: u32)
        ensures
            ticks == self.iteration,
    {
        self.iteration
    }

    /// How many settlements there are.
    pub fn count_settlements(&self) -> (count: usize)
        ensures
            count == self.settlements.len(),
    {
        self.settlements.len()
    }

    /// How many households there are in all.
    pub fn count_population(&self) -> (count: usize)
        requires
            self.population_spec() <= usize::MAX,
        ensures
            count == self.population_spec(),
    {
        let mut count: usize = 0;
        let mut n: usize = 0;
        proof {
            lemma_sum_all(populations(self.settlements@));
        }
        while n < self.settlements.len()
            invariant
                n <= self.settlements.len(),
                count == sum(populations(self.settlements@).take(n as int)),
                self.population_spec() <= usize::MAX,
            decreases self.settlements.len() - n,
        {
            proof {
                lemma_sum_step(populations(self.settlements@), n as int);
                lemma_sum_monotone(
                    populations(self.settlements@),
                    n + 1,
                    self.settlements.len() as int,
                );
                lemma_sum_all(populations(self.settlements@));
            }
            count = count + self.settlements[n].population();
            n = n + 1;
        }
        proof {
            lemma_sum_all(populations(self.settlements@));
        }
        count
    }

    /// The state of the cell at a coordinate of the grid.
    pub fn cell(&self, p: Index) -> (cell: Cell)
        requires
            self.sound(),
            p.inside(self.side()),
        ensures
            cell == cell_of(land_of(self.matrix@), p),
    {
        self.matrix[p.0][p.1]
    }

    /// Searches breadth first from the anchor `pos` of the settlement `id`,
    /// through the cells that the settlement has claimed, for an unclaimed
    /// cell. The cell found is one that the least number of steps reaches;
    /// none is found only where no walk leads to one.
    pub fn find_unclaimed_patch(&self, pos: Index, id: u32) -> (found: Option<Index>)
        requires
            grid_ok(land_of(self.matrix@), self.side()),
            pos.inside(self.side()),
        ensures
            found == search_from(
                land_of(self.matrix@),
                self.side(),
                id,
                seq![pos],
                pos.surroundings_spec(self.side()),
            ),
            found matches Some(p) ==> {
                &&& p.inside(self.side())
                &&& p != pos
                &&& cell_of(land_of(self.matrix@), p) == Cell::Unclaimed
                &&& exists|hops: int| #[trigger]
                    walk_of(land_of(self.matrix@), self.side(), pos, id, p, hops) && none_nearer(
                        land_of(self.matrix@),
                        self.side(),
                        pos,
                        id,
                        hops,
                    )
            },
            found is None ==> no_free_cell(land_of(self.matrix@), self.side(), pos, id),
    {
        find_unclaimed(&self.matrix, self.settings.size, pos, id)
    }

    /// The first phase of a tick: every household without a patch looks for
    /// an unclaimed cell next to the land of its settlement and claims the
    /// one it finds. When one household of a settlement finds none, the
    /// others of that settlement do not look in this tick.
    fn iterate_settlement(&mut self)
        requires
            old(self).sound(),
        ensures
            searched_step(old(self).side(), old(self).scene(), final(self).scene()),
            final(self).sound(),
            final(self).settings == old(self).settings,
            final(self).iteration == old(self).iteration,
            final(self).population_spec() == old(self).population_spec(),
            patches_only(old(self).settlements@, final(self).settlements@),
            forall|p: Index|
                p.inside(old(self).side()) ==> cell_of(land_of(final(self).matrix@), p) == cell_of(
                    land_of(old(self).matrix@),
                    p,
                ) || (cell_of(land_of(old(self).matrix@), p) == Cell::Unclaimed && cell_of(
                    land_of(final(self).matrix@),
                    p,
                ) is Claimed),
            forall|n: int, i: int|
                0 <= n < final(self).settlements.len() && 0
                    <= i < final(self).settlements[n].households.len() && (#[trigger] patch_of(
                    final(self).settlements@,
                    n,
                    i,
                )) is None ==> no_free_cell(
                    land_of(final(self).matrix@),
                    final(self).side(),
                    final(self).settlements[n].position,
                    final(self).settlements[n].id,
                ),
    {
        let ghost size = self.side();
        let ghost frame = self.scene().frame();
        let ghost goal = settle(size, frame, self.scene().plan(), 0, 0, true);
        let mut n: usize = 0;
        while n < self.settlements.len()
            invariant
                self.sound(),
                self.settings == old(self).settings,
                self.iteration == old(self).iteration,
                size == self.side(),
                self.scene().frame() == frame,
                settle(size, frame, self.scene().plan(), n as int, 0, true) == goal,
                populations(self.settlements@) =~= populations(old(self).settlements@),
                patches_only(old(self).settlements@, self.settlements@),
                forall|p: Index|
                    p.inside(old(self).side()) ==> cell_of(land_of(self.matrix@), p) == cell_of(
                        land_of(old(self).matrix@),
                        p,
                    ) || (cell_of(land_of(old(self).matrix@), p) == Cell::Unclaimed && cell_of(
                        land_of(self.matrix@),
                        p,
                    ) is Claimed),
                n <= self.settlements.len(),
                forall|m: int, j: int|
                    0 <= m < n && 0 <= j < self.settlements[m].households.len() && (
                    #[trigger] patch_of(self.settlements@, m, j)) is None ==> no_free_cell(
                        land_of(self.matrix@),
                        self.side(),
                        self.settlements[m].position,
                        self.settlements[m].id,
                    ),
            decreases self.settlements.len() - n,
        {
            let id: u32 = self.settlements[n].id;
            let position: Index = self.settlements[n].position;
            let mut i: usize = 0;
            let mut searching: bool = true;
            while searching && i < self.settlements[n].households.len()
                invariant
                    self.sound(),
                    self.settings == old(self).settings,
                    self.iteration == old(self).iteration,
                    n < self.settlements.len(),
                    id == self.settlements[n as int].id,
                    position == self.settlements[n as int].position,
                    size == self.side(),
                    self.scene().frame() == frame,
                    settle(size, frame, self.scene().plan(), n as int, i as int, searching) == goal,
                    populations(self.settlements@) =~= populations(old(self).settlements@),
                    patches_only(old(self).settlements@, self.settlements@),
                    forall|p: Index|
                        p.inside(old(self).side()) ==> cell_of(land_of(self.matrix@), p) == cell_of(
                            land_of(old(self).matrix@),
                            p,
                        ) || (cell_of(land_of(old(self).matrix@), p) == Cell::Unclaimed && cell_of(
                            land_of(self.matrix@),
                            p,
                        ) is Claimed),
                    forall|m: int, j: int|
                        0 <= m < n && 0 <= j < self.settlements[m].households.len() && (
                        #[trigger] patch_of(self.settlements@, m, j)) is None ==> no_free_cell(
                            land_of(self.matrix@),
                            self.side(),
                            self.settlements[m].position,
                            self.settlements[m].id,
                        ),
                    i <= self.settlements[n as int].households.len(),
                    searching ==> forall|j: int|
                        0 <= j < i ==> (#[trigger] patch_of(self.settlements@, n as int, j))
                            is Some,
                    !searching ==> no_free_cell(land_of(self.matrix@), self.side(), position, id),
                decreases self.settlements[n as int].households.len() - i,
            {
                let ghost plan = self.scene().plan();
                proof {
                    assert(frame[n as int] == (id, position));
                    assert(plan.homes[n as int] == self.settlements[n as int].households@);
                    assert(plan.homes.len() == frame.len());
                }
                if self.settlements[n].households[i].resource_patch.is_none() {
                    match self.find_unclaimed_patch(position, id) {
                        None => {
                            searching = false;
                            proof {
                                assert(settle(size, frame, plan, n as int, i + 1, false) == goal);
                            }
                        },
                        Some(p) => {
                            let ghost before = self.settlements@;
                            let ghost land = land_of(self.matrix@);
                            self.claim(n, i, p);
                            proof {
                                assert(self.scene().plan() == plan.claim(id, n as int, i as int, p));
                                assert(settle(
                                    size,
                                    frame,
                                    self.scene().plan(),
                                    n as int,
                                    i + 1,
                                    true,
                                ) == goal);
                                let after = self.settlements@;
                                assert forall|m: int, j: int|
                                    0 <= m < n && 0 <= j < after[m].households.len() && (
                                    #[trigger] patch_of(after, m, j)) is None implies no_free_cell(
                                    land_of(self.matrix@),
                                    self.side(),
                                    after[m].position,
                                    after[m].id,
                                ) by {
                                    assert(after[m] == before[m]);
                                    assert(patch_of(before, m, j) is None);
                                    assert(before[m].id != before[n as int].id);
                                    lemma_claim_elsewhere(
                                        land,
                                        land_of(self.matrix@),
                                        self.side(),
                                        before[m].position,
                                        before[m].id,
                                        p,
                                        id,
                                    );
                                }
                                assert forall|j: int| 0 <= j < i + 1 implies (
                                #[trigger] patch_of(after, n as int, j)) is Some by {
                                    if j < i {
                                        assert(patch_of(before, n as int, j) is Some);
                                    }
                                }
                                assert forall|m: int, j: int|
                                    0 <= m < before.len() && 0 <= j < before[m].households.len() implies {
                                    &&& (#[trigger] after[m].households[j]) == (Household {
                                        resource_patch: after[m].households[j].resource_patch,
                                        ..old(self).settlements[m].households[j]
                                    })
                                    &&& old(self).settlements[m].households[j].resource_patch
                                        is Some ==> after[m].households[j].resource_patch
                                            == old(self).settlements[m].households[j].resource_patch
                                } by {
                                    assert(before[m].households[j] == (Household {
                                        resource_patch: before[m].households[j].resource_patch,
                                        ..old(self).settlements[m].households[j]
                                    }));
                                    if m != n {
                                        assert(after[m] == before[m]);
                                    }
                                }
                            }
                        },
                    }
                } else {
                    proof {
                        assert(settle(size, frame, plan, n as int, i + 1, true) == goal);
                    }
                }
                i = i + 1;
            }
            proof {
                let plan = self.scene().plan();
                assert(plan.homes[n as int] == self.settlements[n as int].households@);
                assert(plan.homes.len() == frame.len());
                assert(settle(size, frame, plan, n + 1, 0, true) == goal);
            }
            n = n + 1;
        }
        proof {
            let plan = self.scene().plan();
            assert(plan.homes.len() == frame.len());
            assert(settle(size, frame, plan, n as int, 0, true) == plan);
        }
    }

    /// Draws the yield of one patch at a seasonal level.
    pub fn resources(level: u64, rng: &mut StdRng) -> (amount: u64)
        requires
            level <= SCALE,
        ensures
            ResourceGenerator::lower(level) <= amount < ResourceGenerator::upper(level),
            ResourceGenerator::upper(level) <= SCALE,
    {
        ResourceGenerator::generate(level, rng)
    }

    /// The second phase of a tick: in every settlement the households
    /// gather, ask for what they lack, and consume.
    fn iterate_consumption(&mut self)
        requires
            old(self).wf(),
        ensures
            fed_step(
                old(self).settings.level_spec(old(self).iteration),
                old(self).scene(),
                final(self).scene(),
            ),
            final(self).sound(),
            final(self).settings == old(self).settings,
            final(self).iteration == old(self).iteration,
            final(self).matrix == old(self).matrix,
            final(self).population_spec() == old(self).population_spec(),
            ledgers_only(old(self).settlements@, final(self).settlements@),
            loads_kept(old(self).settlements@, final(self).settlements@),
            bounded(
                final(self).settlements@,
                status_limit(old(self).iteration + 1),
                gene_limit(old(self).iteration as int),
            ),
            forall|n: int|
                0 <= n < old(self).settlements.len() ==> provisioned(
                    old(self).settlements[n].households@,
                    (#[trigger] final(self).settlements[n]).households@,
                    old(self).settings.level_spec(old(self).iteration),
                ),
    {
        let level: u64 = self.settings.level(self.iteration);
        let ghost cap = status_limit(self.iteration as int);
        let ghost genes_cap = gene_limit(self.iteration as int);
        assert(cap + GROWTH <= u64::MAX) by (nonlinear_arith)
            requires
                cap == GROWTH * self.iteration,
                self.iteration <= 0xffff_ffff,
                GROWTH == 2_000_000,
        ;
        assert(status_limit(self.iteration + 1) == cap + GROWTH) by (nonlinear_arith)
            requires
                cap == GROWTH * self.iteration,
                status_limit(self.iteration + 1) == GROWTH * (self.iteration + 1),
        ;
        let mut n: usize = 0;
        while n < self.settlements.len()
            invariant
                level <= SCALE,
                cap + GROWTH <= u64::MAX,
                self.settings == old(self).settings,
                self.iteration == old(self).iteration,
                self.matrix == old(self).matrix,
                n <= self.settlements.len(),
                ledgers_only(old(self).settlements@, self.settlements@),
                loads_kept(old(self).settlements@, self.settlements@),
                level == old(self).settings.level_spec(old(self).iteration),
                forall|m: int|
                    0 <= m < n ==> provisioned(
                        old(self).settlements[m].households@,
                        (#[trigger] self.settlements[m]).households@,
                        level,
                    ),
                forall|m: int|
                    n <= m < self.settlements.len() ==> (#[trigger] self.settlements[m])
                        == old(self).settlements[m],
                forall|m: int, i: int|
                    0 <= m < self.settlements.len() && 0 <= i < self.settlements[m].households.len()
                        ==> (#[trigger] self.settlements[m].households[i]).within(
                        if m < n {
                            cap + GROWTH
                        } else {
                            cap
                        },
                        genes_cap,
                    ),
            decreases self.settlements.len() - n,
        {
            let ghost before = self.settlements@;
            assert forall|i: int| 0 <= i < before[n as int].households.len() implies (
            #[trigger] before[n as int].households[i]).status_spec() + GROWTH <= u64::MAX by {
                assert(before[n as int].households[i].within(cap, genes_cap));
            }
            self.settlements[n].provision(level, &mut self.rng);
            proof {
                let after = self.settlements@;
                assert forall|m: int| 0 <= m < n + 1 implies provisioned(
                    old(self).settlements[m].households@,
                    (#[trigger] after[m]).households@,
                    level,
                ) by {
                    if m < n {
                        assert(after[m] == before[m]);
                    }
                }
                assert forall|m: int, i: int|
                    0 <= m < after.len() && 0 <= i < after[m].households.len() implies (
                #[trigger] after[m].households[i]).within(
                    if m < n + 1 {
                        cap + GROWTH
                    } else {
                        cap
                    },
                    genes_cap,
                ) by {
                    assert(before[m].households[i].within(
                        if m < n {
                            cap + GROWTH
                        } else {
                            cap
                        },
                        genes_cap,
                    ));
                }
                assert forall|m: int, i: int|
                    0 <= m < after.len() && 0 <= i < after[m].households.len() implies (
                #[trigger] after[m].households[i]).load >= old(self).settlements[m].households[i].load by {
                    assert(before[m].households[i].load >= old(self).settlements[m].households[i].load);
                }
                assert forall|m: int, i: int|
                    0 <= m < after.len() && 0 <= i < after[m].households.len() implies (
                #[trigger] after[m].households[i]) == (Household {
                    resources: after[m].households[i].resources,
                    load: after[m].households[i].load,
                    hunger: after[m].households[i].hunger,
                    ..old(self).settlements[m].households[i]
                }) by {
                    assert(before[m].households[i] == (Household {
                        resources: before[m].households[i].resources,
                        load: before[m].households[i].load,
                        hunger: before[m].households[i].hunger,
                        ..old(self).settlements[m].households[i]
                    }));
                }
            }
            n = n + 1;
        }
        proof {
            lemma_ledgers_sound(
                land_of(old(self).matrix@),
                old(self).settlements@,
                self.settlements@,
                self.side(),
            );
        }
    }

    /// The last phase of a tick: every household loses the share of its
    /// resources that the configuration sets.
    pub fn iterate_degradation(&mut self)
        requires
            old(self).sound(),
        ensures
            decayed_step(old(self).settings.degradation, old(self).scene(), final(self).scene()),
            final(self).sound(),
            final(self).settings == old(self).settings,
            final(self).iteration == old(self).iteration,
            final(self).matrix == old(self).matrix,
            final(self).population_spec() == old(self).population_spec(),
            same_frame(old(self).settlements@, final(self).settlements@),
            forall|n: int, i: int|
                0 <= n < old(self).settlements.len() && 0
                    <= i < old(self).settlements[n].households.len()
                        ==> (#[trigger] final(self).settlements[n].households[i]) == (Household {
                    resources: scaled(
                        old(self).settlements[n].households[i].resources as nat,
                        (SCALE - old(self).settings.degradation) as nat,
                    ) as u64,
                    ..old(self).settlements[n].households[i]
                }),
    {
        let rate: u64 = self.settings.degradation;
        let mut n: usize = 0;
        while n < self.settlements.len()
            invariant
                rate == old(self).settings.degradation,
                rate <= SCALE,
                self.settings == old(self).settings,
                self.iteration == old(self).iteration,
                self.matrix == old(self).matrix,
                same_frame(old(self).settlements@, self.settlements@),
                n <= self.settlements.len(),
                forall|m: int, i: int|
                    0 <= m < old(self).settlements.len() && 0
                        <= i < old(self).settlements[m].households.len() ==> (
                    #[trigger] self.settlements[m].households[i]) == (if m < n {
                        Household {
                            resources: scaled(
                                old(self).settlements[m].households[i].resources as nat,
                                (SCALE - rate) as nat,
                            ) as u64,
                            ..old(self).settlements[m].households[i]
                        }
                    } else {
                        old(self).settlements[m].households[i]
                    }),
            decreases self.settlements.len() - n,
        {
            let mut i: usize = 0;
            while i < self.settlements[n].households.len()
                invariant
                    rate == old(self).settings.degradation,
                    rate <= SCALE,
                    self.settings == old(self).settings,
                    self.iteration == old(self).iteration,
                    self.matrix == old(self).matrix,
                    same_frame(old(self).settlements@, self.settlements@),
                    n < self.settlements.len(),
                    i <= self.settlements[n as int].households.len(),
                    forall|m: int, j: int|
                        0 <= m < old(self).settlements.len() && 0
                            <= j < old(self).settlements[m].households.len() ==> (
                        #[trigger] self.settlements[m].households[j]) == (if m < n || (m == n && j
                            < i) {
                            Household {
                                resources: scaled(
                                    old(self).settlements[m].households[j].resources as nat,
                                    (SCALE - rate) as nat,
                                ) as u64,
                                ..old(self).settlements[m].households[j]
                            }
                        } else {
                            old(self).settlements[m].households[j]
                        }),
                decreases self.settlements[n as int].households.len() - i,
            {
                self.settlements[n].households[i].degrade_resources(rate);
                i = i + 1;
            }
            n = n + 1;
        }
        proof {
            assert(ledgers_only(old(self).settlements@, self.settlements@));
            lemma_ledgers_sound(
                land_of(old(self).matrix@),
                old(self).settlements@,
                self.settlements@,
                self.side(),
            );
        }
    }

    /// Gives the unclaimed cell at `p` to the household at place `i` of the
    /// settlement at place `n`, which has no patch yet.
    fn claim(&mut self, n: usize, i: usize, p: Index)
        requires
            old(self).sound(),
            n < old(self).settlements.len(),
            i < old(self).settlements[n as int].households.len(),
            patch_of(old(self).settlements@, n as int, i as int) is None,
            p.inside(old(self).side()),
            cell_of(land_of(old(self).matrix@), p) == Cell::Unclaimed,
        ensures
            final(self).scene().plan() == old(self).scene().plan().claim(
                old(self).settlements[n as int].id,
                n as int,
                i as int,
                p,
            ),
            final(self).scene().frame() == old(self).scene().frame(),
            final(self).sound(),
            final(self).settings == old(self).settings,
            final(self).iteration == old(self).iteration,
            grid_set(
                land_of(old(self).matrix@),
                land_of(final(self).matrix@),
                old(self).side(),
                p,
                Cell::Claimed(old(self).settlements[n as int].id),
            ),
            final(self).settlements@.len() == old(self).settlements@.len(),
            forall|m: int|
                0 <= m < old(self).settlements.len() && m != n ==> final(self).settlements[m]
                    == old(self).settlements[m],
            final(self).settlements[n as int].id == old(self).settlements[n as int].id,
            final(self).settlements[n as int].position == old(self).settlements[n as int].position,
            final(self).settlements[n as int].households@
                == old(self).settlements[n as int].households@.update(
                i as int,
                (Household {
                    resource_patch: Some(p),
                    ..old(self).settlements[n as int].households[i as int]
                }),
            ),
    {
        let id: u32 = self.settlements[n].id;
        self.settlements[n].households[i].resource_patch = Some(p);
        self.matrix[p.0][p.1] = Cell::Claimed(id);
        proof {
            let size = self.side();
            lemma_land(old(self).matrix@);
            lemma_land(self.matrix@);
            let was = old(self).scene().plan();
            let now = self.scene().plan();
            assert(now.land =~~= was.claim(id, n as int, i as int, p).land);
            assert(now.homes =~~= was.claim(id, n as int, i as int, p).homes);
            assert(self.scene().frame() =~= old(self).scene().frame());
            assert(grid_set(land_of(old(self).matrix@), land_of(self.matrix@), size, p, Cell::Claimed(id)));
            lemma_claim_kept(
                land_of(old(self).matrix@),
                land_of(self.matrix@),
                old(self).settlements@,
                self.settlements@,
                size,
                n as int,
                i as int,
                p,
            );
            assert(members_distinct(self.settlements@)) by {
                assert forall|m: int| 0 <= m < self.settlements.len() implies (
                #[trigger] self.settlements[m]).distinct_ids() by {
                    assert(old(self).settlements[m].distinct_ids());
                }
            }
            assert(populations(self.settlements@) =~= populations(old(self).settlements@));
        }
    }
}

} // verus!
