//! What one tick makes of the world, phase by phase.

use crate::birth::{births_applied, births_drawn};
use crate::death::{culled, freed, marks_fit, may_die, may_live, only_released};
use crate::grid::{Cell, Index};
use crate::household::{Genes, Household};
use crate::search::{no_free_cell, search_from};
use crate::settings::Settings;
use crate::settlement::{provisioned, Settlement};
use crate::territory::{cell_of, patch_of};
use crate::units::{scaled, SCALE};
use crate::world::{patches_only, population_of, same_frame};
use vstd::prelude::*;

verus! {

/// The grid and the settlements at one moment.
pub struct Scene {
    pub land: Seq<Seq<Cell>>,
    pub people: Seq<Settlement>,
}

/// The cells and the households at one moment, without the settlements
/// they belong to.
pub struct Plan {
    pub land: Seq<Seq<Cell>>,
    pub homes: Seq<Seq<Household>>,
}

impl Scene {
    /// The cells and the households of the scene.
    pub open spec fn plan(self) -> Plan {
        Plan { land: self.land, homes: self.people.map_values(|s: Settlement| s.households@) }
    }

    /// The id and the anchor of each settlement.
    pub open spec fn frame(self) -> Seq<(u32, Index)> {
        self.people.map_values(|s: Settlement| (s.id, s.position))
    }
}

impl Plan {
    /// The plan after the household at place `i` of the settlement at place
    /// `n`, which has the id `id`, has claimed the cell at `p`.
    pub open spec fn claim(self, id: u32, n: int, i: int, p: Index) -> Plan {
        Plan {
            land: self.land.update(
                p.0 as int,
                self.land[p.0 as int].update(p.1 as int, Cell::Claimed(id)),
            ),
            homes: self.homes.update(
                n,
                self.homes[n].update(
                    i,
                    Household { resource_patch: Some(p), ..self.homes[n][i] },
                ),
            ),
        }
    }
}

/// What the first phase makes of a plan from the household at place `i` of
/// the settlement at place `n` on. The settlements take their turns in
/// their order, and in each the households in theirs. A household that has
/// a patch is passed over. One that has none searches from the anchor of
/// its settlement and claims the cell it finds; when it finds none, the
/// households behind it in its settlement do not search.
pub open spec fn settle(
    size: int,
    frame: Seq<(u32, Index)>,
    plan: Plan,
    n: int,
    i: int,
    searching: bool,
) -> Plan
    decreases frame.len() - n, if 0 <= n < plan.homes.len() {
        plan.homes[n].len() - i
    } else {
        0
    },
    when 0 <= n && 0 <= i && plan.homes.len() == frame.len() && (n < frame.len() ==> i
        <= plan.homes[n].len())
{
    if n >= frame.len() {
        plan
    } else if !searching || i >= plan.homes[n].len() {
        settle(size, frame, plan, n + 1, 0, true)
    } else if plan.homes[n][i].resource_patch is Some {
        settle(size, frame, plan, n, i + 1, true)
    } else {
        match search_from(
            plan.land,
            size,
            frame[n].0,
            seq![frame[n].1],
            frame[n].1.surroundings_spec(size),
        ) {
            None => settle(size, frame, plan, n, i + 1, false),
            Some(p) => settle(size, frame, plan.claim(frame[n].0, n, i, p), n, i + 1, true),
        }
    }
}

/// The first phase: households without a patch have claimed unclaimed
/// cells, each the cell that its search has found, in the order of the
/// settlements and of their households. A household is still without a
/// patch only where its settlement has no free cell next to its land.
pub open spec fn searched_step(size: int, a: Scene, b: Scene) -> bool {
    &&& b.plan() == settle(size, a.frame(), a.plan(), 0, 0, true)
    &&& patches_only(a.people, b.people)
    &&& forall|p: Index|
        p.inside(size) ==> #[trigger] cell_of(b.land, p) == cell_of(a.land, p) || (cell_of(
            a.land,
            p,
        ) == Cell::Unclaimed && cell_of(b.land, p) is Claimed)
    &&& forall|n: int, i: int|
        0 <= n < b.people.len() && 0 <= i < b.people[n].households.len() && (#[trigger] patch_of(
            b.people,
            n,
            i,
        )) is None ==> no_free_cell(b.land, size, b.people[n].position, b.people[n].id)
}

/// The second phase: in every settlement the households have gathered at
/// the seasonal level, shared and consumed.
pub open spec fn fed_step(level: u64, a: Scene, b: Scene) -> bool {
    &&& b.land == a.land
    &&& same_frame(a.people, b.people)
    &&& forall|n: int|
        0 <= n < a.people.len() ==> provisioned(
            a.people[n].households@,
            (#[trigger] b.people[n]).households@,
            level,
        )
}

/// The third phase: in every settlement some households that may pass the
/// birth test have had children, one after the other in their order, each
/// with a mate chosen as the model says.
pub open spec fn born_step(own: bool, a: Scene, b: Scene) -> bool {
    &&& b.land == a.land
    &&& b.people.len() == a.people.len()
    &&& forall|n: int|
        0 <= n < a.people.len() ==> (#[trigger] b.people[n]).id == a.people[n].id
            && b.people[n].position == a.people[n].position
    &&& exists|parents: Seq<Vec<(u32, Genes)>>| #[trigger]
        births_drawn(a.people, own, parents) && forall|n: int|
            0 <= n < a.people.len() ==> births_applied(
                a.people[n].households@,
                parents[n]@,
                (#[trigger] b.people[n]).households@,
            )
}

/// Each household that is marked may die at some chance, and each that is
/// not may live at some chance.
pub open spec fn deaths_drawn(ss: Seq<Settlement>, marks: Seq<Vec<bool>>) -> bool {
    &&& marks_fit(ss, marks)
    &&& forall|m: int, j: int|
        0 <= m < ss.len() && 0 <= j < ss[m].households.len() ==> if marks[m][j] {
            may_die(#[trigger] ss[m].households[j])
        } else {
            may_live(ss[m].households[j])
        }
}

/// The fourth phase: some households that may die have gone, among them all
/// that could not live, and with them the settlements in which nobody is
/// left. The patches of those that have gone are unclaimed, and no other
/// cell has changed.
pub open spec fn died_step(size: int, a: Scene, b: Scene) -> bool {
    &&& only_released(a.land, b.land, size)
    &&& exists|marks: Seq<Vec<bool>>| #[trigger]
        deaths_drawn(a.people, marks) && culled(a.people, marks, b.people) && forall|
            m: int,
            j: int,
        |
            0 <= m < a.people.len() && 0 <= j < a.people[m].households.len() && marks[m][j]
                ==> freed(b.land, #[trigger] a.people[m].households[j])
}

/// The household after the share `rate` of its resources has decayed.
pub open spec fn decayed(h: Household, rate: u64) -> Household {
    Household { resources: scaled(h.resources as nat, (SCALE - rate) as nat) as u64, ..h }
}

/// The fifth phase: every household has lost the share `rate` of its resources.
pub open spec fn decayed_step(rate: u64, a: Scene, b: Scene) -> bool {
    &&& b.land == a.land
    &&& same_frame(a.people, b.people)
    &&& forall|n: int, i: int|
        0 <= n < a.people.len() && 0 <= i < a.people[n].households.len() ==> (
        #[trigger] b.people[n].households[i]) == decayed(a.people[n].households[i], rate)
}

/// One tick under the given configuration, of which `ticks` ticks have
/// passed: the five phases one after the other. The first phase is left out
/// where there are at least as many households as cells.
pub open spec fn tick(settings: Settings, ticks: u32, a: Scene, b: Scene) -> bool {
    let size = settings.size as int;
    exists|searched: Scene, fed: Scene, grown: Scene, left: Scene|
        {
            &&& if population_of(a.people) < size * size {
                searched_step(size, a, searched)
            } else {
                searched == a
            }
            &&& #[trigger] fed_step(settings.level_spec(ticks), searched, fed)
            &&& born_step(settings.own_settlement_mates, fed, grown)
            &&& #[trigger] died_step(size, grown, left)
            &&& decayed_step(settings.degradation, left, b)
        }
}

} // verus!
