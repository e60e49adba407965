//! A settlement: households in a fixed order around one anchor on the grid.

use crate::grid::Index;
use crate::household::{hunger_of, outranked, outranks, peers, Genes, Household, QueryType};
use crate::resource::{lemma_yield_bounds, ResourceGenerator};
use crate::random::chance;
use crate::sums::{lemma_sum_all, lemma_sum_step, sum};
use crate::units::{CONSUMPTION, GROWTH, MUTATION_AMPL, SCALE};
use rand::rngs::StdRng;
use vstd::prelude::*;

verus! {

/// How the genes of the first households are chosen.
#[derive(Clone, Copy, PartialEq, Eq, Structural, Debug)]
pub enum GeneSettings {
    /// All give.
    Altruistic,
    /// None gives.
    Defective,
    /// Those at even places give, those at odd places do not.
    Split,
}

/// The loads of the households, in their order.
pub open spec fn loads(hs: Seq<Household>) -> Seq<nat> {
    hs.map_values(|h: Household| h.load as nat)
}

/// The largest id among the households, or 0 if there is none.
pub open spec fn max_id_of(hs: Seq<Household>) -> nat
    decreases hs.len(),
{
    if hs.len() == 0 {
        0
    } else if max_id_of(hs.drop_last()) >= hs.last().id {
        max_id_of(hs.drop_last())
    } else {
        hs.last().id as nat
    }
}

/// `k` is the first place in `hs` that holds a household with this id.
pub open spec fn first_with_id(hs: Seq<Household>, id: u32, k: int) -> bool {
    &&& 0 <= k < hs.len()
    &&& hs[k].id == id
    &&& forall|j: int| 0 <= j < k ==> hs[j].id != id
}

/// The first place in `hs` that holds a household with this id.
pub open spec fn place_in(hs: Seq<Household>, id: u32) -> int {
    choose|k: int| first_with_id(hs, id, k)
}

/// `k` is the place at which the running sum of the loads first reaches `threshold`.
pub open spec fn reaches(hs: Seq<Household>, threshold: nat, k: int) -> bool {
    &&& 0 <= k < hs.len()
    &&& threshold <= sum(loads(hs).take(k + 1))
    &&& forall|j: int| 0 <= j < k ==> threshold > sum(#[trigger] loads(hs).take(j + 1))
}

/// The member at place `j` is not the requester at place `i` and has `required` to give.
pub open spec fn able(hs: Seq<Household>, i: int, required: u64, j: int) -> bool {
    0 <= j < hs.len() && j != i && required <= hs[j].resources
}

/// The member at `j` can give and sees the requester at `i` far above itself.
pub open spec fn able_authority(hs: Seq<Household>, i: int, required: u64, j: int) -> bool {
    able(hs, i, required, j) && outranked(hs[j].status_spec(), hs[i].status_spec())
}

/// The member at `j` can give and is a peer of the requester at `i`.
pub open spec fn able_peer(hs: Seq<Household>, i: int, required: u64, j: int) -> bool {
    able(hs, i, required, j) && peers(hs[j].status_spec(), hs[i].status_spec())
}

/// The member at `j` is an able peer that gives at every chance.
pub open spec fn sure_peer(hs: Seq<Household>, i: int, required: u64, j: int) -> bool {
    able_peer(hs, i, required, j) && hs[j].genes.peer_transfer >= SCALE
}

/// The member at `j` can give and sees the requester at `i` far below itself.
pub open spec fn able_subordinate(hs: Seq<Household>, i: int, required: u64, j: int) -> bool {
    able(hs, i, required, j) && outranks(hs[j].status_spec(), hs[i].status_spec())
}

/// The member at `d` may be the one that gives to the requester at `i`,
/// whatever chances are drawn: it is the first able authority; or there is no
/// able authority, it is an able peer that gives at some chance, and no sure
/// peer stands before it; or there is neither an able authority nor a sure
/// peer, and it is the first able subordinate.
pub open spec fn donor_allowed(hs: Seq<Household>, i: int, required: u64, d: int) -> bool {
    ||| able_authority(hs, i, required, d) && forall|j: int|
        0 <= j < d ==> !able_authority(hs, i, required, j)
    ||| (forall|j: int| !able_authority(hs, i, required, j)) && able_peer(hs, i, required, d)
        && hs[d].genes.peer_transfer > 0 && forall|j: int|
        0 <= j < d ==> !sure_peer(hs, i, required, j)
    ||| (forall|j: int| !able_authority(hs, i, required, j)) && (forall|j: int|
        !sure_peer(hs, i, required, j)) && able_subordinate(hs, i, required, d) && forall|j: int|
        0 <= j < d ==> !able_subordinate(hs, i, required, j)
}

/// The request of the member at `i` may stay unserved: nobody is an able
/// authority, a sure peer or an able subordinate.
pub open spec fn refusal_allowed(hs: Seq<Household>, i: int, required: u64) -> bool {
    &&& forall|j: int| !able_authority(hs, i, required, j)
    &&& forall|j: int| !sure_peer(hs, i, required, j)
    &&& forall|j: int| !able_subordinate(hs, i, required, j)
}

/// What a request of the member at `i` for `required` may lead to, whatever
/// chances are drawn: a member that may be the donor has given, and nothing
/// else has changed; or the request has stayed unserved, which it may, and
/// nothing has changed.
pub open spec fn served(
    before: Seq<Household>,
    after: Seq<Household>,
    i: int,
    required: u64,
    donated: bool,
) -> bool {
    if donated {
        exists|d: int| #[trigger]
            donor_allowed(before, i, required, d) && after == before.update(
                d,
                before[d].after_donation(required),
            )
    } else {
        refusal_allowed(before, i, required) && after == before
    }
}

/// Where a member that sees the requester far above itself can give, the
/// request is served, whatever chances are drawn: the first such member
/// gives. Every other member, each peer among them, is left as it was.
pub proof fn lemma_authority_gives_first(
    before: Seq<Household>,
    after: Seq<Household>,
    i: int,
    required: u64,
    donated: bool,
    authority: int,
) -> (d: int)
    requires
        served(before, after, i, required, donated),
        able_authority(before, i, required, authority),
    ensures
        donated,
        0 <= d <= authority,
        able_authority(before, i, required, d),
        forall|j: int| 0 <= j < d ==> !able_authority(before, i, required, j),
        after == before.update(d, before[d].after_donation(required)),
        forall|j: int| 0 <= j < before.len() && j != d ==> after[j] == before[j],
{
    let d = choose|d: int| #[trigger]
        donor_allowed(before, i, required, d) && after == before.update(
            d,
            before[d].after_donation(required),
        );
    d
}

/// The household `after` is the household `before` with what it has
/// gathered at the seasonal level `level`: nothing if it has no patch, else
/// an amount between the bounds of the yield.
pub open spec fn fed(before: Household, after: Household, level: u64) -> bool {
    &&& after == (Household { resources: after.resources, ..before })
    &&& if before.resource_patch is None {
        after.resources == before.resources
    } else {
        before.resources + ResourceGenerator::lower(level) <= after.resources < before.resources
            + ResourceGenerator::upper(level)
    }
}

/// Every household of `after` is that of `before` with what it has gathered.
pub open spec fn gathered(before: Seq<Household>, after: Seq<Household>, level: u64) -> bool {
    &&& after.len() == before.len()
    &&& forall|j: int| 0 <= j < before.len() ==> fed(before[j], #[trigger] after[j], level)
}

/// The requests of the households that lack something for their
/// consumption, in their order: the place of each and what it lacks.
pub open spec fn requests_of(hs: Seq<Household>) -> Seq<(usize, u64)>
    decreases hs.len(),
{
    if hs.len() == 0 {
        Seq::empty()
    } else if hs.last().required_spec() > 0 {
        requests_of(hs.drop_last()).push(((hs.len() - 1) as usize, hs.last().required_spec() as u64))
    } else {
        requests_of(hs.drop_last())
    }
}

/// The requests name households of `hs`, in rising order, and none asks for
/// more than the consumption.
pub open spec fn requests_fit(hs: Seq<Household>, requests: Seq<(usize, u64)>) -> bool {
    &&& forall|k: int|
        0 <= k < requests.len() ==> (#[trigger] requests[k]).0 < hs.len() && requests[k].1
            <= CONSUMPTION
    &&& forall|k: int, l: int|
        0 <= k < l < requests.len() ==> (#[trigger] requests[k]).0 < (#[trigger] requests[l]).0
}

/// The requests of households fit them.
pub proof fn lemma_requests_fit(hs: Seq<Household>)
    requires
        hs.len() <= usize::MAX,
    ensures
        requests_fit(hs, requests_of(hs)),
    decreases hs.len(),
{
    if hs.len() > 0 {
        lemma_requests_fit(hs.drop_last());
        let before = requests_of(hs.drop_last());
        let all = requests_of(hs);
        assert forall|k: int| 0 <= k < all.len() implies (#[trigger] all[k]).0 < hs.len()
            && all[k].1 <= CONSUMPTION by {
            if k < before.len() {
                assert(all[k] == before[k]);
            }
        }
        assert forall|k: int, l: int| 0 <= k < l < all.len() implies (#[trigger] all[k]).0 < (
        #[trigger] all[l]).0 by {
            assert(all[k] == before[k]);
            if l < before.len() {
                assert(all[l] == before[l]);
            }
        }
    }
}

/// The households `hs` after the one at place `i` has received `amount`.
pub open spec fn credited(hs: Seq<Household>, i: int, amount: u64) -> Seq<Household> {
    hs.update(i, Household { resources: (hs[i].resources + amount) as u64, ..hs[i] })
}

/// What one request of the household at place `i` for `required` may make
/// of the households: somebody who may be the donor has given and the
/// requester has received, or nobody has given, which may be.
pub open spec fn request_step(
    before: Seq<Household>,
    after: Seq<Household>,
    i: int,
    required: u64,
) -> bool {
    exists|given: Seq<Household>, donated: bool| #[trigger]
        served(before, given, i, required, donated) && after == if donated {
            credited(given, i, required)
        } else {
            given
        }
}

/// What the requests may make of the households `hs` when they are taken
/// up one after the other.
pub open spec fn shared(
    hs: Seq<Household>,
    requests: Seq<(usize, u64)>,
    after: Seq<Household>,
) -> bool
    decreases requests.len(),
{
    if requests.len() == 0 {
        after == hs
    } else {
        exists|mid: Seq<Household>|
            shared(hs, requests.drop_last(), mid) && #[trigger] request_step(
                mid,
                after,
                requests.last().0 as int,
                requests.last().1,
            )
    }
}

/// The household after it has consumed: the consumption is taken from its
/// resources, as far as they reach, and its hunger goes by what is left.
pub open spec fn fed_up(h: Household) -> Household {
    let left = if h.resources >= CONSUMPTION {
        (h.resources - CONSUMPTION) as u64
    } else {
        0u64
    };
    Household { resources: left, hunger: hunger_of(left as nat) as u64, ..h }
}

/// The households after each has consumed.
pub open spec fn consumed(hs: Seq<Household>) -> Seq<Household> {
    hs.map_values(|h: Household| fed_up(h))
}

/// What one tick of gathering, sharing and consuming may make of the
/// households: they gather, those that lack something ask in their order,
/// and all consume.
pub open spec fn provisioned(before: Seq<Household>, after: Seq<Household>, level: u64) -> bool {
    exists|stocked: Seq<Household>, dealt: Seq<Household>| #[trigger]
        gathered(before, stocked, level) && #[trigger] shared(stocked, requests_of(stocked), dealt)
            && after == consumed(dealt)
}

/// The households of `after` are those of `before` but for resources and
/// load, and each has the status it had.
pub open spec fn same_standing(before: Seq<Household>, after: Seq<Household>) -> bool {
    &&& before.len() == after.len()
    &&& forall|j: int|
        0 <= j < before.len() ==> (#[trigger] after[j]) == (Household {
            resources: after[j].resources,
            load: after[j].load,
            ..before[j]
        }) && after[j].status_spec() == before[j].status_spec()
}

/// Whether a settlement of this status has a positive influence at a place
/// of which the square of the distance is given. The influence is the status
/// to the power 3/2 less the distance times 1/200; it is positive where
/// `200 * (status / SCALE)^(3/2)` is above the distance, that is where
/// `40000 * status^3` is above the square of the distance times `SCALE^3`.
pub open spec fn influence_positive(status: nat, distance_squared: nat) -> bool {
    40_000 * (status * status * status) > distance_squared * (SCALE * SCALE * SCALE)
}

/// Households with the same ids have the same largest id.
pub proof fn lemma_max_id_by_ids(a: Seq<Household>, b: Seq<Household>)
    requires
        a.len() == b.len(),
        forall|i: int| 0 <= i < a.len() ==> a[i].id == b[i].id,
    ensures
        max_id_of(a) == max_id_of(b),
    decreases a.len(),
{
    if a.len() > 0 {
        lemma_max_id_by_ids(a.drop_last(), b.drop_last());
    }
}

/// Where some household has the id, there is a first one, and it stands at
/// `place` of the settlement.
pub proof fn lemma_place(s: Settlement, id: u32, at: int)
    requires
        0 <= at < s.households.len(),
        s.households[at].id == id,
    ensures
        first_with_id(s.households@, id, s.place(id)),
        s.place(id) <= at,
    decreases at,
{
    if exists|j: int| 0 <= j < at && s.households[j].id == id {
        let j = choose|j: int| 0 <= j < at && s.households[j].id == id;
        lemma_place(s, id, j);
    } else {
        assert(first_with_id(s.households@, id, at));
        let c = s.place(id);
        assert(first_with_id(s.households@, id, c));
    }
}

/// No id is above the largest.
pub proof fn lemma_max_id_bounds(hs: Seq<Household>, i: int)
    requires
        0 <= i < hs.len(),
    ensures
        hs[i].id <= max_id_of(hs),
    decreases hs.len(),
{
    if i < hs.len() - 1 {
        lemma_max_id_bounds(hs.drop_last(), i);
    }
}

/// A settlement and its households.
pub struct Settlement {
    /// Marks the land of the settlement on the grid.
    pub id: u32,
    /// The anchor.
    pub position: Index,
    pub households: Vec<Household>,
}

impl Settlement {
    /// The status of every household fits the machine word.
    pub open spec fn wf(self) -> bool {
        forall|i: int| 0 <= i < self.households.len() ==> (#[trigger] self.households[i]).wf()
    }

    /// No two households share an id.
    pub open spec fn distinct_ids(self) -> bool {
        forall|i: int, j: int|
            0 <= i < j < self.households.len() ==> self.households[i].id
                != self.households[j].id
    }

    /// Some household has this id.
    pub open spec fn has(self, id: u32) -> bool {
        exists|k: int| 0 <= k < self.households.len() && self.households[k].id == id
    }

    /// The first place that holds a household with this id.
    pub open spec fn place(self, id: u32) -> int {
        place_in(self.households@, id)
    }

    /// The sum of the loads of the households.
    pub open spec fn status_spec(self) -> nat {
        sum(loads(self.households@))
    }

    /// The largest id among the households, or 0 if there is none.
    pub open spec fn max_id_spec(self) -> nat {
        max_id_of(self.households@)
    }

    /// A settlement with households `0` to `initial_households - 1`, which
    /// own nothing yet.
    pub fn new(id: u32, position: Index, initial_households: u16, initial_genes: GeneSettings) -> (s:
        Self)
        ensures
            s.fresh(id, position, initial_households, initial_genes),
    {
        let mut households: Vec<Household> = Vec::new();
        let mut n: u32 = 0;
        while n < initial_households as u32
            invariant
                n <= initial_households,
                households.len() == n,
                forall|k: int|
                    0 <= k < n ==> #[trigger] households[k] == (Household {
                        id: k as u32,
                        resources: 0,
                        load: 0,
                        hunger: 0,
                        resource_patch: None,
                        genes: Settlement::initial_genes_spec(initial_genes, k),
                        years_since_move: 0,
                        satisfaction: 0,
                    }),
            decreases initial_households - n,
        {
            let genes: Genes = match initial_genes {
                GeneSettings::Altruistic => Genes::altruistic(crate::units::INITIAL_ATTACHMENT),
                GeneSettings::Defective => Genes::defective(crate::units::INITIAL_ATTACHMENT),
                GeneSettings::Split => if n % 2 == 0 {
                    Genes::altruistic(crate::units::INITIAL_ATTACHMENT)
                } else {
                    Genes::defective(crate::units::INITIAL_ATTACHMENT)
                },
            };
            households.push(Household::new(n, genes));
            n = n + 1;
        }
        Settlement { id, position, households }
    }

    /// The settlement is as it is founded: it has the given id and anchor
    /// and `initial_households` households, numbered from 0, which own
    /// nothing and have the genes that `initial_genes` asks for.
    pub open spec fn fresh(
        self,
        id: u32,
        position: Index,
        initial_households: u16,
        initial_genes: GeneSettings,
    ) -> bool {
        &&& self.id == id
        &&& self.position == position
        &&& self.households.len() == initial_households
        &&& forall|n: int|
            0 <= n < initial_households ==> #[trigger] self.households[n] == (Household {
                id: n as u32,
                resources: 0,
                load: 0,
                hunger: 0,
                resource_patch: None,
                genes: Settlement::initial_genes_spec(initial_genes, n),
                years_since_move: 0,
                satisfaction: 0,
            })
    }

    /// The genes of the household at place `n` of a new settlement.
    pub open spec fn initial_genes_spec(mode: GeneSettings, n: int) -> Genes {
        let gives = mode == GeneSettings::Altruistic || (mode == GeneSettings::Split && n % 2 == 0);
        if gives {
            Genes {
                peer_transfer: crate::units::SCALE,
                subordinate_transfer: crate::units::SCALE,
                attachment: crate::units::INITIAL_ATTACHMENT,
            }
        } else {
            Genes {
                peer_transfer: 0,
                subordinate_transfer: 0,
                attachment: crate::units::INITIAL_ATTACHMENT,
            }
        }
    }

    /// The sum of the loads of the households.
    pub fn status(&self) -> (total: u128)
        ensures
            total == self.status_spec(),
            total <= self.households.len() * u64::MAX,
    {
        let mut total: u128 = 0;
        let mut j: usize = 0;
        proof {
            lemma_sum_all(loads(self.households@));
        }
        while j < self.households.len()
            invariant
                j <= self.households.len(),
                total == sum(loads(self.households@).take(j as int)),
                total <= j * u64::MAX,
            decreases self.households.len() - j,
        {
            proof {
                lemma_sum_step(loads(self.households@), j as int);
                assert((j + 1) * u64::MAX == j * u64::MAX + u64::MAX) by (nonlinear_arith);
                assert((j + 1) * u64::MAX <= usize::MAX * u64::MAX) by (nonlinear_arith)
                    requires
                        j + 1 <= usize::MAX,
                ;
            }
            total = total + self.households[j].load as u128;
            j = j + 1;
        }
        total
    }

    /// The member at place `i` asks the others for `required`: first those
    /// that see it far above themselves, who give if they can; then its
    /// peers, each of which gives at a chance of its own below its
    /// `peer_transfer`; last those that see it far below themselves, who give
    /// if they can. The first that gives ends the search.
    pub fn query_donations(&mut self, i: usize, required: u64, rng: &mut StdRng) -> (donated: bool)
        requires
            i < old(self).households.len(),
            old(self).wf(),
        ensures
            final(self).id == old(self).id,
            final(self).position == old(self).position,
            same_standing(old(self).households@, final(self).households@),
            served(old(self).households@, final(self).households@, i as int, required, donated),
    {
        let status: u64 = self.households[i].status();
        let ghost before = self.households@;
        let mut j: usize = 0;
        while j < self.households.len()
            invariant
                self.households@ == before,
                before == old(self).households@,
                self.id == old(self).id,
                self.position == old(self).position,
                old(self).wf(),
                i < before.len(),
                status == before[i as int].status_spec(),
                forall|k: int| 0 <= k < j ==> !able_authority(before, i as int, required, k),
            decreases self.households.len() - j,
        {
            if i != j && self.households[j].is_auth(status) {
                if self.households[j].query_donation(required, QueryType::Superior, 0) {
                    proof {
                        assert(self.households@ =~= before.update(
                            j as int,
                            before[j as int].after_donation(required),
                        ));
                        assert(donor_allowed(before, i as int, required, j as int));
                    }
                    return true;
                }
                assert(self.households@ =~= before);
            }
            j = j + 1;
        }
        j = 0;
        while j < self.households.len()
            invariant
                self.households@ == before,
                before == old(self).households@,
                self.id == old(self).id,
                self.position == old(self).position,
                old(self).wf(),
                i < before.len(),
                status == before[i as int].status_spec(),
                forall|k: int| !able_authority(before, i as int, required, k),
                forall|k: int| 0 <= k < j ==> !sure_peer(before, i as int, required, k),
            decreases self.households.len() - j,
        {
            if i != j && self.households[j].is_peer(status) {
                let test: u64 = chance(rng);
                if self.households[j].query_donation(required, QueryType::Peer, test) {
                    proof {
                        assert(self.households@ =~= before.update(
                            j as int,
                            before[j as int].after_donation(required),
                        ));
                        assert(donor_allowed(before, i as int, required, j as int));
                    }
                    return true;
                }
                assert(self.households@ =~= before);
            }
            j = j + 1;
        }
        j = 0;
        while j < self.households.len()
            invariant
                self.households@ == before,
                before == old(self).households@,
                self.id == old(self).id,
                self.position == old(self).position,
                old(self).wf(),
                i < before.len(),
                status == before[i as int].status_spec(),
                forall|k: int| !able_authority(before, i as int, required, k),
                forall|k: int| !sure_peer(before, i as int, required, k),
                forall|k: int| 0 <= k < j ==> !able_subordinate(before, i as int, required, k),
            decreases self.households.len() - j,
        {
            if i != j && self.households[j].is_sub(status) {
                if self.households[j].query_donation(required, QueryType::Superior, 0) {
                    proof {
                        assert(self.households@ =~= before.update(
                            j as int,
                            before[j as int].after_donation(required),
                        ));
                        assert(donor_allowed(before, i as int, required, j as int));
                    }
                    return true;
                }
                assert(self.households@ =~= before);
            }
            j = j + 1;
        }
        false
    }

    /// Every household with a patch gathers a yield drawn at the seasonal
    /// level `level`; the others gather nothing.
    pub fn gather(&mut self, level: u64, rng: &mut StdRng)
        requires
            level <= SCALE,
            forall|i: int|
                0 <= i < old(self).households.len()
                    ==> (#[trigger] old(self).households[i]).status_spec() + SCALE <= u64::MAX,
        ensures
            final(self).id == old(self).id,
            final(self).position == old(self).position,
            gathered(old(self).households@, final(self).households@, level),
    {
        let ghost start = self.households@;
        let mut i: usize = 0;
        while i < self.households.len()
            invariant
                level <= SCALE,
                i <= self.households.len(),
                self.id == old(self).id,
                self.position == old(self).position,
                start == old(self).households@,
                self.households.len() == start.len(),
                forall|j: int|
                    0 <= j < start.len() ==> (#[trigger] start[j]).status_spec() + SCALE
                        <= u64::MAX,
                forall|j: int|
                    0 <= j < start.len() ==> (#[trigger] self.households[j]) == (if j < i {
                        Household { resources: self.households[j].resources, ..start[j] }
                    } else {
                        start[j]
                    }),
                forall|j: int| 0 <= j < i ==> fed(start[j], #[trigger] self.households[j], level),
            decreases self.households.len() - i,
        {
            let amount: u64 = if self.households[i].resource_patch.is_some() {
                ResourceGenerator::generate(level, rng)
            } else {
                0
            };
            assert(start[i as int].status_spec() + SCALE <= u64::MAX);
            self.households[i].provide(amount);
            i = i + 1;
        }
    }

    /// The requests of the households that lack something for their
    /// consumption, in their order: the place of each and what it lacks.
    pub fn requests(&self) -> (list: Vec<(usize, u64)>)
        ensures
            list@ == requests_of(self.households@),
    {
        let mut list: Vec<(usize, u64)> = Vec::new();
        let mut i: usize = 0;
        assert(self.households@.take(0) =~= Seq::<Household>::empty());
        while i < self.households.len()
            invariant
                i <= self.households.len(),
                list@ == requests_of(self.households@.take(i as int)),
            decreases self.households.len() - i,
        {
            assert(self.households@.take(i + 1).drop_last() =~= self.households@.take(i as int));
            let required: u64 = self.households[i].required();
            if required > 0 {
                list.push((i, required));
            }
            proof {
                let upto = self.households@.take(i + 1);
                assert(list@ =~= requests_of(upto));
            }
            i = i + 1;
        }
        assert(self.households@.take(i as int) =~= self.households@);
        list
    }

    /// The requests are taken up in their order: each is put to the other
    /// households by `query_donations`, and where somebody gives, the
    /// requester receives what it asked for.
    pub fn share(&mut self, requests: &Vec<(usize, u64)>, rng: &mut StdRng)
        requires
            requests_fit(old(self).households@, requests@),
            forall|i: int|
                0 <= i < old(self).households.len()
                    ==> (#[trigger] old(self).households[i]).status_spec() + CONSUMPTION
                        <= u64::MAX,
        ensures
            final(self).id == old(self).id,
            final(self).position == old(self).position,
            shared(old(self).households@, requests@, final(self).households@),
            final(self).households.len() == old(self).households.len(),
            forall|j: int|
                0 <= j < old(self).households.len() ==> {
                    &&& (#[trigger] final(self).households[j]) == (Household {
                        resources: final(self).households[j].resources,
                        load: final(self).households[j].load,
                        ..old(self).households[j]
                    })
                    &&& final(self).households[j].load >= old(self).households[j].load
                    &&& final(self).households[j].status_spec()
                        <= old(self).households[j].status_spec() + CONSUMPTION
                },
    {
        let ghost gathered = self.households@;
        let mut k: usize = 0;
        assert(requests@.take(0) =~= Seq::<(usize, u64)>::empty());
        while k < requests.len()
            invariant
                k <= requests.len(),
                self.id == old(self).id,
                self.position == old(self).position,
                gathered == old(self).households@,
                self.households.len() == gathered.len(),
                requests_fit(gathered, requests@),
                shared(gathered, requests@.take(k as int), self.households@),
                forall|j: int|
                    0 <= j < gathered.len() ==> (#[trigger] gathered[j]).status_spec()
                        + CONSUMPTION <= u64::MAX,
                forall|j: int|
                    0 <= j < gathered.len() ==> {
                        &&& (#[trigger] self.households[j]) == (Household {
                            resources: self.households[j].resources,
                            load: self.households[j].load,
                            ..gathered[j]
                        })
                        &&& self.households[j].load >= gathered[j].load
                        &&& self.households[j].status_spec() <= gathered[j].status_spec()
                            + CONSUMPTION
                        &&& (k < requests.len() && j >= requests[k as int].0
                            ==> self.households[j].status_spec() == gathered[j].status_spec())
                    },
            decreases requests.len() - k,
        {
            let (asker, required): (usize, u64) = requests[k];
            let ghost before = self.households@;
            assert forall|j: int| 0 <= j < self.households.len() implies (
            #[trigger] self.households[j]).wf() by {
                assert(gathered[j].status_spec() + CONSUMPTION <= u64::MAX);
            }
            let donated: bool = self.query_donations(asker, required, rng);
            let ghost given = self.households@;
            if donated {
                assert(given[asker as int].status_spec() == gathered[asker as int].status_spec());
                assert(gathered[asker as int].status_spec() + CONSUMPTION <= u64::MAX);
                self.households[asker].provide(required);
                proof {
                    assert(self.households@ =~= credited(given, asker as int, required));
                }
            }
            proof {
                assert forall|j: int| 0 <= j < gathered.len() implies {
                    &&& (#[trigger] self.households[j]) == (Household {
                        resources: self.households[j].resources,
                        load: self.households[j].load,
                        ..gathered[j]
                    })
                    &&& self.households[j].load >= gathered[j].load
                    &&& self.households[j].status_spec() <= gathered[j].status_spec()
                        + CONSUMPTION
                    &&& (k + 1 < requests.len() && j >= requests[k + 1].0
                        ==> self.households[j].status_spec() == gathered[j].status_spec())
                } by {
                    assert(given[j].status_spec() == before[j].status_spec());
                    assert(given[j].load >= before[j].load);
                    if k + 1 < requests.len() {
                        assert(requests[k as int].0 < requests[k + 1].0);
                    }
                }
                let sofar = requests@.take(k + 1);
                assert(sofar.drop_last() =~= requests@.take(k as int));
                assert(sofar.last() == requests@[k as int]);
                assert(served(before, given, asker as int, required, donated));
                assert(request_step(before, self.households@, sofar.last().0 as int, sofar.last().1));
            }
            k = k + 1;
        }
        assert(requests@.take(k as int) =~= requests@);
    }

    /// Every household consumes.
    pub fn consume_all(&mut self)
        ensures
            final(self).id == old(self).id,
            final(self).position == old(self).position,
            final(self).households@ == consumed(old(self).households@),
    {
        let ghost shared = self.households@;
        let mut i: usize = 0;
        while i < self.households.len()
            invariant
                i <= self.households.len(),
                self.id == old(self).id,
                self.position == old(self).position,
                shared == old(self).households@,
                self.households.len() == shared.len(),
                forall|j: int|
                    0 <= j < shared.len() ==> (#[trigger] self.households[j]) == (if j < i {
                        fed_up(shared[j])
                    } else {
                        shared[j]
                    }),
            decreases self.households.len() - i,
        {
            self.households[i].consume();
            i = i + 1;
        }
        assert(self.households@ =~= consumed(shared));
    }

    /// One tick of gathering, sharing and consuming. Every household with a
    /// patch gathers a yield drawn at the seasonal level `level`. Those that
    /// then lack something ask the others for it, in their order, and
    /// receive it where somebody gives. Last all consume.
    pub fn provision(&mut self, level: u64, rng: &mut StdRng)
        requires
            level <= SCALE,
            forall|i: int|
                0 <= i < old(self).households.len()
                    ==> (#[trigger] old(self).households[i]).status_spec() + GROWTH <= u64::MAX,
        ensures
            final(self).id == old(self).id,
            final(self).position == old(self).position,
            provisioned(old(self).households@, final(self).households@, level),
            final(self).households.len() == old(self).households.len(),
            forall|i: int|
                0 <= i < old(self).households.len() ==> {
                    &&& (#[trigger] final(self).households[i]) == (Household {
                        resources: final(self).households[i].resources,
                        load: final(self).households[i].load,
                        hunger: hunger_of(final(self).households[i].resources as nat) as u64,
                        ..old(self).households[i]
                    })
                    &&& final(self).households[i].hunger <= SCALE
                    &&& final(self).households[i].load >= old(self).households[i].load
                    &&& final(self).households[i].status_spec()
                        <= old(self).households[i].status_spec() + SCALE + CONSUMPTION
                },
    {
        let ghost start = self.households@;
        self.gather(level, rng);
        let ghost stocked = self.households@;
        let requests: Vec<(usize, u64)> = self.requests();
        proof {
            assert forall|j: int| 0 <= j < stocked.len() implies (
            #[trigger] stocked[j]).status_spec() + CONSUMPTION <= u64::MAX by {
                assert(fed(start[j], stocked[j], level));
                assert(start[j].status_spec() + GROWTH <= u64::MAX);
                lemma_yield_bounds(level);
            }
            lemma_requests_fit(stocked);
        }
        self.share(&requests, rng);
        let ghost dealt = self.households@;
        self.consume_all();
        proof {
            assert forall|i: int| 0 <= i < start.len() implies {
                &&& (#[trigger] self.households[i]) == (Household {
                    resources: self.households[i].resources,
                    load: self.households[i].load,
                    hunger: hunger_of(self.households[i].resources as nat) as u64,
                    ..start[i]
                })
                &&& self.households[i].hunger <= SCALE
                &&& self.households[i].load >= start[i].load
                &&& self.households[i].status_spec() <= start[i].status_spec() + SCALE
                    + CONSUMPTION
            } by {
                assert(fed(start[i], stocked[i], level));
                lemma_yield_bounds(level);
                assert(dealt[i] == (Household {
                    resources: dealt[i].resources,
                    load: dealt[i].load,
                    ..stocked[i]
                }));
                assert(dealt[i].status_spec() <= stocked[i].status_spec() + CONSUMPTION);
                assert(self.households[i] == fed_up(dealt[i]));
            }
        }
    }

    /// The household with this id leaves the settlement and is returned; the
    /// last household takes its place.
    pub fn remove(&mut self, id: u32) -> (gone: Household)
        requires
            old(self).has(id),
        ensures
            first_with_id(old(self).households@, id, old(self).place(id)),
            gone == old(self).households[old(self).place(id)],
            final(self).households@ == old(self).households@.update(
                old(self).place(id),
                old(self).households@.last(),
            ).drop_last(),
            final(self).id == old(self).id,
            final(self).position == old(self).position,
    {
        let i: usize = self.pos(id);
        self.households.swap_remove(i)
    }

    /// The household with this id has a child with the mate whose genes are
    /// given. The child gets the largest id so far plus one and stands last.
    pub fn add(&mut self, id: u32, genes: Genes, rng: &mut StdRng)
        requires
            old(self).has(id),
            old(self).max_id_spec() < u32::MAX,
            old(self).households[old(self).place(id)].genes.below(u64::MAX - MUTATION_AMPL),
            genes.below(u64::MAX - MUTATION_AMPL),
        ensures
            first_with_id(old(self).households@, id, old(self).place(id)),
            final(self).id == old(self).id,
            final(self).position == old(self).position,
            final(self).households.len() == old(self).households.len() + 1,
            final(self).households@.drop_last() == old(self).households@.update(
                old(self).place(id),
                (Household {
                    resources: old(self).households[old(self).place(id)].resources / 2,
                    ..old(self).households[old(self).place(id)]
                }),
            ),
            final(self).households@.last() == (Household {
                id: (old(self).max_id_spec() + 1) as u32,
                resources: old(self).households[old(self).place(id)].resources / 2,
                load: 0,
                hunger: 0,
                resource_patch: None,
                genes: final(self).households@.last().genes,
                years_since_move: 0,
                satisfaction: 0,
            }),
            final(self).households@.last().genes.descends(
                old(self).households[old(self).place(id)].genes,
                genes,
            ),
            final(self).max_id_spec() == old(self).max_id_spec() + 1,
            old(self).distinct_ids() ==> final(self).distinct_ids(),
    {
        let new_id: u32 = self.max_id() + 1;
        let pos: usize = self.pos(id);
        let new_household: Household = self.households[pos].birth_new(genes, new_id, rng);
        self.households.push(new_household);
        proof {
            let before = old(self).households@;
            let after = self.households@;
            assert(after.drop_last() =~= before.update(
                pos as int,
                (Household { resources: before[pos as int].resources / 2, ..before[pos as int] }),
            ));
            lemma_max_id_by_ids(after.drop_last(), before);
            if old(self).distinct_ids() {
                assert forall|i: int, j: int| 0 <= i < j < after.len() implies after[i].id
                    != after[j].id by {
                    assert(after[i] == after.drop_last()[i]);
                    if j < before.len() {
                        assert(after[j] == after.drop_last()[j]);
                    } else {
                        lemma_max_id_bounds(before, i);
                    }
                }
            }
        }
    }

    /// The largest id among the households, or 0 if there is none.
    pub fn max_id(&self) -> (top: u32)
        ensures
            top == self.max_id_spec(),
    {
        let mut top: u32 = 0;
        let mut j: usize = 0;
        assert(self.households@.take(0) =~= Seq::<Household>::empty());
        while j < self.households.len()
            invariant
                j <= self.households.len(),
                top == max_id_of(self.households@.take(j as int)),
            decreases self.households.len() - j,
        {
            assert(self.households@.take(j + 1).drop_last() =~= self.households@.take(j as int));
            if self.households[j].id > top {
                top = self.households[j].id;
            }
            j = j + 1;
        }
        assert(self.households@.take(j as int) =~= self.households@);
        top
    }

    /// The first place that holds a household with this id.
    pub fn pos(&self, id: u32) -> (k: usize)
        requires
            self.has(id),
        ensures
            first_with_id(self.households@, id, k as int),
            k == self.place(id),
    {
        let mut k: usize = 0;
        while self.households[k].id != id
            invariant
                k < self.households.len(),
                self.has(id),
                forall|j: int| 0 <= j < k ==> self.households[j].id != id,
            decreases self.households.len() - k,
        {
            k = k + 1;
        }
        proof {
            let c = self.place(id);
            assert(first_with_id(self.households@, id, k as int));
            assert(first_with_id(self.households@, id, c));
        }
        k
    }

    /// The genes of the household at which the running sum of the loads first
    /// reaches `threshold`.
    pub fn find_genes(&self, threshold: u128) -> (genes: Genes)
        requires
            threshold < self.status_spec(),
        ensures
            exists|k: int|
                reaches(self.households@, threshold as nat, k) && genes
                    == self.households[k].genes,
    {
        let mut rest: u128 = threshold;
        let mut k: usize = 0;
        proof {
            lemma_sum_all(loads(self.households@));
            lemma_sum_step(loads(self.households@), 0);
        }
        while rest > self.households[k].load as u128
            invariant
                k < self.households.len(),
                threshold < self.status_spec(),
                rest + sum(loads(self.households@).take(k as int)) == threshold,
                sum(loads(self.households@).take(k + 1)) == sum(
                    loads(self.households@).take(k as int),
                ) + self.households[k as int].load,
                forall|j: int|
                    0 <= j < k ==> threshold > sum(#[trigger] loads(self.households@).take(j + 1)),
            decreases self.households.len() - k,
        {
            proof {
                lemma_sum_all(loads(self.households@));
                if k + 2 <= self.households.len() {
                    lemma_sum_step(loads(self.households@), k + 1);
                }
            }
            rest = rest - self.households[k].load as u128;
            k = k + 1;
        }
        assert(reaches(self.households@, threshold as nat, k as int));
        self.households[k].genes
    }

    /// Whether `other` has a positive influence on this settlement: whether
    /// its status to the power 3/2 outweighs the distance between the two
    /// anchors times 1/200.
    pub fn influence(&self, other: &Self) -> (positive: bool)
        requires
            self.position.0 <= u32::MAX,
            self.position.1 <= u32::MAX,
            other.position.0 <= u32::MAX,
            other.position.1 <= u32::MAX,
        ensures
            positive == influence_positive(
                other.status_spec(),
                self.position.dist_squared_spec(other.position),
            ),
    {
        let status: u128 = other.status();
        let far: u128 = self.position.dist_squared(other.position);
        assert(SCALE * SCALE * SCALE == 40_000 * 25_000_000_000_000) by (nonlinear_arith)
            requires
                SCALE == 1_000_000,
        ;
        assert(far * 25_000_000_000_000 <= 0x2_0000_0000_0000_0000 * 25_000_000_000_000)
            by (nonlinear_arith)
            requires
                far <= 0x2_0000_0000_0000_0000,
        ;
        let weight: u128 = far * 25_000_000_000_000;
        assert(40_000 * (status * status * status) > far * (SCALE * SCALE * SCALE) <==> status
            * status * status > weight) by (nonlinear_arith)
            requires
                weight == far * 25_000_000_000_000,
                SCALE * SCALE * SCALE == 40_000 * 25_000_000_000_000,
        ;
        if status >= 0x20_0000_0000 {
            assert(status * status * status >= 0x20_0000_0000 * 0x20_0000_0000 * 0x20_0000_0000)
                by (nonlinear_arith)
                requires
                    status >= 0x20_0000_0000,
            ;
            true
        } else {
            assert(status * status <= 0x20_0000_0000 * 0x20_0000_0000 && status * status * status
                <= 0x20_0000_0000 * 0x20_0000_0000 * 0x20_0000_0000) by (nonlinear_arith)
                requires
                    status <= 0x20_0000_0000,
            ;
            status * status * status > weight
        }
    }

    /// How many households the settlement has.
    pub fn population(&self) -> (count: usize)
        ensures
            count == self.households.len(),
    {
        self.households.len()
    }
}

} // verus!
