//! A household: its ledger of resources, its status and rank, its genes and
//! the tests that decide on birth and death.

use crate::grid::Index;
use crate::random::{chance, coin};
use crate::units::{
    product, scale, scaled, BIRTH_DEN, BIRTH_NUM, CONSUMPTION, DEATH_DEN, INITIAL_ATTACHMENT,
    MUTATION_AMPL, MUTATION_FREQ, RANK_DEN, RANK_NUM, SCALE,
};
use rand::rngs::StdRng;
use vstd::prelude::*;

verus! {

/// The rule by which a household that is asked for a donation decides.
#[derive(Clone, Copy, PartialEq, Eq, Structural, Debug)]
pub enum QueryType {
    /// The donor always agrees.
    Superior,
    /// The donor agrees with the probability of its `peer_transfer`.
    Peer,
    /// The donor agrees with the probability of its `subordinate_transfer`.
    Subordinate,
}

/// The heritable traits of a household, each a fixed-point number.
#[derive(Clone, Copy, PartialEq, Eq, Structural, Debug)]
pub struct Genes {
    /// The likelihood of giving to a peer.
    pub peer_transfer: u64,
    /// The likelihood of giving to a subordinate.
    pub subordinate_transfer: u64,
    /// The likelihood of staying in a settlement.
    pub attachment: u64,
}

/// `gene` is `first` or `second`, raised by less than the mutation amplitude.
pub open spec fn inherits(gene: u64, first: u64, second: u64) -> bool {
    ||| first <= gene < first + MUTATION_AMPL
    ||| second <= gene < second + MUTATION_AMPL
}

/// What a mutation of the given magnitude (a fixed-point number below 1) makes of a gene.
pub open spec fn mutated(gene: u64, magnitude: u64) -> nat {
    gene as nat + scaled(MUTATION_AMPL as nat, magnitude as nat)
}

/// What a child inherits of a trait of which its parents have `first` and
/// `second`, given the three draws that decide: the coin that picks the
/// parent, the test that lies below the mutation frequency where the trait
/// mutates, and the magnitude of the mutation.
pub open spec fn inherited(first: u64, second: u64, heads: bool, test: u64, magnitude: u64) -> nat {
    let base = if heads {
        first
    } else {
        second
    };
    if test < MUTATION_FREQ {
        mutated(base, magnitude)
    } else {
        base as nat
    }
}

impl Genes {
    /// No trait is above `limit`.
    pub open spec fn below(self, limit: int) -> bool {
        &&& self.peer_transfer <= limit
        &&& self.subordinate_transfer <= limit
        &&& self.attachment <= limit
    }

    /// Each trait is inherited from `a` or from `b`.
    pub open spec fn descends(self, a: Genes, b: Genes) -> bool {
        &&& inherits(self.peer_transfer, a.peer_transfer, b.peer_transfer)
        &&& inherits(self.subordinate_transfer, a.subordinate_transfer, b.subordinate_transfer)
        &&& inherits(self.attachment, a.attachment, b.attachment)
    }

    /// The mean of the two transfer traits, rounded down.
    pub open spec fn cooperation_spec(self) -> nat {
        ((self.peer_transfer + self.subordinate_transfer) / 2) as nat
    }

    /// Genes with the given traits.
    pub fn new(peer_transfer: u64, subordinate_transfer: u64, attachment: u64) -> (genes: Self)
        ensures
            genes == (Genes { peer_transfer, subordinate_transfer, attachment }),
    {
        Genes { peer_transfer, subordinate_transfer, attachment }
    }

    /// Genes that always give.
    pub fn altruistic(attachment: u64) -> (genes: Self)
        ensures
            genes == (Genes { peer_transfer: SCALE, subordinate_transfer: SCALE, attachment }),
    {
        Genes::new(SCALE, SCALE, attachment)
    }

    /// Genes that never give of their own accord.
    pub fn defective(attachment: u64) -> (genes: Self)
        ensures
            genes == (Genes { peer_transfer: 0, subordinate_transfer: 0, attachment }),
    {
        Genes::new(0, 0, attachment)
    }

    /// Raises a gene by the mutation amplitude times `magnitude`.
    pub fn mutate(gene: u64, magnitude: u64) -> (raised: u64)
        requires
            magnitude < SCALE,
            gene + MUTATION_AMPL <= u64::MAX,
        ensures
            raised == mutated(gene, magnitude),
            gene <= raised < gene + MUTATION_AMPL,
    {
        let step: u64 = scale(MUTATION_AMPL, magnitude);
        assert(step < MUTATION_AMPL) by (nonlinear_arith)
            requires
                step == (250_000 * magnitude as int) / 1_000_000,
                0 <= magnitude < 1_000_000,
                MUTATION_AMPL == 250_000,
        ;
        gene + step
    }

    /// What a child inherits of one trait, given the draws that decide: the
    /// value of the first parent on heads, else that of the second, raised
    /// by a mutation where `test` lies below the mutation frequency.
    pub fn inherit(first: u64, second: u64, heads: bool, test: u64, magnitude: u64) -> (gene: u64)
        requires
            magnitude < SCALE,
            first + MUTATION_AMPL <= u64::MAX,
            second + MUTATION_AMPL <= u64::MAX,
        ensures
            gene == inherited(first, second, heads, test, magnitude),
            inherits(gene, first, second),
    {
        let base: u64 = if heads {
            first
        } else {
            second
        };
        if test < MUTATION_FREQ {
            Genes::mutate(base, magnitude)
        } else {
            base
        }
    }

    /// Picks one of two parental values with equal chance and, with the
    /// mutation frequency, raises it by a random part of the amplitude.
    pub fn random_choice(first: u64, second: u64, rng: &mut StdRng) -> (gene: u64)
        requires
            first + MUTATION_AMPL <= u64::MAX,
            second + MUTATION_AMPL <= u64::MAX,
        ensures
            inherits(gene, first, second),
    {
        let heads: bool = coin(rng);
        let test: u64 = chance(rng);
        let magnitude: u64 = if test < MUTATION_FREQ {
            chance(rng)
        } else {
            0
        };
        Genes::inherit(first, second, heads, test, magnitude)
    }

    /// The genes of a child of `self` and `other`: each trait is chosen and
    /// mutated on its own.
    pub fn combine(&self, other: Genes, rng: &mut StdRng) -> (child: Genes)
        requires
            self.below(u64::MAX - MUTATION_AMPL),
            other.below(u64::MAX - MUTATION_AMPL),
        ensures
            child.descends(*self, other),
    {
        let peer_transfer: u64 = Genes::random_choice(self.peer_transfer, other.peer_transfer, rng);
        let subordinate_transfer: u64 = Genes::random_choice(
            self.subordinate_transfer,
            other.subordinate_transfer,
            rng,
        );
        let attachment: u64 = Genes::random_choice(self.attachment, other.attachment, rng);
        Genes::new(peer_transfer, subordinate_transfer, attachment)
    }

    /// The mean of the two transfer traits, rounded down.
    pub fn cooperation(&self) -> (mean: u64)
        ensures
            mean == self.cooperation_spec(),
    {
        let sum: u128 = self.peer_transfer as u128 + self.subordinate_transfer as u128;
        (sum / 2) as u64
    }
}

impl Default for Genes {
    /// Genes that never give of their own accord, with the initial attachment.
    fn default() -> (genes: Self)
        ensures
            genes == (Genes {
                peer_transfer: 0,
                subordinate_transfer: 0,
                attachment: INITIAL_ATTACHMENT,
            }),
    {
        Genes::new(0, 0, INITIAL_ATTACHMENT)
    }
}

/// A household with status `own` and one with status `other` are peers: their
/// statuses differ by at most the rank threshold times the larger of the two.
/// Two households of status zero are peers.
pub open spec fn peers(own: nat, other: nat) -> bool {
    if own <= other {
        RANK_DEN * (other - own) <= RANK_NUM * other
    } else {
        RANK_DEN * (own - other) <= RANK_NUM * own
    }
}

/// The status `other` lies above `own` by more than the rank threshold times `other`.
pub open spec fn outranked(own: nat, other: nat) -> bool {
    own <= other && RANK_DEN * (other - own) > RANK_NUM * other
}

/// The status `own` lies above `other` by more than the rank threshold times `own`.
pub open spec fn outranks(own: nat, other: nat) -> bool {
    other <= own && RANK_DEN * (own - other) > RANK_NUM * own
}

/// Of any two statuses exactly one of the three ranks holds.
pub proof fn lemma_rank_exclusive(own: nat, other: nat)
    ensures
        peers(own, other) || outranked(own, other) || outranks(own, other),
        !(peers(own, other) && outranked(own, other)),
        !(peers(own, other) && outranks(own, other)),
        !(outranked(own, other) && outranks(own, other)),
{
}

/// The hunger that follows from the resources left after consumption: their
/// ratio to the consumption, capped at 1.
pub open spec fn hunger_of(resources: nat) -> nat {
    let ratio = (resources as int * SCALE as int) / (CONSUMPTION as int);
    if ratio <= SCALE {
        ratio as nat
    } else {
        SCALE as nat
    }
}

/// Whether a donor with these genes agrees to a query of this type at this chance.
pub open spec fn agrees(genes: Genes, query_type: QueryType, chance: u64) -> bool {
    match query_type {
        QueryType::Superior => true,
        QueryType::Peer => chance < genes.peer_transfer,
        QueryType::Subordinate => chance < genes.subordinate_transfer,
    }
}

/// One household of a settlement.
#[derive(Clone, Copy, Debug)]
pub struct Household {
    /// Unique within the settlement.
    pub id: u32,
    pub resources: u64,
    /// All that the household has donated so far.
    pub load: u64,
    /// In `[0, 1]`.
    pub hunger: u64,
    /// The cell that feeds the household, if it has claimed one.
    pub resource_patch: Option<Index>,
    pub genes: Genes,
    pub years_since_move: u32,
    pub satisfaction: u64,
}

impl Household {
    /// The status fits the machine word.
    pub open spec fn wf(self) -> bool {
        self.resources + self.load <= u64::MAX
    }

    /// The status is at most `status_limit`, no gene is above `gene_limit`
    /// and the hunger lies in `[0, 1]`.
    pub open spec fn within(self, status_limit: int, gene_limit: int) -> bool {
        &&& self.resources + self.load <= status_limit
        &&& self.genes.below(gene_limit)
        &&& self.hunger <= SCALE
    }

    /// Resources plus load.
    pub open spec fn status_spec(self) -> nat {
        (self.resources + self.load) as nat
    }

    /// What the household lacks to cover its consumption.
    pub open spec fn required_spec(self) -> nat {
        if self.resources < CONSUMPTION {
            (CONSUMPTION - self.resources) as nat
        } else {
            0
        }
    }

    /// The household gives `required` when asked in this way at this chance.
    pub open spec fn gives(self, required: u64, query_type: QueryType, chance: u64) -> bool {
        required <= self.resources && agrees(self.genes, query_type, chance)
    }

    /// The household after it has given `amount`.
    pub open spec fn after_donation(self, amount: u64) -> Household {
        Household {
            resources: (self.resources - amount) as u64,
            load: (self.load + amount) as u64,
            ..self
        }
    }

    /// The household passes the birth test at this chance: the chance lies
    /// below the hunger times the birth rate.
    pub open spec fn birth_spec(self, chance: u64) -> bool {
        chance * BIRTH_DEN < self.hunger * BIRTH_NUM
    }

    /// The household dies at this chance: the chance times the death rate
    /// lies below the hunger.
    pub open spec fn death_spec(self, chance: u64) -> bool {
        chance < self.hunger * DEATH_DEN
    }

    /// A household that owns nothing.
    pub fn new(id: u32, genes: Genes) -> (household: Self)
        ensures
            household == (Household {
                id,
                resources: 0,
                load: 0,
                hunger: 0,
                resource_patch: None,
                genes,
                years_since_move: 0,
                satisfaction: 0,
            }),
    {
        Household {
            id,
            resources: 0,
            hunger: 0,
            resource_patch: None,
            load: 0,
            genes,
            years_since_move: 0,
            satisfaction: 0,
        }
    }

    /// What the household lacks to cover its consumption.
    pub fn required(&self) -> (lack: u64)
        ensures
            lack == self.required_spec(),
    {
        if self.resources < CONSUMPTION {
            CONSUMPTION - self.resources
        } else {
            0
        }
    }

    /// Adds to the resources.
    pub fn provide(&mut self, resources: u64)
        requires
            old(self).resources + old(self).load + resources <= u64::MAX,
        ensures
            *final(self) == (Household {
                resources: (old(self).resources + resources) as u64,
                ..*old(self)
            }),
    {
        self.resources = self.resources + resources;
    }

    /// Takes the consumption from the resources, as far as they reach, and
    /// sets the hunger by what is left.
    pub fn consume(&mut self)
        ensures
            *final(self) == (Household {
                resources: (if old(self).resources >= CONSUMPTION {
                    old(self).resources - CONSUMPTION
                } else {
                    0
                }) as u64,
                hunger: hunger_of(final(self).resources as nat) as u64,
                ..*old(self)
            }),
            final(self).hunger <= SCALE,
    {
        self.resources = if self.resources >= CONSUMPTION {
            self.resources - CONSUMPTION
        } else {
            0
        };
        let left: u64 = self.resources;
        assert((left as int * SCALE as int) / (CONSUMPTION as int) == 2 * left) by (nonlinear_arith)
            requires
                SCALE == 1_000_000,
                CONSUMPTION == 500_000,
        ;
        self.hunger = if left >= CONSUMPTION {
            SCALE
        } else {
            2 * left
        };
    }

    /// Asks the household for `required`. It refuses if it has less; else it
    /// decides by the rule of `query_type`. If it gives, the amount moves
    /// from its resources to its load.
    pub fn query_donation(&mut self, required: u64, query_type: QueryType, chance: u64) -> (donated:
        bool)
        requires
            old(self).resources + old(self).load <= u64::MAX,
        ensures
            donated == old(self).gives(required, query_type, chance),
            donated ==> *final(self) == old(self).after_donation(required),
            !donated ==> *final(self) == *old(self),
    {
        if required > self.resources {
            return false;
        }
        let donating: bool = match query_type {
            QueryType::Superior => true,
            QueryType::Peer => chance < self.genes.peer_transfer,
            QueryType::Subordinate => chance < self.genes.subordinate_transfer,
        };
        if donating {
            self.resources = self.resources - required;
            self.load = self.load + required;
        }
        donating
    }

    /// Halves the resources of the household and returns its child, which
    /// holds the other half, carries no load, owns no patch and has genes
    /// combined from those of the household and of the mate.
    pub fn birth_new(&mut self, genes: Genes, id: u32, rng: &mut StdRng) -> (child: Self)
        requires
            old(self).genes.below(u64::MAX - MUTATION_AMPL),
            genes.below(u64::MAX - MUTATION_AMPL),
        ensures
            *final(self) == (Household {
                resources: old(self).resources / 2,
                ..*old(self)
            }),
            child.genes.descends(old(self).genes, genes),
            child == (Household {
                id,
                resources: old(self).resources / 2,
                load: 0,
                hunger: 0,
                resource_patch: None,
                genes: child.genes,
                years_since_move: 0,
                satisfaction: 0,
            }),
    {
        self.resources = self.resources / 2;
        Household {
            id,
            resources: self.resources,
            hunger: 0,
            resource_patch: None,
            load: 0,
            genes: self.genes.combine(genes, rng),
            years_since_move: 0,
            satisfaction: 0,
        }
    }

    /// Resources plus load: the one number by which households are ranked.
    pub fn status(&self) -> (status: u64)
        requires
            self.resources + self.load <= u64::MAX,
        ensures
            status == self.status_spec(),
    {
        self.resources + self.load
    }

    /// The household and one of status `other_status` are peers.
    pub fn is_peer(&self, other_status: u64) -> (peer: bool)
        requires
            self.resources + self.load <= u64::MAX,
        ensures
            peer == peers(self.status_spec(), other_status as nat),
    {
        let own: u64 = self.status();
        let other: u64 = other_status;
        if own <= other {
            product(RANK_DEN, other - own) <= product(RANK_NUM, other)
        } else {
            product(RANK_DEN, own - other) <= product(RANK_NUM, own)
        }
    }

    /// One of status `other_status` stands above the household.
    pub fn is_auth(&self, other_status: u64) -> (above: bool)
        requires
            self.resources + self.load <= u64::MAX,
        ensures
            above == outranked(self.status_spec(), other_status as nat),
    {
        let own: u64 = self.status();
        let other: u64 = other_status;
        own <= other && product(RANK_DEN, other - own) > product(RANK_NUM, other)
    }

    /// One of status `other_status` stands below the household.
    pub fn is_sub(&self, other_status: u64) -> (below: bool)
        requires
            self.resources + self.load <= u64::MAX,
        ensures
            below == outranks(self.status_spec(), other_status as nat),
    {
        let own: u64 = self.status();
        let other: u64 = other_status;
        other <= own && product(RANK_DEN, own - other) > product(RANK_NUM, own)
    }

    /// The birth test: the chance lies below the hunger times the birth rate.
    pub fn birth(&self, chance: u64) -> (born: bool)
        ensures
            born == self.birth_spec(chance),
    {
        product(chance, BIRTH_DEN) < product(self.hunger, BIRTH_NUM)
    }

    /// The death test: the chance times the death rate lies below the hunger.
    pub fn death(&self, chance: u64) -> (dies: bool)
        ensures
            dies == self.death_spec(chance),
    {
        (chance as u128) < product(self.hunger, DEATH_DEN)
    }

    /// Lets the share `rate` of the resources decay.
    pub fn degrade_resources(&mut self, rate: u64)
        requires
            rate <= SCALE,
        ensures
            *final(self) == (Household {
                resources: scaled(old(self).resources as nat, (SCALE - rate) as nat) as u64,
                ..*old(self)
            }),
            final(self).resources <= old(self).resources,
    {
        self.resources = scale(self.resources, SCALE - rate);
    }
}

} // verus!
