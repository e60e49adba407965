use rand::rngs::StdRng;
use rand::SeedableRng;
use settlement_sim::household::{Genes, Household, QueryType};
use settlement_sim::units::{CONSUMPTION, MUTATION_AMPL, SCALE};

fn household(resources: u64, load: u64) -> Household {
    let mut h = Household::new(7, Genes::new(300_000, 700_000, 500_000));
    h.resources = resources;
    h.load = load;
    h
}

#[test]
fn new_household_owns_nothing() {
    let h = Household::new(3, Genes::altruistic(500_000));
    assert_eq!(h.id, 3);
    assert_eq!(h.resources, 0);
    assert_eq!(h.load, 0);
    assert_eq!(h.hunger, 0);
    assert!(h.resource_patch.is_none());
    assert_eq!(h.genes, Genes::new(SCALE, SCALE, 500_000));
    assert_eq!(h.years_since_move, 0);
    assert_eq!(h.satisfaction, 0);
}

#[test]
fn required_is_the_shortfall() {
    assert_eq!(household(0, 0).required(), CONSUMPTION);
    assert_eq!(household(200_000, 0).required(), 300_000);
    assert_eq!(household(500_000, 0).required(), 0);
    assert_eq!(household(900_000, 0).required(), 0);
}

#[test]
fn provide_adds_to_resources_only() {
    let mut h = household(200_000, 50_000);
    h.provide(350_000);
    assert_eq!(h.resources, 550_000);
    assert_eq!(h.load, 50_000);
    assert_eq!(h.hunger, 0);
}

#[test]
fn consume_sets_hunger_from_what_is_left() {
    let mut h = household(600_000, 0);
    h.consume();
    assert_eq!(h.resources, 100_000);
    assert_eq!(h.hunger, 200_000);
    let mut poor = household(400_000, 0);
    poor.consume();
    assert_eq!(poor.resources, 0);
    assert_eq!(poor.hunger, 0);
    let mut rich = household(3 * SCALE, 0);
    rich.consume();
    assert_eq!(rich.resources, 2_500_000);
    assert_eq!(rich.hunger, SCALE);
    let mut exact = household(SCALE, 0);
    exact.consume();
    assert_eq!(exact.resources, 500_000);
    assert_eq!(exact.hunger, SCALE);
}

#[test]
fn donation_moves_resources_to_load() {
    let mut h = household(800_000, 100_000);
    assert!(h.query_donation(300_000, QueryType::Superior, 999_999));
    assert_eq!(h.resources, 500_000);
    assert_eq!(h.load, 400_000);
    assert_eq!(h.status(), 900_000);
}

#[test]
fn donation_is_refused_without_the_means() {
    let mut h = household(299_999, 100_000);
    assert!(!h.query_donation(300_000, QueryType::Superior, 0));
    assert_eq!(h.resources, 299_999);
    assert_eq!(h.load, 100_000);
    let mut just = household(300_000, 0);
    assert!(just.query_donation(300_000, QueryType::Superior, 0));
    assert_eq!(just.resources, 0);
    assert_eq!(just.load, 300_000);
}

#[test]
fn peer_donation_goes_by_peer_transfer() {
    let mut h = household(800_000, 0);
    assert!(!h.query_donation(100_000, QueryType::Peer, 300_000));
    assert_eq!(h.resources, 800_000);
    assert!(h.query_donation(100_000, QueryType::Peer, 299_999));
    assert_eq!(h.resources, 700_000);
    assert_eq!(h.load, 100_000);
}

#[test]
fn subordinate_donation_goes_by_subordinate_transfer() {
    let mut h = household(800_000, 0);
    assert!(!h.query_donation(100_000, QueryType::Subordinate, 700_000));
    assert!(h.query_donation(100_000, QueryType::Subordinate, 699_999));
    assert_eq!(h.resources, 700_000);
    assert_eq!(h.load, 100_000);
}

#[test]
fn status_is_resources_plus_load() {
    assert_eq!(household(0, 0).status(), 0);
    assert_eq!(household(123, 456).status(), 579);
}

#[test]
fn rank_boundary_is_peer() {
    let own = household(1_000_000, 0);
    assert!(own.is_peer(2_500_000));
    assert!(!own.is_auth(2_500_000));
    assert!(!own.is_sub(2_500_000));
    assert!(!own.is_peer(2_500_001));
    assert!(own.is_auth(2_500_001));
    assert!(!own.is_sub(2_500_001));
    let high = household(2_000_000, 500_000);
    assert!(high.is_peer(1_000_000));
    assert!(!high.is_sub(1_000_000));
    assert!(high.is_sub(999_999));
    assert!(!high.is_peer(999_999));
    assert!(!high.is_auth(999_999));
}

#[test]
fn rank_of_two_empty_households_is_peer() {
    let own = household(0, 0);
    assert!(own.is_peer(0));
    assert!(!own.is_auth(0));
    assert!(!own.is_sub(0));
    assert!(own.is_auth(1));
    let other = household(1, 0);
    assert!(other.is_sub(0));
}

#[test]
fn exactly_one_rank_holds() {
    let statuses: [u64; 9] = [0, 1, 2, 5, 399_999, 400_000, 1_000_000, 2_500_000, u64::MAX / 2];
    for own in statuses {
        for other in statuses {
            let h = household(own, 0);
            let held = [h.is_peer(other), h.is_auth(other), h.is_sub(other)];
            assert_eq!(held.iter().filter(|b| **b).count(), 1);
        }
    }
}

#[test]
fn birth_test_uses_hunger_and_rate() {
    let mut h = household(0, 0);
    h.hunger = SCALE;
    assert!(h.birth(14_999));
    assert!(!h.birth(15_000));
    h.hunger = 200_000;
    assert!(h.birth(2_999));
    assert!(!h.birth(3_000));
    h.hunger = 0;
    assert!(!h.birth(0));
}

#[test]
fn death_test_uses_hunger_and_rate() {
    let mut h = household(0, 0);
    h.hunger = 5_000;
    assert!(h.death(499_999));
    assert!(!h.death(500_000));
    h.hunger = SCALE;
    assert!(h.death(999_999));
    h.hunger = 0;
    assert!(!h.death(0));
}

#[test]
fn birth_new_halves_resources() {
    let mut rng = StdRng::seed_from_u64(11);
    let mut parent = household(900_001, 40_000);
    parent.resource_patch = Some(settlement_sim::grid::Index(2, 3));
    parent.hunger = 77;
    let mate = Genes::new(100_000, 200_000, 900_000);
    let child = parent.birth_new(mate, 42, &mut rng);
    assert_eq!(parent.resources, 450_000);
    assert_eq!(parent.load, 40_000);
    assert_eq!(parent.hunger, 77);
    assert_eq!(parent.id, 7);
    assert!(parent.resource_patch.is_some());
    assert_eq!(child.id, 42);
    assert_eq!(child.resources, 450_000);
    assert_eq!(child.load, 0);
    assert_eq!(child.hunger, 0);
    assert!(child.resource_patch.is_none());
    let from = |gene: u64, a: u64, b: u64| {
        (a <= gene && gene < a + MUTATION_AMPL) || (b <= gene && gene < b + MUTATION_AMPL)
    };
    assert!(from(child.genes.peer_transfer, 300_000, 100_000));
    assert!(from(child.genes.subordinate_transfer, 700_000, 200_000));
    assert!(from(child.genes.attachment, 500_000, 900_000));
}

#[test]
fn degrade_takes_the_share() {
    let mut h = household(1_000_001, 5);
    h.degrade_resources(250_000);
    assert_eq!(h.resources, 750_000);
    assert_eq!(h.load, 5);
    let mut all = household(1_000_001, 5);
    all.degrade_resources(SCALE);
    assert_eq!(all.resources, 0);
    let mut none = household(1_000_001, 5);
    none.degrade_resources(0);
    assert_eq!(none.resources, 1_000_001);
}
