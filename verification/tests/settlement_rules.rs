use rand::rngs::StdRng;
use rand::SeedableRng;
use settlement_sim::census::{mean_of, Measure};
use settlement_sim::grid::Index;
use settlement_sim::household::{Genes, Household};
use settlement_sim::settlement::{GeneSettings, Settlement};
use settlement_sim::units::{CONSUMPTION, SCALE};

fn member(id: u32, resources: u64, load: u64, genes: Genes) -> Household {
    let mut h = Household::new(id, genes);
    h.resources = resources;
    h.load = load;
    h
}

fn settlement(households: Vec<Household>) -> Settlement {
    Settlement { id: 1, position: Index(0, 0), households }
}

#[test]
fn new_settlement_numbers_its_households() {
    let s = Settlement::new(3, Index(1, 2), 4, GeneSettings::Split);
    assert_eq!(s.id, 3);
    assert_eq!(s.position, Index(1, 2));
    assert_eq!(s.population(), 4);
    for (n, h) in s.households.iter().enumerate() {
        assert_eq!(h.id as usize, n);
        assert_eq!(h.resources, 0);
        assert_eq!(h.load, 0);
        assert!(h.resource_patch.is_none());
        let gives = n % 2 == 0;
        assert_eq!(h.genes.peer_transfer, if gives { SCALE } else { 0 });
        assert_eq!(h.genes.subordinate_transfer, if gives { SCALE } else { 0 });
        assert_eq!(h.genes.attachment, 500_000);
    }
}

#[test]
fn new_settlement_follows_the_gene_setting() {
    let givers = Settlement::new(0, Index(0, 0), 3, GeneSettings::Altruistic);
    assert!(givers.households.iter().all(|h| h.genes == Genes::altruistic(500_000)));
    let keepers = Settlement::new(0, Index(0, 0), 3, GeneSettings::Defective);
    assert!(keepers.households.iter().all(|h| h.genes == Genes::defective(500_000)));
    let none = Settlement::new(0, Index(0, 0), 0, GeneSettings::Split);
    assert_eq!(none.population(), 0);
}

#[test]
fn authority_gives_before_any_peer() {
    for seed in 0..50 {
        let mut rng = StdRng::seed_from_u64(seed);
        let givers = Genes::altruistic(500_000);
        let mut s = settlement(vec![
            member(0, 0, 2_000_000, givers),
            member(1, 1_500_000, 0, givers),
            member(2, 600_000, 0, givers),
        ]);
        assert!(s.households[2].is_auth(2_000_000));
        assert!(s.households[1].is_peer(2_000_000));
        assert!(s.query_donations(0, CONSUMPTION, &mut rng));
        assert_eq!(s.households[2].resources, 100_000);
        assert_eq!(s.households[2].load, 500_000);
        assert_eq!(s.households[1].resources, 1_500_000);
        assert_eq!(s.households[1].load, 0);
        assert_eq!(s.households[0].resources, 0);
        assert_eq!(s.households[0].load, 2_000_000);
    }
}

#[test]
fn authority_gives_even_with_defective_genes() {
    let mut rng = StdRng::seed_from_u64(3);
    let keepers = Genes::defective(500_000);
    let mut s = settlement(vec![
        member(0, 600_000, 0, keepers),
        member(1, 0, 2_000_000, keepers),
    ]);
    assert!(s.query_donations(1, 200_000, &mut rng));
    assert_eq!(s.households[0].resources, 400_000);
    assert_eq!(s.households[0].load, 200_000);
}

#[test]
fn first_able_authority_gives() {
    let mut rng = StdRng::seed_from_u64(3);
    let givers = Genes::altruistic(500_000);
    let mut s = settlement(vec![
        member(0, 100_000, 0, givers),
        member(1, 0, 2_000_000, givers),
        member(2, 300_000, 0, givers),
        member(3, 400_000, 0, givers),
    ]);
    assert!(s.query_donations(1, 250_000, &mut rng));
    assert_eq!(s.households[0].resources, 100_000);
    assert_eq!(s.households[2].resources, 50_000);
    assert_eq!(s.households[2].load, 250_000);
    assert_eq!(s.households[3].resources, 400_000);
}

#[test]
fn peers_with_defective_genes_never_give() {
    for seed in 0..50 {
        let mut rng = StdRng::seed_from_u64(seed);
        let keepers = Genes::defective(500_000);
        let mut s = settlement(vec![
            member(0, 100_000, 900_000, keepers),
            member(1, 1_000_000, 0, keepers),
            member(2, 900_000, 0, keepers),
        ]);
        assert!(!s.query_donations(0, 400_000, &mut rng));
        assert_eq!(s.households[1].resources, 1_000_000);
        assert_eq!(s.households[2].resources, 900_000);
    }
}

#[test]
fn first_able_altruistic_peer_gives() {
    for seed in 0..50 {
        let mut rng = StdRng::seed_from_u64(seed);
        let givers = Genes::altruistic(500_000);
        let mut s = settlement(vec![
            member(0, 300_000, 0, givers),
            member(1, 100_000, 900_000, givers),
            member(2, 1_000_000, 0, givers),
            member(3, 900_000, 0, givers),
        ]);
        assert!(s.query_donations(1, 400_000, &mut rng));
        assert_eq!(s.households[0].resources, 300_000);
        assert_eq!(s.households[2].resources, 600_000);
        assert_eq!(s.households[2].load, 400_000);
        assert_eq!(s.households[3].resources, 900_000);
    }
}

#[test]
fn peers_give_by_chance() {
    let mut gave = 0;
    for seed in 0..400 {
        let mut rng = StdRng::seed_from_u64(seed);
        let half = Genes::new(500_000, 0, 0);
        let mut s = settlement(vec![
            member(0, 100_000, 900_000, half),
            member(1, 1_000_000, 0, half),
        ]);
        if s.query_donations(0, 400_000, &mut rng) {
            gave += 1;
            assert_eq!(s.households[1].resources, 600_000);
            assert_eq!(s.households[1].load, 400_000);
        } else {
            assert_eq!(s.households[1].resources, 1_000_000);
        }
    }
    assert!(gave > 140 && gave < 260);
}

#[test]
fn subordinates_give_when_peers_refuse() {
    for seed in 0..50 {
        let mut rng = StdRng::seed_from_u64(seed);
        let keepers = Genes::defective(500_000);
        let mut s = settlement(vec![
            member(0, 100_000, 0, keepers),
            member(1, 90_000, 0, keepers),
            member(2, 5_000_000, 0, keepers),
        ]);
        assert!(s.households[2].is_sub(100_000));
        assert!(s.query_donations(0, 400_000, &mut rng));
        assert_eq!(s.households[1].resources, 90_000);
        assert_eq!(s.households[2].resources, 4_600_000);
        assert_eq!(s.households[2].load, 400_000);
    }
}

#[test]
fn nobody_gives_to_itself() {
    let mut rng = StdRng::seed_from_u64(1);
    let mut s = settlement(vec![member(0, 900_000, 0, Genes::altruistic(0))]);
    assert!(!s.query_donations(0, 100_000, &mut rng));
    assert_eq!(s.households[0].resources, 900_000);
    assert_eq!(s.households[0].load, 0);
}

#[test]
fn status_sums_the_loads() {
    let genes = Genes::default();
    let s = settlement(vec![
        member(0, 5, 100, genes),
        member(1, 6, 0, genes),
        member(2, 7, 250, genes),
    ]);
    assert_eq!(s.status(), 350);
    assert_eq!(settlement(vec![]).status(), 0);
    let big = settlement(vec![member(0, 0, u64::MAX, genes), member(1, 0, u64::MAX, genes)]);
    assert_eq!(big.status(), 2 * (u64::MAX as u128));
}

#[test]
fn remove_puts_the_last_in_the_gap() {
    let genes = Genes::default();
    let mut s = settlement(vec![
        member(0, 10, 0, genes),
        member(1, 11, 0, genes),
        member(2, 12, 0, genes),
        member(3, 13, 0, genes),
    ]);
    let gone = s.remove(1);
    assert_eq!(gone.id, 1);
    assert_eq!(gone.resources, 11);
    let ids: Vec<u32> = s.households.iter().map(|h| h.id).collect();
    assert_eq!(ids, vec![0, 3, 2]);
    let last = s.remove(2);
    assert_eq!(last.resources, 12);
    let ids: Vec<u32> = s.households.iter().map(|h| h.id).collect();
    assert_eq!(ids, vec![0, 3]);
}

#[test]
fn add_appends_the_child_with_the_next_id() {
    let mut rng = StdRng::seed_from_u64(4);
    let genes = Genes::default();
    let mut s = settlement(vec![
        member(4, 10, 0, genes),
        member(9, 1001, 30, genes),
        member(2, 12, 0, genes),
    ]);
    assert_eq!(s.max_id(), 9);
    assert_eq!(s.pos(9), 1);
    s.add(9, Genes::default(), &mut rng);
    assert_eq!(s.population(), 4);
    assert_eq!(s.households[1].resources, 500);
    assert_eq!(s.households[1].load, 30);
    assert_eq!(s.households[0].resources, 10);
    assert_eq!(s.households[2].resources, 12);
    let child = &s.households[3];
    assert_eq!(child.id, 10);
    assert_eq!(child.resources, 500);
    assert_eq!(child.load, 0);
    assert!(child.resource_patch.is_none());
    assert_eq!(s.max_id(), 10);
}

#[test]
fn max_id_of_nobody_is_zero() {
    assert_eq!(settlement(vec![]).max_id(), 0);
}

#[test]
fn find_genes_walks_the_loads() {
    let mark = |n: u64| Genes::new(n, n, n);
    let s = settlement(vec![
        member(0, 0, 0, mark(10)),
        member(1, 0, 300, mark(11)),
        member(2, 0, 0, mark(12)),
        member(3, 0, 700, mark(13)),
    ]);
    assert_eq!(s.find_genes(0), mark(10));
    assert_eq!(s.find_genes(1), mark(11));
    assert_eq!(s.find_genes(300), mark(11));
    assert_eq!(s.find_genes(301), mark(13));
    assert_eq!(s.find_genes(999), mark(13));
}

#[test]
fn influence_weighs_status_against_distance() {
    let genes = Genes::default();
    let near = Settlement { id: 0, position: Index(0, 0), households: vec![] };
    let mut other = Settlement {
        id: 1,
        position: Index(0, 199),
        households: vec![member(0, 0, 1_000_000, genes)],
    };
    assert!(near.influence(&other));
    other.position = Index(0, 200);
    assert!(!near.influence(&other));
    other.position = Index(120, 160);
    assert!(!near.influence(&other));
    other.position = Index(119, 160);
    assert!(near.influence(&other));
    other.households[0].load = 4_000_000;
    other.position = Index(0, 1599);
    assert!(near.influence(&other));
    other.position = Index(0, 1600);
    assert!(!near.influence(&other));
}

#[test]
fn influence_of_a_settlement_without_status_is_not_positive() {
    let here = Settlement {
        id: 0,
        position: Index(3, 3),
        households: vec![member(0, 900_000, 0, Genes::default())],
    };
    assert!(!here.influence(&here));
    let rich = Settlement {
        id: 0,
        position: Index(3, 3),
        households: vec![member(0, 0, 1, Genes::default())],
    };
    assert!(rich.influence(&rich));
}

#[test]
fn influence_holds_for_the_largest_statuses() {
    let genes = Genes::default();
    let here = Settlement { id: 0, position: Index(0, 0), households: vec![] };
    let far = Settlement {
        id: 1,
        position: Index(65_535, 65_535),
        households: vec![member(0, 0, u64::MAX, genes), member(1, 0, u64::MAX, genes)],
    };
    assert!(here.influence(&far));
}

#[test]
fn averages_round_down_and_fall_back_to_zero() {
    let s = settlement(vec![
        member(0, 10, 7, Genes::new(100, 200, 0)),
        member(1, 11, 9, Genes::new(300, 500, 0)),
        member(2, 13, 2, Genes::new(0, 1, 0)),
    ]);
    assert_eq!(s.average_resources(), 11);
    assert_eq!(s.cooperation(), (133, 233));
    assert_eq!(s.average_cooperation(), (150 + 400 + 0) / 3);
    assert_eq!(s.max_load(), 9);
    assert_eq!(s.statuses(), vec![17, 20, 15]);
    assert_eq!(s.total(Measure::Load), 18);
    assert_eq!(s.average(Measure::Load), 6);
    let none = settlement(vec![]);
    assert_eq!(none.average_resources(), 0);
    assert_eq!(none.cooperation(), (0, 0));
    assert_eq!(none.average_cooperation(), 0);
    assert_eq!(none.max_load(), 0);
    assert_eq!(none.statuses(), vec![]);
    assert_eq!(mean_of(7, 2), 3);
    assert_eq!(mean_of(0, 0), 0);
}

#[test]
fn provision_without_patches_leaves_everybody_hungry() {
    let mut rng = StdRng::seed_from_u64(8);
    let mut s = Settlement::new(0, Index(0, 0), 5, GeneSettings::Altruistic);
    s.provision(500_000, &mut rng);
    for h in &s.households {
        assert_eq!(h.resources, 0);
        assert_eq!(h.load, 0);
        assert_eq!(h.hunger, 0);
    }
}

#[test]
fn provision_feeds_from_patches() {
    for seed in 0..20 {
        let mut rng = StdRng::seed_from_u64(seed);
        let mut s = Settlement::new(0, Index(0, 0), 1, GeneSettings::Altruistic);
        s.households[0].resource_patch = Some(Index(0, 1));
        s.provision(SCALE, &mut rng);
        let h = &s.households[0];
        assert!(h.resources >= 100_000 && h.resources < 500_000);
        assert_eq!(h.hunger, 2 * h.resources);
        assert_eq!(h.load, 0);
    }
}

#[test]
fn provision_shares_the_surplus() {
    for seed in 0..20 {
        let mut rng = StdRng::seed_from_u64(seed);
        let givers = Genes::altruistic(500_000);
        let mut s = settlement(vec![member(0, 0, 0, givers), member(1, 3_000_000, 0, givers)]);
        s.provision(0, &mut rng);
        assert_eq!(s.households[0].resources, 0);
        assert_eq!(s.households[0].hunger, 0);
        assert_eq!(s.households[1].resources, 2_000_000);
        assert_eq!(s.households[1].load, 500_000);
        assert_eq!(s.households[1].hunger, SCALE);
    }
}
