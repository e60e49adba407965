use rand::rngs::StdRng;
use rand::SeedableRng;
use settlement_sim::grid::{Cell, Index};
use settlement_sim::household::{Genes, Household};
use settlement_sim::settings::Settings;
use settlement_sim::settlement::{GeneSettings, Settlement};
use settlement_sim::units::SCALE;
use settlement_sim::world::{nth_free, World};

fn member(id: u32, resources: u64, load: u64, genes: Genes) -> Household {
    let mut h = Household::new(id, genes);
    h.resources = resources;
    h.load = load;
    h
}

fn patched(id: u32, patch: Index) -> Household {
    let mut h = member(id, 0, 0, Genes::default());
    h.resource_patch = Some(patch);
    h
}

fn settlement(households: Vec<Household>) -> Settlement {
    Settlement { id: 1, position: Index(0, 0), households }
}

fn world(settlements: Vec<Settlement>, matrix: Vec<Vec<Cell>>) -> World {
    World {
        settings: Settings {
            size: matrix.len() as u16,
            settlements: 0,
            households: 0,
            seasons: vec![],
            degradation: 0,
            genes: GeneSettings::Split,
            own_settlement_mates: true,
            seed: 0,
        },
        matrix,
        settlements,
        iteration: 0,
        rng: StdRng::seed_from_u64(0),
    }
}

#[test]
fn inherit_follows_the_three_draws() {
    assert_eq!(Genes::inherit(100, 900, true, 330_000, 999_999), 100);
    assert_eq!(Genes::inherit(100, 900, false, 330_000, 999_999), 900);
    assert_eq!(Genes::inherit(100, 900, true, 329_999, 400_000), 100_100);
    assert_eq!(Genes::inherit(100, 900, false, 0, 999_999), 900 + 249_999);
    assert_eq!(Genes::inherit(100, 900, false, 0, 0), 900);
}

#[test]
fn gather_feeds_only_those_with_a_patch() {
    for seed in 0..20 {
        let mut rng = StdRng::seed_from_u64(seed);
        let mut s = settlement(vec![
            member(0, 70, 5, Genes::default()),
            patched(1, Index(0, 1)),
            member(2, 0, 0, Genes::default()),
        ]);
        s.gather(250_000, &mut rng);
        assert_eq!(s.households[0].resources, 70);
        assert_eq!(s.households[0].load, 5);
        assert!(s.households[1].resources >= 150_000 && s.households[1].resources < 550_000);
        assert_eq!(s.households[2].resources, 0);
    }
}

#[test]
fn requests_list_the_shortfalls_in_order() {
    let genes = Genes::default();
    let s = settlement(vec![
        member(0, 500_000, 0, genes),
        member(1, 0, 0, genes),
        member(2, 900_000, 0, genes),
        member(3, 499_999, 0, genes),
        member(4, 100_000, 700_000, genes),
    ]);
    assert_eq!(s.requests(), vec![(1, 500_000), (3, 1), (4, 400_000)]);
    assert_eq!(settlement(vec![]).requests(), vec![]);
}

#[test]
fn share_serves_the_requests_in_order() {
    let mut rng = StdRng::seed_from_u64(3);
    let givers = Genes::altruistic(0);
    let mut s = settlement(vec![
        member(0, 100_000, 0, givers),
        member(1, 200_000, 0, givers),
        member(2, 450_000, 0, givers),
    ]);
    let requests = s.requests();
    assert_eq!(requests, vec![(0, 400_000), (1, 300_000), (2, 50_000)]);
    s.share(&requests, &mut rng);
    assert_eq!(s.households[0].resources, 500_000 - 300_000 - 50_000);
    assert_eq!(s.households[0].load, 350_000);
    assert_eq!(s.households[1].resources, 500_000);
    assert_eq!(s.households[1].load, 0);
    assert_eq!(s.households[2].resources, 50_000 + 50_000);
    assert_eq!(s.households[2].load, 400_000);
}

#[test]
fn share_leaves_unserved_requests_alone() {
    let mut rng = StdRng::seed_from_u64(3);
    let keepers = Genes::defective(0);
    let mut s = settlement(vec![member(0, 300_000, 0, keepers), member(1, 450_000, 0, keepers)]);
    let requests = s.requests();
    assert_eq!(requests, vec![(0, 200_000), (1, 50_000)]);
    s.share(&requests, &mut rng);
    assert_eq!(s.households[0].resources, 300_000);
    assert_eq!(s.households[1].resources, 450_000);
    assert_eq!(s.households[0].load + s.households[1].load, 0);
}

#[test]
fn consume_all_charges_everybody() {
    let genes = Genes::default();
    let mut s = settlement(vec![
        member(0, 100_000, 9, genes),
        member(1, 600_000, 0, genes),
        member(2, 2_000_000, 0, genes),
    ]);
    s.consume_all();
    let left: Vec<(u64, u64, u64)> =
        s.households.iter().map(|h| (h.resources, h.load, h.hunger)).collect();
    assert_eq!(left, vec![(0, 9, 0), (100_000, 0, 200_000), (1_500_000, 0, SCALE)]);
}

#[test]
fn nth_free_counts_row_by_row() {
    let mut matrix = vec![vec![Cell::Unclaimed; 3]; 3];
    matrix[0][1] = Cell::Settled(0);
    matrix[1][0] = Cell::Claimed(0);
    matrix[2][2] = Cell::Settled(1);
    assert_eq!(nth_free(&matrix, 3, 0), Index(0, 0));
    assert_eq!(nth_free(&matrix, 3, 1), Index(0, 2));
    assert_eq!(nth_free(&matrix, 3, 2), Index(1, 1));
    assert_eq!(nth_free(&matrix, 3, 3), Index(1, 2));
    assert_eq!(nth_free(&matrix, 3, 4), Index(2, 0));
    assert_eq!(nth_free(&matrix, 3, 5), Index(2, 1));
}

#[test]
fn remove_dead_frees_patches_and_ends_empty_settlements() {
    let mut matrix = vec![vec![Cell::Unclaimed; 4]; 4];
    matrix[0][0] = Cell::Settled(1);
    matrix[3][3] = Cell::Settled(2);
    matrix[2][2] = Cell::Settled(3);
    matrix[0][1] = Cell::Claimed(1);
    matrix[1][0] = Cell::Claimed(1);
    matrix[3][2] = Cell::Claimed(2);
    let first = Settlement {
        id: 1,
        position: Index(0, 0),
        households: vec![
            patched(0, Index(0, 1)),
            member(1, 11, 0, Genes::default()),
            patched(2, Index(1, 0)),
            member(3, 13, 0, Genes::default()),
        ],
    };
    let second = Settlement { id: 2, position: Index(3, 3), households: vec![patched(0, Index(3, 2))] };
    let third = Settlement {
        id: 3,
        position: Index(2, 2),
        households: vec![member(0, 5, 0, Genes::default())],
    };
    let mut w = world(vec![first, second, third], matrix);
    let marks = vec![vec![true, false, false, true], vec![true], vec![false]];
    assert_eq!(w.remove_dead(&marks), 3);
    assert_eq!(w.count_settlements(), 2);
    assert_eq!(w.count_population(), 3);
    let ids: Vec<u32> = w.settlements.iter().map(|s| s.id).collect();
    assert_eq!(ids, vec![1, 3]);
    let left: Vec<u32> = w.settlements[0].households.iter().map(|h| h.id).collect();
    assert_eq!(left, vec![1, 2]);
    assert_eq!(w.cell(Index(0, 1)), Cell::Unclaimed);
    assert_eq!(w.cell(Index(1, 0)), Cell::Claimed(1));
    assert_eq!(w.cell(Index(3, 2)), Cell::Unclaimed);
    assert_eq!(w.cell(Index(3, 3)), Cell::Settled(2));
    assert_eq!(w.cell(Index(0, 0)), Cell::Settled(1));
}

#[test]
fn remove_dead_without_marks_changes_nothing() {
    let mut matrix = vec![vec![Cell::Unclaimed; 2]; 2];
    matrix[0][0] = Cell::Settled(1);
    matrix[0][1] = Cell::Claimed(1);
    let only = Settlement {
        id: 1,
        position: Index(0, 0),
        households: vec![patched(0, Index(0, 1)), member(1, 3, 0, Genes::default())],
    };
    let mut w = world(vec![only], matrix);
    assert_eq!(w.remove_dead(&vec![vec![false, false]]), 0);
    assert_eq!(w.count_population(), 2);
    assert_eq!(w.cell(Index(0, 1)), Cell::Claimed(1));
}

#[test]
fn nobody_who_cannot_live_outlives_a_tick() {
    for seed in 0..5 {
        let mut w = World::new(Settings {
            size: 6,
            settlements: 3,
            households: 8,
            seasons: vec![900_000, 100_000, 500_000],
            degradation: 100_000,
            genes: GeneSettings::Split,
            own_settlement_mates: false,
            seed,
        })
        .unwrap();
        for _ in 0..30 {
            assert!(w.has_room());
            w.iterate();
            for s in &w.settlements {
                for h in &s.households {
                    assert!(h.hunger < SCALE / 100);
                }
            }
        }
    }
}
