use rand::rngs::StdRng;
use rand::SeedableRng;
use settlement_sim::census::Measure;
use settlement_sim::grid::{Cell, Index};
use settlement_sim::household::{Genes, Household};
use settlement_sim::settings::Settings;
use settlement_sim::settlement::{GeneSettings, Settlement};
use settlement_sim::units::SCALE;
use settlement_sim::world::World;

fn settings(size: u16, settlements: u16, households: u16, seed: u64) -> Settings {
    Settings {
        size,
        settlements,
        households,
        seasons: vec![500_000],
        degradation: 0,
        genes: GeneSettings::Altruistic,
        own_settlement_mates: true,
        seed,
    }
}

fn member(id: u32, resources: u64, load: u64, genes: Genes) -> Household {
    let mut h = Household::new(id, genes);
    h.resources = resources;
    h.load = load;
    h
}

/// A world of one settlement with id 0 on the middle of a grid of side 5.
fn island(households: Vec<Household>) -> World {
    let mut matrix = vec![vec![Cell::Unclaimed; 5]; 5];
    matrix[2][2] = Cell::Settled(0);
    World {
        settings: settings(5, 1, 0, 1),
        matrix,
        settlements: vec![Settlement { id: 0, position: Index(2, 2), households }],
        iteration: 0,
        rng: StdRng::seed_from_u64(1),
    }
}

fn anchors(world: &World) -> Vec<Index> {
    world.settlements.iter().map(|s| s.position).collect()
}

#[test]
fn new_world_settles_distinct_cells() {
    let world = World::new(settings(6, 5, 3, 17)).unwrap();
    assert_eq!(world.iteration(), 0);
    assert_eq!(world.count_settlements(), 5);
    assert_eq!(world.count_population(), 15);
    let mut settled = 0;
    for r in 0..6 {
        for c in 0..6 {
            match world.cell(Index(r, c)) {
                Cell::Settled(id) => {
                    settled += 1;
                    assert_eq!(world.settlements[id as usize].position, Index(r, c));
                }
                Cell::Unclaimed => {}
                Cell::Claimed(_) => panic!("a new world has no claimed cell"),
            }
        }
    }
    assert_eq!(settled, 5);
    for (n, s) in world.settlements.iter().enumerate() {
        assert_eq!(s.id as usize, n);
        assert_eq!(s.population(), 3);
        assert_eq!(world.cell(s.position), Cell::Settled(s.id));
        for (i, h) in s.households.iter().enumerate() {
            assert_eq!(h.id as usize, i);
            assert_eq!(h.resources, 0);
            assert_eq!(h.load, 0);
            assert!(h.resource_patch.is_none());
            assert_eq!(h.genes, Genes::altruistic(500_000));
        }
    }
}

#[test]
fn new_world_can_fill_the_grid() {
    let world = World::new(settings(3, 9, 1, 5)).unwrap();
    let mut seen = anchors(&world);
    seen.sort_by_key(|p| (p.0, p.1));
    seen.dedup();
    assert_eq!(seen.len(), 9);
    for r in 0..3 {
        for c in 0..3 {
            assert!(matches!(world.cell(Index(r, c)), Cell::Settled(_)));
        }
    }
}

#[test]
fn new_world_without_settlements_is_empty() {
    let mut world = World::new(settings(4, 0, 7, 5)).unwrap();
    assert_eq!(world.count_settlements(), 0);
    assert_eq!(world.count_population(), 0);
    assert_eq!(world.gini_coefficient(), 0);
    assert_eq!(world.average_resources(), 0);
    assert_eq!(world.max_load(), 0);
    assert!(world.has_room());
    let report = world.iterate();
    assert_eq!((report.births, report.deaths), (0, 0));
    assert_eq!(world.iteration(), 1);
}

#[test]
fn new_world_depends_on_the_seed_only() {
    let first = World::new(settings(20, 6, 2, 99)).unwrap();
    let second = World::new(settings(20, 6, 2, 99)).unwrap();
    assert_eq!(anchors(&first), anchors(&second));
    let mut differs = false;
    for seed in 100..110 {
        let other = World::new(settings(20, 6, 2, seed)).unwrap();
        if anchors(&other) != anchors(&first) {
            differs = true;
        }
    }
    assert!(differs);
}

#[test]
fn search_finds_the_first_neighbour() {
    let world = island(vec![]);
    assert_eq!(world.find_unclaimed_patch(Index(2, 2), 0), Some(Index(2, 3)));
}

#[test]
fn search_goes_on_in_the_order_of_the_neighbours() {
    let mut world = island(vec![]);
    world.matrix[2][3] = Cell::Claimed(0);
    assert_eq!(world.find_unclaimed_patch(Index(2, 2), 0), Some(Index(3, 2)));
    world.matrix[3][2] = Cell::Claimed(0);
    assert_eq!(world.find_unclaimed_patch(Index(2, 2), 0), Some(Index(2, 1)));
    world.matrix[2][1] = Cell::Claimed(0);
    assert_eq!(world.find_unclaimed_patch(Index(2, 2), 0), Some(Index(1, 2)));
    world.matrix[1][2] = Cell::Claimed(0);
    assert_eq!(world.find_unclaimed_patch(Index(2, 2), 0), Some(Index(2, 4)));
}

#[test]
fn search_prefers_the_nearer_cell() {
    let mut world = island(vec![]);
    world.matrix[2][3] = Cell::Claimed(0);
    world.matrix[2][4] = Cell::Claimed(0);
    world.matrix[3][2] = Cell::Claimed(0);
    world.matrix[2][1] = Cell::Claimed(0);
    world.matrix[1][2] = Cell::Claimed(9);
    assert_eq!(world.find_unclaimed_patch(Index(2, 2), 0), Some(Index(3, 3)));
}

#[test]
fn search_does_not_cross_the_land_of_others() {
    let mut world = island(vec![]);
    world.matrix[2][3] = Cell::Claimed(9);
    world.matrix[3][2] = Cell::Claimed(9);
    world.matrix[2][1] = Cell::Settled(4);
    world.matrix[1][2] = Cell::Claimed(9);
    assert_eq!(world.find_unclaimed_patch(Index(2, 2), 0), None);
    assert_eq!(world.find_unclaimed_patch(Index(2, 2), 9), Some(Index(2, 4)));
}

#[test]
fn search_fails_on_a_full_grid() {
    let mut world = island(vec![]);
    for r in 0..5 {
        for c in 0..5 {
            if (r, c) != (2, 2) {
                world.matrix[r][c] = Cell::Claimed(0);
            }
        }
    }
    assert_eq!(world.find_unclaimed_patch(Index(2, 2), 0), None);
    world.matrix[4][4] = Cell::Unclaimed;
    assert_eq!(world.find_unclaimed_patch(Index(2, 2), 0), Some(Index(4, 4)));
}

#[test]
fn degradation_takes_its_share_from_everybody() {
    let genes = Genes::default();
    let mut world = island(vec![member(0, 1_000_001, 5, genes), member(1, 3, 0, genes)]);
    world.settings.degradation = 250_000;
    world.iterate_degradation();
    assert_eq!(world.settlements[0].households[0].resources, 750_000);
    assert_eq!(world.settlements[0].households[0].load, 5);
    assert_eq!(world.settlements[0].households[1].resources, 2);
    assert_eq!(world.iteration(), 0);
}

#[test]
fn tick_claims_land_for_everybody() {
    let mut world = World::new(settings(8, 2, 5, 3)).unwrap();
    assert!(world.has_room());
    let report = world.iterate();
    assert_eq!(world.iteration(), 1);
    let mut claimed = 0;
    for r in 0..8 {
        for c in 0..8 {
            if let Cell::Claimed(_) = world.cell(Index(r, c)) {
                claimed += 1;
            }
        }
    }
    let patches: usize = world
        .settlements
        .iter()
        .map(|s| s.households.iter().filter(|h| h.resource_patch.is_some()).count())
        .sum();
    assert_eq!(claimed, patches);
    assert_eq!(world.count_population() + report.deaths, 10 + report.births);
    assert_eq!(patches, world.count_population());
}

#[test]
fn the_sated_die_and_leave_their_children() {
    let genes = Genes::altruistic(500_000);
    let households: Vec<Household> =
        (0..3000).map(|id| member(id, 10 * SCALE, 0, genes)).collect();
    let mut world = island(households);
    world.settings.own_settlement_mates = false;
    assert!(world.has_room());
    let report = world.iterate();
    assert_eq!(report.deaths, 3000);
    assert!(report.births > 15 && report.births < 90);
    assert_eq!(world.count_population(), report.births);
    for h in &world.settlements[0].households {
        assert!(h.id >= 3000);
        assert_eq!(h.load, 0);
        assert_eq!(h.hunger, 0);
        assert!(h.resource_patch.is_none());
        assert!(h.resources > 4 * SCALE && h.resources < 6 * SCALE);
        assert!(h.genes.peer_transfer >= SCALE && h.genes.peer_transfer < SCALE + 250_000);
    }
    for r in 0..5 {
        for c in 0..5 {
            assert!(!matches!(world.cell(Index(r, c)), Cell::Claimed(_)));
        }
    }
}

#[test]
fn empty_settlements_leave_the_world() {
    let genes = Genes::default();
    let mut world = island(vec![member(0, 1 + SCALE, 0, genes)]);
    world.settlements.push(Settlement {
        id: 4,
        position: Index(0, 0),
        households: vec![member(0, 0, 0, genes)],
    });
    world.matrix[0][0] = Cell::Settled(4);
    assert!(world.has_room());
    let report = world.iterate();
    assert_eq!(report.deaths, 1);
    assert_eq!(world.count_settlements(), 1);
    assert_eq!(world.settlements[0].id, 4);
    assert_eq!(world.cell(Index(2, 2)), Cell::Settled(0));
    assert_eq!(world.cell(Index(0, 0)), Cell::Settled(4));
}

#[test]
fn mates_come_from_settlements_with_influence() {
    let mark = |n: u64| Genes::new(n, n, n);
    let mut world = island(vec![member(0, 0, 0, mark(1)), member(1, 0, 0, mark(2))]);
    world.settlements.push(Settlement {
        id: 1,
        position: Index(0, 0),
        households: vec![member(0, 0, 300, mark(3)), member(1, 0, 500_000, mark(4))],
    });
    world.settlements.push(Settlement {
        id: 2,
        position: Index(4, 4),
        households: vec![member(0, 0, 9, mark(5))],
    });
    world.matrix[0][0] = Cell::Settled(1);
    world.matrix[4][4] = Cell::Settled(2);
    assert!(!world.is_mate_source(0, 0));
    assert!(world.is_mate_source(0, 1));
    assert!(!world.is_mate_source(0, 2));
    assert_eq!(world.mate_pool_of(0), 500_300);
    assert_eq!(world.select_mate(0, 0), mark(3));
    assert_eq!(world.select_mate(0, 300), mark(3));
    assert_eq!(world.select_mate(0, 301), mark(4));
    assert_eq!(world.select_mate(0, 500_299), mark(4));
    assert!(world.is_mate_source(1, 1));
    assert_eq!(world.mate_pool_of(1), 500_300);
    world.settings.own_settlement_mates = false;
    assert!(!world.is_mate_source(1, 1));
    assert_eq!(world.mate_pool_of(1), 0);
}

#[test]
fn world_averages_are_means_of_means() {
    let genes = Genes::new(100, 300, 0);
    let mut world = island(vec![member(0, 10, 4, genes), member(1, 20, 8, genes)]);
    world.settlements.push(Settlement {
        id: 1,
        position: Index(0, 0),
        households: vec![member(0, 40, 7, Genes::new(500, 700, 0))],
    });
    world.matrix[0][0] = Cell::Settled(1);
    assert_eq!(world.average_resources(), (15 + 40) / 2);
    assert_eq!(world.cooperation(), (300, 500));
    assert_eq!(world.average_cooperation(), (200 + 600) / 2);
    assert_eq!(world.max_load(), 8);
    assert_eq!(world.average(Measure::Load), (6 + 7) / 2);
    assert_eq!(world.count_population(), 3);
    assert_eq!(world.count_settlements(), 2);
}

#[test]
fn world_gini_spans_all_settlements() {
    let genes = Genes::default();
    let mut world = island(vec![member(0, 0, 0, genes), member(1, 0, 0, genes)]);
    world.iteration = 10;
    world.settlements.push(Settlement {
        id: 1,
        position: Index(0, 0),
        households: vec![member(0, 0, 0, genes), member(1, 3_000_000, 4_000_000, genes)],
    });
    world.matrix[0][0] = Cell::Settled(1);
    assert_eq!(world.gini_coefficient(), 750_000);
    world.settlements[1].households[1] = member(1, 0, 0, genes);
    assert_eq!(world.gini_coefficient(), 0);
    for s in world.settlements.iter_mut() {
        for h in s.households.iter_mut() {
            h.resources = 1_234;
            h.load = 4_321;
        }
    }
    assert_eq!(world.gini_coefficient(), 0);
}

#[test]
fn room_ends_with_the_tick_counter() {
    let mut world = island(vec![]);
    assert!(world.has_room());
    world.iteration = u32::MAX;
    assert!(!world.has_room());
    world.iteration = 0;
    world.settlements[0].households.push(member(u32::MAX, 0, 0, Genes::default()));
    assert!(!world.has_room());
    world.settlements[0].households[0].id = u32::MAX - 1;
    assert!(world.has_room());
}
