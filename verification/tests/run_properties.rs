use settlement_sim::grid::{Cell, Index};
use settlement_sim::settings::Settings;
use settlement_sim::settlement::GeneSettings;
use settlement_sim::world::World;

fn settings(size: u16, settlements: u16, households: u16, seed: u64) -> Settings {
    Settings {
        size,
        settlements,
        households,
        seasons: vec![300_000, 400_000, 500_000, 600_000, 500_000, 400_000],
        degradation: 0,
        genes: GeneSettings::Split,
        own_settlement_mates: true,
        seed,
    }
}

/// The seasonal levels of `ticks` ticks at the given frequency: half a sine
/// of the share of the run that has passed, plus a half.
fn seasons(ticks: u32, frequency: f64) -> Vec<u64> {
    (0..ticks)
        .map(|t| {
            let x = t as f64 / ticks as f64;
            let level = 0.5 * (2.0 * std::f64::consts::PI * x * frequency).sin() + 0.5;
            ((level * 1_000_000.0).round() as u64).min(1_000_000)
        })
        .collect()
}

fn claimed_cells(world: &World) -> Vec<(Index, u32)> {
    let size = world.settings.size as usize;
    let mut cells = Vec::new();
    for r in 0..size {
        for c in 0..size {
            if let Cell::Claimed(id) = world.cell(Index(r, c)) {
                cells.push((Index(r, c), id));
            }
        }
    }
    cells
}

fn owners(world: &World, cell: Index, id: u32) -> usize {
    world
        .settlements
        .iter()
        .filter(|s| s.id == id)
        .map(|s| s.households.iter().filter(|h| h.resource_patch == Some(cell)).count())
        .sum()
}

fn check_cells(world: &World) {
    for (cell, id) in claimed_cells(world) {
        assert_eq!(owners(world, cell, id), 1);
    }
    for s in &world.settlements {
        assert_eq!(world.cell(s.position), Cell::Settled(s.id));
        for h in &s.households {
            if let Some(p) = h.resource_patch {
                assert_eq!(world.cell(p), Cell::Claimed(s.id));
            }
        }
    }
}

#[test]
fn claimed_cells_have_one_owner_at_every_tick() {
    for seed in 0..6 {
        let mut world = World::new(settings(6, 3, 6, seed)).unwrap();
        check_cells(&world);
        for _ in 0..40 {
            assert!(world.has_room());
            world.iterate();
            check_cells(&world);
        }
    }
}

#[test]
fn released_patches_are_unclaimed() {
    for seed in 0..6 {
        let mut world = World::new(settings(6, 3, 6, seed)).unwrap();
        for _ in 0..40 {
            let before: Vec<(u32, u32, Index)> = world
                .settlements
                .iter()
                .flat_map(|s| {
                    s.households
                        .iter()
                        .filter_map(move |h| h.resource_patch.map(|p| (s.id, h.id, p)))
                })
                .collect();
            assert!(world.has_room());
            world.iterate();
            for (settlement, household, patch) in before {
                let lives = world.settlements.iter().any(|s| {
                    s.id == settlement
                        && s.households
                            .iter()
                            .any(|h| h.id == household && h.resource_patch == Some(patch))
                });
                if !lives {
                    assert_eq!(world.cell(patch), Cell::Unclaimed);
                }
            }
        }
    }
}

#[test]
fn population_changes_by_births_and_deaths() {
    for seed in 0..6 {
        let mut world = World::new(settings(7, 4, 8, seed)).unwrap();
        let mut died = 0;
        for _ in 0..60 {
            let before = world.count_population();
            assert!(world.has_room());
            let report = world.iterate();
            assert_eq!(world.count_population() + report.deaths, before + report.births);
            let counted: usize = world.settlements.iter().map(|s| s.population()).sum();
            assert_eq!(counted, world.count_population());
            assert!(world.settlements.iter().all(|s| s.population() > 0));
            died += report.deaths;
        }
        assert!(died > 0);
    }
}

#[test]
fn settled_cells_never_change() {
    let mut world = World::new(settings(6, 4, 3, 12)).unwrap();
    let anchors: Vec<(Index, u32)> = world.settlements.iter().map(|s| (s.position, s.id)).collect();
    for _ in 0..50 {
        assert!(world.has_room());
        world.iterate();
        for (cell, id) in &anchors {
            assert_eq!(world.cell(*cell), Cell::Settled(*id));
        }
    }
}

fn trajectory(seed: u64) -> Vec<(usize, usize, u64)> {
    let mut s = settings(50, 3, 20, seed);
    s.seasons = seasons(500, 1.0);
    s.genes = GeneSettings::Altruistic;
    let mut world = World::new(s).unwrap();
    let mut seen = Vec::new();
    for tick in 0..500 {
        assert_eq!(world.iteration(), tick);
        seen.push((world.count_population(), world.count_settlements(), world.gini_coefficient()));
        assert!(world.has_room());
        world.iterate();
    }
    seen
}

#[test]
fn a_seed_fixes_the_whole_run() {
    let first = trajectory(2024);
    let second = trajectory(2024);
    assert_eq!(first.len(), 500);
    assert_eq!(first, second);
    assert_eq!(first[0].0, 60);
    assert_eq!(first[0].1, 3);
    assert_eq!(first[0].2, 0);
    assert!(first.iter().any(|step| step.0 < 60));
}

#[test]
fn another_seed_gives_another_run() {
    let first = trajectory(1);
    assert!((2..8).any(|seed| trajectory(seed) != first));
}

#[test]
fn seasons_follow_the_sine() {
    let table = seasons(500, 1.0);
    assert_eq!(table.len(), 500);
    assert_eq!(table[0], 500_000);
    assert_eq!(table[125], 1_000_000);
    assert_eq!(table[250], 500_000);
    assert_eq!(table[375], 0);
    assert!(table.iter().all(|level| *level <= 1_000_000));
}
