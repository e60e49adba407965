use rand::rngs::StdRng;
use rand::SeedableRng;
use settlement_sim::resource::ResourceGenerator;
use settlement_sim::settings::{ConfigError, Settings};
use settlement_sim::settlement::GeneSettings;
use settlement_sim::units::SCALE;
use settlement_sim::world::World;

fn settings() -> Settings {
    Settings {
        size: 10,
        settlements: 3,
        households: 4,
        seasons: vec![0, 250_000, 1_000_000],
        degradation: 0,
        genes: GeneSettings::Split,
        own_settlement_mates: true,
        seed: 1,
    }
}

#[test]
fn yield_lies_between_the_seasonal_bounds() {
    let mut rng = StdRng::seed_from_u64(21);
    for level in [0u64, 1, 250_000, 500_000, 999_999, SCALE] {
        let lower = level * 600_000 / SCALE;
        let upper = 400_000 + level * 600_000 / SCALE;
        let mut low_half = 0;
        for _ in 0..500 {
            let amount = ResourceGenerator::generate(level, &mut rng);
            assert!(lower <= amount && amount < upper);
            if amount < lower + 200_000 {
                low_half += 1;
            }
            let again = World::resources(level, &mut rng);
            assert!(lower <= again && again < upper);
        }
        assert!(low_half > 150 && low_half < 350);
    }
}

#[test]
fn yield_bounds_at_the_ends_of_the_season() {
    let mut rng = StdRng::seed_from_u64(22);
    for _ in 0..200 {
        assert!(ResourceGenerator::generate(0, &mut rng) < 400_000);
        let top = ResourceGenerator::generate(SCALE, &mut rng);
        assert!(top >= 600_000 && top < SCALE);
        let mid = ResourceGenerator::generate(500_000, &mut rng);
        assert!(mid >= 300_000 && mid < 700_000);
    }
}

#[test]
fn valid_settings_pass_the_check() {
    assert_eq!(settings().check(), None);
    let mut full = settings();
    full.size = 2;
    full.settlements = 4;
    assert_eq!(full.check(), None);
    let mut all = settings();
    all.degradation = SCALE;
    assert_eq!(all.check(), None);
}

#[test]
fn empty_grid_is_refused() {
    let mut s = settings();
    s.size = 0;
    s.settlements = 0;
    assert_eq!(s.check(), Some(ConfigError::EmptyGrid));
    assert!(matches!(World::new(s), Err(ConfigError::EmptyGrid)));
}

#[test]
fn too_many_settlements_are_refused() {
    let mut s = settings();
    s.size = 2;
    s.settlements = 5;
    assert_eq!(s.check(), Some(ConfigError::TooManySettlements));
    assert!(matches!(World::new(s), Err(ConfigError::TooManySettlements)));
}

#[test]
fn degradation_above_one_is_refused() {
    let mut s = settings();
    s.degradation = SCALE + 1;
    assert_eq!(s.check(), Some(ConfigError::DegradationOutOfRange));
    assert!(matches!(World::new(s), Err(ConfigError::DegradationOutOfRange)));
}

#[test]
fn season_above_one_is_refused() {
    let mut s = settings();
    s.seasons = vec![0, SCALE + 1, 3];
    assert_eq!(s.check(), Some(ConfigError::SeasonOutOfRange));
    assert!(matches!(World::new(s), Err(ConfigError::SeasonOutOfRange)));
}

#[test]
fn faults_are_reported_in_their_order() {
    let mut s = settings();
    s.size = 0;
    s.settlements = 9;
    s.degradation = SCALE + 1;
    s.seasons = vec![SCALE + 1];
    assert_eq!(s.check(), Some(ConfigError::EmptyGrid));
    s.size = 2;
    assert_eq!(s.check(), Some(ConfigError::TooManySettlements));
    s.settlements = 1;
    assert_eq!(s.check(), Some(ConfigError::DegradationOutOfRange));
    s.degradation = 0;
    assert_eq!(s.check(), Some(ConfigError::SeasonOutOfRange));
}

#[test]
fn season_table_repeats() {
    let s = settings();
    assert_eq!(s.level(0), 0);
    assert_eq!(s.level(1), 250_000);
    assert_eq!(s.level(2), 1_000_000);
    assert_eq!(s.level(3), 0);
    assert_eq!(s.level(7), 250_000);
    let mut flat = settings();
    flat.seasons = vec![];
    assert_eq!(flat.level(0), 500_000);
    assert_eq!(flat.level(12_345), 500_000);
}
