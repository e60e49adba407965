use rand::rngs::StdRng;
use rand::SeedableRng;
use settlement_sim::household::Genes;
use settlement_sim::random::{chance, coin};
use settlement_sim::units::{product, scale, MUTATION_AMPL, SCALE};

#[test]
fn default_genes_do_not_give() {
    assert_eq!(Genes::default(), Genes::new(0, 0, 500_000));
    assert_eq!(Genes::defective(123), Genes::new(0, 0, 123));
    assert_eq!(Genes::altruistic(123), Genes::new(SCALE, SCALE, 123));
}

#[test]
fn cooperation_is_the_mean_transfer() {
    assert_eq!(Genes::new(300_000, 700_000, 0).cooperation(), 500_000);
    assert_eq!(Genes::new(1, 2, 0).cooperation(), 1);
    assert_eq!(Genes::new(u64::MAX, u64::MAX, 0).cooperation(), u64::MAX);
}

#[test]
fn mutation_raises_by_part_of_the_amplitude() {
    assert_eq!(Genes::mutate(500_000, 400_000), 600_000);
    assert_eq!(Genes::mutate(500_000, 0), 500_000);
    assert_eq!(Genes::mutate(0, 999_999), 249_999);
    assert_eq!(Genes::mutate(7, 3), 7);
}

#[test]
fn random_choice_stays_near_a_parent() {
    let mut rng = StdRng::seed_from_u64(5);
    let mut firsts = 0;
    let mut seconds = 0;
    let mut raised = 0;
    for _ in 0..2000 {
        let gene = Genes::random_choice(1_000_000, 5_000_000, &mut rng);
        let near_first = 1_000_000 <= gene && gene < 1_000_000 + MUTATION_AMPL;
        let near_second = 5_000_000 <= gene && gene < 5_000_000 + MUTATION_AMPL;
        assert!(near_first || near_second);
        if near_first {
            firsts += 1;
        } else {
            seconds += 1;
        }
        if gene != 1_000_000 && gene != 5_000_000 {
            raised += 1;
        }
    }
    assert!(firsts > 800 && seconds > 800);
    assert!(raised > 400 && raised < 900);
}

#[test]
fn combine_takes_each_trait_from_a_parent() {
    let mut rng = StdRng::seed_from_u64(9);
    let a = Genes::new(0, 2_000_000, 4_000_000);
    let b = Genes::new(1_000_000, 3_000_000, 5_000_000);
    for _ in 0..200 {
        let child = a.combine(b, &mut rng);
        let from = |gene: u64, x: u64, y: u64| {
            (x <= gene && gene < x + MUTATION_AMPL) || (y <= gene && gene < y + MUTATION_AMPL)
        };
        assert!(from(child.peer_transfer, 0, 1_000_000));
        assert!(from(child.subordinate_transfer, 2_000_000, 3_000_000));
        assert!(from(child.attachment, 4_000_000, 5_000_000));
    }
}

#[test]
fn chance_lies_below_one() {
    let mut rng = StdRng::seed_from_u64(1);
    let mut low = 0;
    for _ in 0..5000 {
        let c = chance(&mut rng);
        assert!(c < SCALE);
        if c < SCALE / 2 {
            low += 1;
        }
    }
    assert!(low > 2000 && low < 3000);
}

#[test]
fn coin_shows_both_sides() {
    let mut rng = StdRng::seed_from_u64(2);
    let mut heads = 0;
    for _ in 0..2000 {
        if coin(&mut rng) {
            heads += 1;
        }
    }
    assert!(heads > 800 && heads < 1200);
}

#[test]
fn fixed_point_products_round_down() {
    assert_eq!(scale(1_000_001, 750_000), 750_000);
    assert_eq!(scale(3, 500_000), 1);
    assert_eq!(scale(u64::MAX, SCALE), u64::MAX);
    assert_eq!(scale(u64::MAX, 0), 0);
    assert_eq!(product(u64::MAX, u64::MAX), (u64::MAX as u128) * (u64::MAX as u128));
    assert_eq!(product(6, 7), 42);
}
