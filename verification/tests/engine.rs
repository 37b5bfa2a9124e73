use rand::SeedableRng;
use rand::rngs::StdRng;

use simulation::{init, step, Config, DomainError, EnvRule, InitConfig, Ploidy, PROB_ONE};

fn rng(seed: u64) -> StdRng {
    StdRng::seed_from_u64(seed)
}

fn quiescent_config(loci: usize) -> Config {
    Config {
        t_max: Some(10),
        mutation_mu: vec![0; loci],
        mutation_sigma: 0,
        rec: 0,
        r_max: 1000,
        selection_sigma: 1,
        gamma: 0,
        ploidy: Ploidy::Haploid,
        m: 0,
        env_rule: EnvRule::Constant,
    }
}

#[test]
fn init_ok_shapes() {
    let ic = InitConfig {
        loci: 2,
        population: vec![vec![1, 2], vec![3, 4], vec![5, 6], vec![7, 8]],
        environment: vec![10, -10],
    };
    let s = init(ic).unwrap();
    assert_eq!(s.tick, 0);
    assert_eq!(s.loci, 2);
    assert_eq!(s.population.len(), 4);
    for c in &s.population {
        assert_eq!(c.len(), 2);
    }
    assert_eq!(s.environment, vec![10, -10]);
    assert_eq!(s.population[3], vec![7, 8]);
}

#[test]
fn init_rejects_indivisible() {
    let ic = InitConfig {
        loci: 1,
        population: vec![vec![0], vec![0], vec![0], vec![0], vec![0]],
        environment: vec![0, 0],
    };
    let e = init(ic).unwrap_err();
    assert_eq!(e, DomainError::NotDivisible);
    assert_eq!(
        e.message(),
        "population size must be divisible by number of patches"
    );
}

#[test]
fn init_empty_population() {
    let ic = InitConfig { loci: 1, population: vec![], environment: vec![0] };
    let mut s = init(ic).unwrap();
    let cfg = quiescent_config(1);
    let mut r = rng(7);
    step(&mut s, &cfg, &mut r);
    assert_eq!(s.tick, 1);
    assert_eq!(s.population.len(), 0);
    assert_eq!(s.environment.len(), 1);
}

#[test]
fn mortality_gamma_zero_marks_none() {
    let ic = InitConfig {
        loci: 1,
        population: vec![vec![0], vec![1], vec![2], vec![3]],
        environment: vec![0],
    };
    let s = init(ic).unwrap();
    let mut r = rng(1);
    let dead = s.adult_death(0, &mut r);
    assert!(dead.is_empty());
}

#[test]
fn mortality_gamma_one_marks_all() {
    let ic = InitConfig {
        loci: 1,
        population: vec![vec![0], vec![1], vec![2], vec![3]],
        environment: vec![0],
    };
    let s = init(ic).unwrap();
    let mut r = rng(1);
    let dead = s.adult_death(PROB_ONE, &mut r);
    assert_eq!(dead, vec![0, 1, 2, 3]);
}

#[test]
fn optimum_phenotype_gets_peak_weight() {
    // One locus, one patch with optimum 5; the first individual sits exactly
    // on the optimum, the second is at distance 2.
    let ic = InitConfig {
        loci: 1,
        population: vec![vec![5], vec![3]],
        environment: vec![5],
    };
    let s = init(ic).unwrap();
    let w = s.reproduction(100, 1);
    assert_eq!(w.len(), 2);
    assert_eq!(w[0], 100);
    assert!(w[1] < 100);
}

#[test]
fn weight_antitone_in_distance() {
    // Individuals at distances 0, 1, 2, 3 from the single optimum.
    let ic = InitConfig {
        loci: 1,
        population: vec![vec![9], vec![8], vec![7], vec![6]],
        environment: vec![9],
    };
    let s = init(ic).unwrap();
    let w = s.reproduction(1000, 2);
    assert_eq!(w[0], 1000);
    assert!(w[0] >= w[1] && w[1] >= w[2] && w[2] >= w[3]);
}

#[test]
fn density_regulation_restores_capacity() {
    // Two patches of two; both slots of patch 0 die; the recruits must be
    // copies of patch-0 individuals and the shape must be unchanged.
    let ic = InitConfig {
        loci: 1,
        population: vec![vec![1], vec![2], vec![3], vec![4]],
        environment: vec![1, 3],
    };
    let mut s = init(ic).unwrap();
    let w = s.reproduction(1000, 1);
    let dead = vec![0usize, 1];
    let mut r = rng(5);
    s.density_regulation(&w, &dead, &mut r);
    assert_eq!(s.population.len(), 4);
    for c in &s.population {
        assert_eq!(c.len(), 1);
    }
    // Survivor slots untouched.
    assert_eq!(s.population[2], vec![3]);
    assert_eq!(s.population[3], vec![4]);
    // Recruits come from patch 0, whose values were 1 and 2.
    for i in 0..2 {
        let v = s.population[i][0];
        assert!(v == 1 || v == 2);
    }
}

#[test]
fn mutation_mu_zero_leaves_population_unchanged() {
    let ic = InitConfig {
        loci: 2,
        population: vec![vec![1, -2], vec![3, -4]],
        environment: vec![0],
    };
    let mut s = init(ic).unwrap();
    let before = s.population.clone();
    let mut r = rng(11);
    s.mutation(&vec![0, 0], 5, &mut r);
    assert_eq!(s.population, before);
}

#[test]
fn mutation_mu_one_hits_every_locus_on_the_grid() {
    let ic = InitConfig {
        loci: 2,
        population: vec![vec![10, 20], vec![30, 40]],
        environment: vec![0],
    };
    let mut s = init(ic).unwrap();
    let before = s.population.clone();
    let mut r = rng(11);
    // Expected magnitude 1: every effect is +/-1 or +/-2 grid steps, so every
    // value changes by a whole (nonzero) number of steps.
    s.mutation(&vec![PROB_ONE, PROB_ONE], 1, &mut r);
    for i in 0..2 {
        for j in 0..2 {
            let d = s.population[i][j] - before[i][j];
            assert!(d != 0);
            assert!(d.abs() <= 2);
        }
    }
}

#[test]
fn dispersal_m_zero_moves_nobody() {
    let ic = InitConfig {
        loci: 1,
        population: vec![vec![1], vec![2], vec![3], vec![4]],
        environment: vec![0, 0],
    };
    let mut s = init(ic).unwrap();
    let before = s.population.clone();
    let mut r = rng(3);
    s.dispersal(0, &mut r);
    assert_eq!(s.population, before);
}

#[test]
fn dispersal_m_one_two_patches_exchanges_blocks() {
    let ic = InitConfig {
        loci: 1,
        population: vec![vec![1], vec![2], vec![3], vec![4]],
        environment: vec![0, 0],
    };
    let mut s = init(ic).unwrap();
    let mut r = rng(3);
    s.dispersal(PROB_ONE, &mut r);
    // cap == 2: the two blocks are exchanged slot for slot.
    assert_eq!(s.population, vec![vec![3], vec![4], vec![1], vec![2]]);
}

#[test]
fn recombination_rate_one_swaps_every_pair() {
    let ic = InitConfig {
        loci: 2,
        population: vec![vec![1, 2], vec![3, 4]],
        environment: vec![0],
    };
    let mut s = init(ic).unwrap();
    let mut r = rng(9);
    s.recombination(PROB_ONE, &Ploidy::Diploid, &mut r);
    assert_eq!(s.population, vec![vec![2, 1], vec![4, 3]]);
}

#[test]
fn recombination_haploid_is_skipped() {
    let ic = InitConfig {
        loci: 2,
        population: vec![vec![1, 2], vec![3, 4]],
        environment: vec![0],
    };
    let mut s = init(ic).unwrap();
    let before = s.population.clone();
    let mut r = rng(9);
    s.recombination(PROB_ONE, &Ploidy::Haploid, &mut r);
    assert_eq!(s.population, before);
}

#[test]
fn environment_rule_linear_drifts_each_tick() {
    let ic = InitConfig {
        loci: 1,
        population: vec![vec![0], vec![0]],
        environment: vec![0, 10],
    };
    let mut s = init(ic).unwrap();
    let mut cfg = quiescent_config(1);
    cfg.env_rule = EnvRule::Linear { delta: 3 };
    let mut r = rng(2);
    let before = s.population.clone();
    step(&mut s, &cfg, &mut r);
    assert_eq!(s.environment, vec![3, 13]);
    step(&mut s, &cfg, &mut r);
    assert_eq!(s.environment, vec![6, 16]);
    assert_eq!(s.tick, 2);
    // A quiescent configuration leaves the population bit-for-bit unchanged.
    assert_eq!(s.population, before);
}

#[test]
fn end_to_end_capacity_invariant() {
    // 100 individuals, 2 loci, 2 patches of 50, full turnover each tick,
    // mutation, recombination and dispersal off.
    let mut population = Vec::new();
    for i in 0..100 {
        population.push(vec![(i % 7) as i32, (i % 3) as i32]);
    }
    let ic = InitConfig { loci: 2, population, environment: vec![2, 4] };
    let mut s = init(ic).unwrap();
    let cfg = Config {
        t_max: Some(10),
        mutation_mu: vec![0, 0],
        mutation_sigma: 0,
        rec: 0,
        r_max: 1000,
        selection_sigma: 1,
        gamma: PROB_ONE,
        ploidy: Ploidy::Diploid,
        m: 0,
        env_rule: EnvRule::Constant,
    };
    let mut r = rng(42);
    for t in 0..10u64 {
        step(&mut s, &cfg, &mut r);
        assert_eq!(s.tick, t + 1);
        assert_eq!(s.population.len(), 100);
        for c in &s.population {
            assert_eq!(c.len(), 2);
        }
        assert_eq!(s.environment.len(), 2);
        // Contiguous blocks of N/n slots per patch: both patches hold exactly
        // 50 individuals at every tick.
        assert_eq!(s.population.len() / s.environment.len(), 50);
    }
}

#[test]
fn environment_rule_periodic_alternates() {
    let ic = InitConfig {
        loci: 1,
        population: vec![vec![0], vec![0]],
        environment: vec![0],
    };
    let mut s = init(ic).unwrap();
    let mut cfg = quiescent_config(1);
    cfg.env_rule = EnvRule::Periodic { amplitude: 2, period: 4 };
    let mut r = rng(6);
    // Drift is +2 while tick % 4 < 2 and -2 otherwise: 0, 2, 4, 2, 0.
    let expected = [2i64, 4, 2, 0];
    for e in expected {
        step(&mut s, &cfg, &mut r);
        assert_eq!(s.environment, vec![e]);
    }
}
