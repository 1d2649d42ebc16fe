use pheno_matcher::group::{FunSimAvg, ScoreAggregator};
use pheno_matcher::ontology::{Ontology, TermEntry};
use pheno_matcher::rng::{rng_below, seed_rng};
use pheno_matcher::sample::{sample_indices, sample_terms};
use pheno_matcher::significance::{
    brown_params, calc_simpheny_score, dedup_genes, parse_profile, BackgroundProfile,
};
use pheno_matcher::SimError;
use statrs::distribution::{ChiSquared, ContinuousCDF};

fn entry(id: u32, ic: u32, ancestors: Vec<u32>) -> TermEntry {
    TermEntry { id, ic, ancestors }
}

/// Twenty flat terms, ids 1..=20, each its own closure, with distinct
/// information content.
fn flat_ontology() -> Ontology {
    let mut terms = Vec::new();
    for id in 1..=20u32 {
        terms.push(entry(id, 2 * id + 1, vec![id]));
    }
    Ontology::new(terms).unwrap()
}

fn term_codes() -> Vec<Vec<u8>> {
    (1..=20u32).map(|i| format!("HP:{:07}", i).into_bytes()).collect()
}

fn gene_symbols() -> Vec<Vec<u8>> {
    (1..=10u32).map(|i| format!("G{}", i).into_bytes()).collect()
}

/// The float tail of the estimator: empirical Brown's method over the two
/// exact p-values, exactly as the serving layer computes it.
fn combine(outcome: &pheno_matcher::significance::SignificanceOutcome) -> f64 {
    let pheno = outcome.pheno_p.num as f64 / outcome.pheno_p.den as f64;
    let gene = outcome.gene_p.num as f64 / outcome.gene_p.den as f64;
    let scale = outcome.params.scale_num as f64 / outcome.params.scale_den as f64;
    let dof = outcome.params.dof_num as f64 / outcome.params.dof_den as f64;
    let stat = -2.0 * (pheno.ln() + gene.ln());
    let adjusted = stat / scale;
    let combined = 1.0 - ChiSquared::new(dof).unwrap().cdf(adjusted);
    -combined.log10()
}

#[test]
fn fun_sim_avg_is_the_symmetric_best_match_average() {
    let m = vec![vec![1_000_000u64, 200_000], vec![400_000, 600_000]];
    // row maxima 1.0 and 0.6, column maxima 1.0 and 0.6:
    // ((1.6 / 2) + (1.6 / 2)) / 2 = 0.8
    assert_eq!(FunSimAvg {}.aggregate(&m), 800_000);
}

#[test]
fn fun_sim_avg_of_an_empty_matrix_is_zero() {
    let empty: Vec<Vec<u64>> = Vec::new();
    assert_eq!(FunSimAvg {}.aggregate(&empty), 0);
}

#[test]
fn seeded_generator_reproduces_its_draws() {
    let mut a = seed_rng(12345);
    let mut b = seed_rng(12345);
    for _ in 0..100 {
        assert_eq!(rng_below(&mut a, 1000), rng_below(&mut b, 1000));
    }
}

#[test]
fn draws_stay_below_the_bound() {
    let mut rng = seed_rng(9);
    for _ in 0..200 {
        assert!(rng_below(&mut rng, 7) < 7);
        assert_eq!(rng_below(&mut rng, 1), 0);
    }
}

#[test]
fn term_draws_have_no_duplicates_and_requested_size() {
    let universe: Vec<u32> = (1..=20).collect();
    let mut rng = seed_rng(3);
    for _ in 0..50 {
        let d = sample_terms(&mut rng, &universe, 5).unwrap();
        assert_eq!(d.len(), 5);
        for (i, x) in d.iter().enumerate() {
            assert!(universe.contains(x));
            assert!(!d[i + 1..].contains(x));
        }
    }
}

#[test]
fn index_draws_have_no_duplicates_and_requested_size() {
    let mut rng = seed_rng(4);
    for _ in 0..50 {
        let d = sample_indices(&mut rng, 10, 10).unwrap();
        assert_eq!(d.len(), 10);
        let mut seen = vec![false; 10];
        for x in &d {
            assert!(*x < 10);
            assert!(!seen[*x]);
            seen[*x] = true;
        }
    }
}

#[test]
fn oversized_draw_is_resource_exhaustion_not_a_hang() {
    let universe: Vec<u32> = (1..=20).collect();
    let mut rng = seed_rng(5);
    assert_eq!(
        sample_terms(&mut rng, &universe, 21).err(),
        Some(SimError::ResourceExhaustion)
    );
    assert_eq!(sample_indices(&mut rng, 3, 4).err(), Some(SimError::ResourceExhaustion));
}

#[test]
fn oversized_gene_request_is_resource_exhaustion() {
    let o = flat_ontology();
    let mut rng = seed_rng(6);
    let r = calc_simpheny_score(
        &o,
        &FunSimAvg {},
        vec![1, 2],
        &b"G1".to_vec(),
        800_000,
        11,
        2,
        &b"udn".to_vec(),
        10,
        &term_codes(),
        &gene_symbols(),
        &mut rng,
    );
    assert_eq!(r.err(), Some(SimError::ResourceExhaustion));
}

#[test]
fn unknown_background_profile_is_a_configuration_error() {
    let o = flat_ontology();
    let mut rng = seed_rng(6);
    let r = calc_simpheny_score(
        &o,
        &FunSimAvg {},
        vec![1, 2],
        &b"G1".to_vec(),
        800_000,
        2,
        2,
        &b"foo".to_vec(),
        10,
        &term_codes(),
        &gene_symbols(),
        &mut rng,
    );
    assert_eq!(r.err(), Some(SimError::ConfigurationError));
    assert_eq!(parse_profile(&b"foo".to_vec()).err(), Some(SimError::ConfigurationError));
    assert_eq!(parse_profile(&b"udn".to_vec()).unwrap(), BackgroundProfile::Udn);
    assert_eq!(parse_profile(&b"clinvar".to_vec()).unwrap(), BackgroundProfile::Clinvar);
}

#[test]
fn cohort_parameters_are_the_prefit_decimals() {
    let udn = brown_params(BackgroundProfile::Udn);
    assert_eq!(udn.scale_num, 10_703_270_447_328_037);
    assert_eq!(udn.scale_den, 10_000_000_000_000_000);
    assert_eq!(udn.dof_num, 3_737_175_491_999_793);
    assert_eq!(udn.dof_den, 1_000_000_000_000_000);
    let clinvar = brown_params(BackgroundProfile::Clinvar);
    assert_eq!(clinvar.scale_num, 10_334_745_692_972_533);
    assert_eq!(clinvar.dof_num, 38_704_387_305_049_393);
}

#[test]
fn repeated_gene_symbols_collapse() {
    let raw = vec![b"G1".to_vec(), b"G2".to_vec(), b"G1".to_vec(), b"G3".to_vec()];
    let d = dedup_genes(&raw);
    assert_eq!(d, vec![b"G1".to_vec(), b"G2".to_vec(), b"G3".to_vec()]);
}

#[test]
fn p_values_stay_in_the_half_open_unit_interval() {
    let o = flat_ontology();
    let mut rng = seed_rng(11);
    let out = calc_simpheny_score(
        &o,
        &FunSimAvg {},
        vec![1, 2],
        &b"G1".to_vec(),
        800_000,
        2,
        2,
        &b"clinvar".to_vec(),
        200,
        &term_codes(),
        &gene_symbols(),
        &mut rng,
    )
    .unwrap();
    assert!(out.pheno_p.num >= 1 && out.pheno_p.num <= out.pheno_p.den);
    assert!(out.gene_p.num >= 1 && out.gene_p.num <= out.gene_p.den);
    assert_eq!(out.pheno_p.den, 201);
    assert_eq!(out.gene_p.den, 201);
    assert_eq!(out.scores.len(), 200);
    // the phenotype numerator is exactly the count of trial scores at or
    // above the observed score, plus the Laplace one
    let count = out.scores.iter().filter(|s| **s >= 800_000).count() as u64;
    assert_eq!(out.pheno_p.num, count + 1);
    assert_eq!(out.gene_p.num, out.gene_matches + 1);
}

#[test]
fn clamping_limits_a_trial_to_ten_terms() {
    let o = flat_ontology();
    let mut rng = seed_rng(12);
    let out = calc_simpheny_score(
        &o,
        &FunSimAvg {},
        vec![1, 2],
        &b"G1".to_vec(),
        800_000,
        2,
        15,
        &b"udn".to_vec(),
        5,
        &term_codes(),
        &gene_symbols(),
        &mut rng,
    )
    .unwrap();
    assert_eq!(out.num_terms_used, 10);
}

#[test]
fn end_to_end_udn_significance_is_finite_positive_and_reproducible() {
    let o = flat_ontology();
    let run = || {
        let mut rng = seed_rng(424242);
        calc_simpheny_score(
            &o,
            &FunSimAvg {},
            vec![1, 2],
            &b"G1".to_vec(),
            800_000,
            2,
            2,
            &b"udn".to_vec(),
            1000,
            &term_codes(),
            &gene_symbols(),
            &mut rng,
        )
        .unwrap()
    };
    let first = run();
    let s = combine(&first);
    assert!(s.is_finite());
    assert!(s > 0.0);
    let second = run();
    assert_eq!(first.pheno_p, second.pheno_p);
    assert_eq!(first.gene_p, second.gene_p);
    assert_eq!(first.gene_matches, second.gene_matches);
    assert_eq!(first.scores, second.scores);
    assert_eq!(combine(&second), s);
}
