use smds::backend::{LocalMultiSheBackend, TwoPartyMultiSheEngine};
use smds::bench::{build_scenario_datasets, run_scenario_benchmark, run_scenario_benchmark_with_engine};
use smds::bignum::BigNum;
use smds::crypto_utils::build_root_polynomial;
use smds::engine::{plain_dedup_rank, SmdsEngine};
use smds::types::{ScenarioKind, SmdsParams, UserDataset};

/// The prices of the six-row sample CSV used by the benchmark tests.
fn sample_prices() -> Vec<u64> {
    vec![10, 20, 30, 40, 50, 60]
}

#[test]
fn keygen_is_stable() {
    let (pp, sk1, sk2) = LocalMultiSheBackend::keygen(2_048, 40, 160);
    assert_eq!(pp.k0, 2_048);
    assert_eq!(pp.k1, 40);
    assert_eq!(pp.k2, 160);
    assert_eq!(sk1.modulus, pp.modulus);
    assert_eq!(sk2.modulus, pp.modulus);
}

#[test]
fn encrypt_decrypt_roundtrip() {
    let (pp, sk1, sk2) = LocalMultiSheBackend::keygen(2_048, 40, 160);
    let msg = BigNum::from_u64(3_600);
    let ct = LocalMultiSheBackend::encrypt(&pp, &sk1, &sk2, &msg);
    let recovered = LocalMultiSheBackend::decrypt(&pp, &sk1, &sk2, &ct);
    assert_eq!(recovered, msg);
}

#[test]
fn homomorphic_ops_are_exact_in_the_reference_backend() {
    let a = BigNum::from_u64(7);
    let b = BigNum::from_u64(11);
    assert_eq!(LocalMultiSheBackend::add_ct_ct(&a, &b), BigNum::from_u64(18));
    assert_eq!(LocalMultiSheBackend::mul_ct_ct(&a, &b), BigNum::from_u64(77));
}

#[test]
fn scenarios_generate_expected_shapes() {
    let prices = sample_prices();
    let baseline = build_scenario_datasets(ScenarioKind::BangaloreBaseline, &prices, 3, 2, 7);
    let overlap = build_scenario_datasets(ScenarioKind::MultiUserOverlap, &prices, 3, 2, 7);
    let disjoint = build_scenario_datasets(ScenarioKind::MultiUserDisjoint, &prices, 3, 2, 7);
    let duplicate = build_scenario_datasets(ScenarioKind::DuplicateHeavy, &prices, 3, 2, 7);
    let single = build_scenario_datasets(ScenarioKind::SingleUser, &prices, 3, 2, 7);

    assert_eq!(baseline.len(), 3);
    assert_eq!(overlap.len(), 3);
    assert_eq!(disjoint.len(), 3);
    assert_eq!(duplicate.len(), 3);
    assert_eq!(single.len(), 1);
    assert!(duplicate.iter().all(|dataset| dataset.values[0] == dataset.values[1]));
    assert_eq!(disjoint[0].values, vec![10, 20]);
    assert_eq!(disjoint[1].values, vec![30, 40]);
    assert_eq!(disjoint[2].values, vec![50, 60]);
}

#[test]
fn benchmark_report_contains_summary_and_correctness() {
    let prices = sample_prices();
    let report = run_scenario_benchmark(ScenarioKind::DuplicateHeavy, "sample.csv", &prices, 2, 3, 11, 2);
    assert!(report.correctness);
    assert_eq!(report.dataset_summary.total_values, 6);
    assert_eq!(report.dataset_summary.per_user_lengths, vec![3, 3]);
    assert_eq!(report.dataset_summary.unique_values, 1);
    assert_eq!(report.reference_ranks, report.protocol_ranks);
}

#[test]
fn generic_backend_entry_point_matches_local() {
    let prices = sample_prices();
    let engine = SmdsEngine::<LocalMultiSheBackend>::new(SmdsParams::baseline_bangalore(2, 3));
    let report = run_scenario_benchmark_with_engine(
        &engine,
        ScenarioKind::BangaloreBaseline,
        "sample.csv",
        &prices,
        2,
        3,
        11,
        2,
    );
    assert!(report.correctness);
}

#[test]
fn reference_ranks_are_global() {
    let datasets = vec![
        UserDataset { values: vec![10, 20, 10] },
        UserDataset { values: vec![20, 30] },
    ];
    let ranks = plain_dedup_rank(&datasets);
    assert_eq!(ranks, vec![vec![1, 2, 1], vec![2, 3]]);
}

#[test]
fn engine_pipeline_runs_end_to_end() {
    let engine: SmdsEngine<LocalMultiSheBackend> = SmdsEngine::new(SmdsParams::baseline_bangalore(2, 3));
    let datasets = vec![
        UserDataset { values: vec![39, 120, 39] },
        UserDataset { values: vec![120, 300] },
    ];
    let run = engine.run(&datasets, 7);
    assert_eq!(run.reference_ranks, vec![vec![1, 2, 1], vec![2, 3]]);
    assert_eq!(run.recovered.len(), 2);
    assert_eq!(run.offline.user_states.len(), 2);
}

#[test]
fn root_polynomial_has_expected_roots() {
    let coeffs = build_root_polynomial(&[2, 3]);
    assert_eq!(coeffs, vec![BigNum::from_i64(6), BigNum::from_i64(-5), BigNum::one()]);
}
