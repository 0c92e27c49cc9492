use smds::backend::{
    normalize_ciphertext, normalize_partial_ciphertext, LocalMultiSheBackend, TwoPartyMultiSheEngine,
};
use smds::bench::{
    build_scenario_datasets, run_bangalore_benchmark, run_scenario_benchmark, scenario_is_representable,
    try_run_bangalore_benchmark, try_run_scenario_benchmark, try_run_scenario_benchmark_with_engine,
};
use smds::bignum::BigNum;
use smds::cli::{parse_scenario, BackendChoice};
use smds::crypto_utils::{
    build_root_polynomial, canonicalize_dataset, poly_mul, sample_user_datasets, sample_with_order,
};
use smds::engine::{
    plain_dedup_rank, reference_from_price_csv, stage_duration_summaries, summarize_datasets, SmdsEngine,
};
use smds::order::{sort_values, sorted_distinct_values};
use smds::server::ServerCoordinator;
use smds::types::{Permutation, ScenarioKind, SmdsParams, UserDataset};
use smds::user::UserClient;

fn datasets(rows: &[&[u64]]) -> Vec<UserDataset> {
    rows.iter().map(|r| UserDataset { values: r.to_vec() }).collect()
}

fn big(negative: bool, magnitude: Vec<u32>) -> BigNum {
    BigNum { negative, magnitude }
}

#[test]
fn permutation_new_builds_the_inverse() {
    let p = Permutation::new(vec![2, 0, 1]).unwrap();
    assert_eq!(p.forward, vec![2, 0, 1]);
    assert_eq!(p.inverse, vec![1, 2, 0]);
}

#[test]
fn permutation_new_reports_a_value_out_of_range() {
    let err = Permutation::new(vec![0, 5, 5]).unwrap_err();
    assert_eq!(err, "permutation value 5 out of range for size 3");
}

#[test]
fn permutation_error_writes_numbers_in_decimal() {
    let err = Permutation::new(vec![0, 1207, 9]).unwrap_err();
    assert_eq!(err, "permutation value 1207 out of range for size 3");
    let err = Permutation::new(vec![10]).unwrap_err();
    assert_eq!(err, "permutation value 10 out of range for size 1");
}

#[test]
fn single_scenario_ignores_the_user_count() {
    let prices = vec![4, 8, 15, 16];
    let single = build_scenario_datasets(ScenarioKind::SingleUser, &prices, 1 << 62, 3, 9);
    assert_eq!(single, sample_user_datasets(&prices, 1, 3, 9));
    let report = run_scenario_benchmark(ScenarioKind::SingleUser, "p.csv", &prices, 1 << 62, 3, 9, 1);
    assert!(report.correctness);
    assert_eq!(report.config.num_users, 1 << 62);
    assert_eq!(report.dataset_summary.per_user_lengths, vec![3]);
}

#[test]
fn permutation_new_reports_a_duplicate() {
    let err = Permutation::new(vec![1, 1, 7]).unwrap_err();
    assert_eq!(err, "duplicate value in permutation");
}

#[test]
fn permutation_identity_is_its_own_inverse() {
    let p = Permutation::identity(4);
    assert_eq!(p.forward, vec![0, 1, 2, 3]);
    assert_eq!(p.inverse, vec![0, 1, 2, 3]);
    assert_eq!(Permutation::identity(0).forward, Vec::<usize>::new());
}

#[test]
fn invert_undoes_apply() {
    let p = Permutation::new(vec![3, 1, 0, 2]).unwrap();
    let indices = vec![0, 3, 3, 1];
    let applied = p.apply_indices(&indices);
    assert_eq!(applied, vec![3, 2, 2, 1]);
    assert_eq!(p.invert_indices(&applied), indices);
}

#[test]
fn canonicalize_keeps_first_occurrences() {
    let c = canonicalize_dataset(&[5, 3, 5, 9, 3]);
    assert_eq!(c.original_values, vec![5, 3, 5, 9, 3]);
    assert_eq!(c.dedup_values, vec![5, 3, 9]);
    assert_eq!(c.original_to_dedup_index, vec![0, 1, 0, 2, 1]);
    let empty = canonicalize_dataset(&[]);
    assert!(empty.dedup_values.is_empty());
}

#[test]
fn poly_mul_multiplies_coefficients() {
    let a = vec![BigNum::from_i64(1), BigNum::from_i64(2)];
    let b = vec![BigNum::from_i64(3), BigNum::from_i64(-1), BigNum::from_i64(4)];
    let p = poly_mul(&a, &b);
    let expected: Vec<BigNum> = [3, 5, 2, 8].iter().map(|&v| BigNum::from_i64(v)).collect();
    assert_eq!(p, expected);
    assert!(poly_mul(&a, &[]).is_empty());
}

#[test]
fn root_polynomial_of_three_values() {
    let coeffs = build_root_polynomial(&[2, 3, 5]);
    let expected: Vec<BigNum> = [-30, 31, -10, 1].iter().map(|&v| BigNum::from_i64(v)).collect();
    assert_eq!(coeffs, expected);
    assert_eq!(build_root_polynomial(&[]), vec![BigNum::one()]);
}

#[test]
fn root_polynomial_takes_values_as_i64() {
    let coeffs = build_root_polynomial(&[u64::MAX]);
    assert_eq!(coeffs, vec![BigNum::from_i64(1), BigNum::from_i64(1)]);
}

#[test]
fn bignum_conversions_are_canonical() {
    assert_eq!(BigNum::from_u64(0), big(false, vec![]));
    assert_eq!(BigNum::from_u64(1 << 32), big(false, vec![0, 1]));
    assert_eq!(BigNum::from_i64(i64::MIN), big(true, vec![0, 0x8000_0000]));
    assert_eq!(BigNum::from_i64(-5), big(true, vec![5]));
}

#[test]
fn local_backend_reduces_modulo_the_mersenne_prime() {
    let (pp, _, _) = LocalMultiSheBackend::keygen(1, 2, 3);
    assert_eq!(pp.modulus, big(false, vec![0xFFFF_FFFF, 0xFFFF_FFFF, 0xFFFF_FFFF, 0x7FFF_FFFF]));
    let two_pow_127 = big(false, vec![0, 0, 0, 0x8000_0000]);
    assert_eq!(normalize_ciphertext(&pp, &two_pow_127), BigNum::one());
    let minus_one = BigNum::from_i64(-1);
    assert_eq!(
        normalize_ciphertext(&pp, &minus_one),
        big(false, vec![0xFFFF_FFFE, 0xFFFF_FFFF, 0xFFFF_FFFF, 0x7FFF_FFFF])
    );
}

#[test]
fn partial_ciphertexts_reduce_to_residues() {
    let (pp, _, _) = LocalMultiSheBackend::keygen(2_048, 40, 160);
    let minus_two = BigNum::from_i64(-2);
    assert_eq!(
        normalize_partial_ciphertext(&pp, &minus_two),
        big(false, vec![0xFFFF_FFFD, 0xFFFF_FFFF, 0xFFFF_FFFF, 0x7FFF_FFFF])
    );
    let residue = BigNum::from_u64(3_600);
    assert_eq!(normalize_partial_ciphertext(&pp, &residue), residue);
}

#[test]
fn local_backend_arithmetic_is_exact() {
    let a = BigNum::from_i64(-7);
    let b = BigNum::from_u64(11);
    assert_eq!(LocalMultiSheBackend::add_pct_plain(&a, &b), BigNum::from_u64(4));
    assert_eq!(LocalMultiSheBackend::mul_pct_pct(&a, &b), BigNum::from_i64(-77));
    let sum = LocalMultiSheBackend::generate_from_zero_encryptions(
        &BigNum::from_u64(1),
        &BigNum::from_u64(2),
        &BigNum::from_u64(3),
        &BigNum::from_u64(4),
        &BigNum::from_u64(5),
    );
    assert_eq!(sum, BigNum::from_u64(15));
    let (_, sk1, sk2) = LocalMultiSheBackend::keygen(1, 2, 3);
    let pct = LocalMultiSheBackend::partial_decrypt_by_server2(&sk2, &b);
    assert_eq!(LocalMultiSheBackend::final_decrypt_by_server1(&sk1, &pct), b);
}

#[test]
fn recovery_reads_out_of_range_values_as_zero() {
    let engine: SmdsEngine<LocalMultiSheBackend> = SmdsEngine::new(SmdsParams::baseline_bangalore(1, 3));
    let response = smds::types::UserEncryptedResponse {
        user_id: 4,
        ciphertexts: vec![BigNum::from_u64(9), big(false, vec![0, 0, 1]), BigNum::from_i64(-3)],
    };
    let recovered = engine.recover_reference_ranks(&[response]);
    assert_eq!(recovered[0].user_id, 4);
    assert_eq!(recovered[0].ranks_in_original_order, vec![9, 0, 0]);
}

#[test]
fn encryption_then_recovery_gives_the_reference_ranks() {
    let engine: SmdsEngine<LocalMultiSheBackend> = SmdsEngine::new(SmdsParams::baseline_bangalore(3, 2));
    let ds = datasets(&[&[7, 7], &[u64::MAX, 0], &[3]]);
    let encrypted = engine.encrypt_reference_ranks(&ds, 1);
    assert_eq!(encrypted[1].ciphertexts, vec![BigNum::from_u64(4), BigNum::from_u64(1)]);
    let recovered = engine.recover_reference_ranks(&encrypted);
    let ranks: Vec<Vec<u64>> = recovered.into_iter().map(|r| r.ranks_in_original_order).collect();
    assert_eq!(ranks, plain_dedup_rank(&ds));
    assert_eq!(ranks, vec![vec![3, 3], vec![4, 1], vec![2]]);
}

#[test]
fn ranks_are_dense_and_ordered() {
    let ds = datasets(&[&[100, 5, 100], &[], &[42, 5, 7]]);
    assert_eq!(plain_dedup_rank(&ds), vec![vec![4, 1, 4], vec![], vec![3, 1, 2]]);
    assert!(plain_dedup_rank(&[]).is_empty());
}

#[test]
fn summary_counts_and_bounds() {
    let s = summarize_datasets(&datasets(&[&[4, 9, 4], &[], &[1]]));
    assert_eq!(s.total_values, 4);
    assert_eq!(s.per_user_lengths, vec![3, 0, 1]);
    assert_eq!(s.unique_values, 3);
    assert_eq!(s.min_value, 1);
    assert_eq!(s.max_value, 9);
    let empty = summarize_datasets(&datasets(&[&[]]));
    assert_eq!((empty.total_values, empty.unique_values, empty.min_value, empty.max_value), (0, 0, 0, 0));
}

#[test]
fn sampling_draws_from_the_pool() {
    let pool = vec![11, 22, 33];
    let sampled = sample_user_datasets(&pool, 2, 4, 9);
    assert_eq!(sampled.len(), 2);
    for d in &sampled {
        assert_eq!(d.values.len(), 4);
        assert!(d.values.iter().all(|v| pool.contains(v)));
    }
    let flat: Vec<u64> = sampled.iter().flat_map(|d| d.values.clone()).collect();
    for v in &pool {
        assert!(flat.contains(v));
    }
    assert!(sample_user_datasets(&pool, 0, 4, 9).is_empty());
    let empty = sample_user_datasets(&[], 2, 4, 9);
    assert_eq!(empty, vec![UserDataset { values: vec![] }, UserDataset { values: vec![] }]);
}

#[test]
fn sampling_is_deterministic_for_a_seed() {
    let pool: Vec<u64> = (1..=20).collect();
    let first = sample_user_datasets(&pool, 4, 5, 42);
    let again = sample_user_datasets(&pool, 4, 5, 42);
    assert_eq!(first, again);
    let mut drawn: Vec<u64> = first.iter().flat_map(|d| d.values.clone()).collect();
    drawn.sort_unstable();
    assert_eq!(drawn, pool);
}

#[test]
fn sampling_follows_the_order_and_wraps_around() {
    let sampled = sample_with_order(&[10, 20, 30], &[2, 0, 1], 2, 2);
    assert_eq!(sampled, datasets(&[&[30, 10], &[20, 30]]));
}

#[test]
fn sorting_and_distinct_values() {
    assert_eq!(sort_values(&[5, 1, 4, 1, 0]), vec![0, 1, 1, 4, 5]);
    assert_eq!(sorted_distinct_values(&[5, 1, 4, 1, 0, 5]), vec![0, 1, 4, 5]);
}

#[test]
fn requests_and_offline_states_agree() {
    let engine: SmdsEngine<LocalMultiSheBackend> = SmdsEngine::new(SmdsParams::baseline_bangalore(2, 5));
    let ds = datasets(&[&[5, 9, 2, 2, 8], &[1, 2, 3]]);
    let offline = engine.build_offline_bootstrap(&ds, 77);
    let requests = engine.build_pbe_requests(&ds, 77);
    assert_eq!(offline.user_states.len(), 2);
    assert_eq!(offline.params.k0, 2_048);
    assert_eq!(offline.global_reference.dedup_values, vec![5, 9, 2, 8, 1, 3]);
    assert_eq!(offline.root_polynomial.coeffs.len(), 7);
    for (u, (state, request)) in offline.user_states.iter().zip(requests.iter()).enumerate() {
        assert_eq!(state.user_id, u);
        assert_eq!(state.sample_seed, 77 ^ u as u64);
        assert_eq!(state.pi1, request.pi1);
        assert_eq!(state.pi2, request.pi2);
        assert_eq!(Permutation::new(state.pi1.forward.clone()).unwrap(), state.pi1);
        for i in 0..ds[u].values.len() {
            assert_eq!(request.masked_values[i] ^ state.mask_r_prime[i], ds[u].values[i]);
        }
    }
    assert_eq!(offline.user_states[0].canonical_values, vec![5, 9, 2, 8]);
}

#[test]
fn server_and_user_clients_delegate_to_the_engine() {
    let engine: SmdsEngine<LocalMultiSheBackend> = SmdsEngine::new(SmdsParams::baseline_bangalore(2, 2));
    let server = ServerCoordinator::new(engine.clone());
    let ds = datasets(&[&[30, 10], &[20, 10]]);
    let stage = server.stage(&ds);
    assert_eq!(stage.sorted_values, vec![10, 10, 20, 30]);
    assert_eq!(stage.dedup_ranks, vec![vec![3, 1], vec![2, 1]]);
    assert_eq!(server.reference_ranks(&ds), stage.dedup_ranks);
    let client = UserClient::new(1, engine.clone());
    let state = client.prepare_state(&ds[1], 5);
    let request = client.build_request(&ds[1], 5);
    let offline = engine.build_offline_bootstrap(&ds[1..], 5);
    assert_eq!(state, offline.user_states[0]);
    assert_eq!(request.original_values, vec![20, 10]);
    assert_eq!(request.pi1, state.pi1);
}

#[test]
fn disjoint_scenario_hands_out_distinct_prices() {
    let prices = vec![40, 10, 30, 10, 20];
    let d = build_scenario_datasets(ScenarioKind::MultiUserDisjoint, &prices, 2, 2, 1);
    assert_eq!(d, datasets(&[&[10, 20], &[30, 40]]));
    let wrapped = build_scenario_datasets(ScenarioKind::MultiUserDisjoint, &prices, 2, 3, 1);
    assert_eq!(wrapped, datasets(&[&[10, 20, 30], &[40, 10, 20]]));
    assert!(build_scenario_datasets(ScenarioKind::MultiUserDisjoint, &[], 2, 3, 1).is_empty());
}

#[test]
fn duplicate_scenario_without_prices_uses_zero() {
    let d = build_scenario_datasets(ScenarioKind::DuplicateHeavy, &[], 2, 2, 1);
    assert_eq!(d, datasets(&[&[0, 0], &[0, 0]]));
}

#[test]
fn benchmark_report_names_its_stages() {
    let report = run_bangalore_benchmark("prices.csv", &[5, 6, 7, 8], 2, 2, 3, 0);
    assert!(report.correctness);
    assert_eq!(report.config.scenario, ScenarioKind::BangaloreBaseline);
    assert_eq!(report.config.repetitions, 0);
    assert_eq!(report.config.csv_path, "prices.csv");
    let names: Vec<&str> = report.stage_durations.iter().map(|s| s.stage.as_str()).collect();
    assert_eq!(names, vec!["offline_bootstrap", "pbe_encode", "server_stage", "encrypt_reference_ranks", "recovery"]);
    assert_eq!(report.reference_ranks, report.protocol_ranks);
}

#[test]
fn reference_ranks_from_prices() {
    let (ds, ranks) = reference_from_price_csv(&[3, 1, 2], 2, 2, 5);
    assert_eq!(ds.len(), 2);
    assert_eq!(ranks, plain_dedup_rank(&ds));
    assert_eq!(ds, sample_user_datasets(&[3, 1, 2], 2, 2, 5));
}

#[test]
fn ranks_ignore_relabelling_and_follow_reordering() {
    let d = datasets(&[&[10, 20, 10], &[20, 30], &[5]]);
    let relabelled = datasets(&[&[101, 400, 101], &[400, 900], &[7]]);
    assert_eq!(plain_dedup_rank(&relabelled), plain_dedup_rank(&d));
    let reordered = datasets(&[&[5], &[10, 20, 10], &[20, 30]]);
    let ranks = plain_dedup_rank(&d);
    assert_eq!(plain_dedup_rank(&reordered), vec![ranks[2].clone(), ranks[0].clone(), ranks[1].clone()]);
}

#[test]
fn stage_times_are_means_of_the_readings() {
    let readings: Vec<Vec<u128>> = vec![vec![3, 4], vec![10], vec![0, 0, 1], vec![u128::MAX, 5], vec![7, 8, 9]];
    let stages = stage_duration_summaries(&readings);
    let millis: Vec<u128> = stages.iter().map(|s| s.millis).collect();
    assert_eq!(millis, vec![3, 10, 0, u128::MAX / 2, 8]);
    assert_eq!(stages[0].stage, "offline_bootstrap");
    assert_eq!(stages[4].stage, "recovery");
}

#[test]
fn sampled_scenarios_follow_the_seed() {
    let prices: Vec<u64> = (1..=12).collect();
    let a = run_scenario_benchmark(ScenarioKind::BangaloreBaseline, "p.csv", &prices, 3, 2, 17, 1);
    let b = run_bangalore_benchmark("p.csv", &prices, 3, 2, 17, 1);
    let datasets = sample_user_datasets(&prices, 3, 2, 17);
    assert_eq!(build_scenario_datasets(ScenarioKind::MultiUserOverlap, &prices, 3, 2, 17), datasets);
    assert_eq!(a.reference_ranks, plain_dedup_rank(&datasets));
    assert_eq!(a.reference_ranks, b.reference_ranks);
    assert_eq!(a.dataset_summary, b.dataset_summary);
}

#[test]
fn unsampled_huge_price_is_harmless() {
    let huge = 0x8000_0000_0000_0000u64;
    assert!(scenario_is_representable(ScenarioKind::MultiUserDisjoint, &[huge, 5], 1, 1, 0));
    assert!(!scenario_is_representable(ScenarioKind::MultiUserDisjoint, &[huge, 5], 1, 2, 0));
    assert!(try_run_scenario_benchmark(ScenarioKind::DuplicateHeavy, "p.csv", &[huge], 1, 2, 0, 1).is_none());
    let report = try_run_scenario_benchmark(ScenarioKind::DuplicateHeavy, "p.csv", &[4, huge], 2, 2, 0, 1).unwrap();
    assert_eq!(report.reference_ranks, vec![vec![1, 1], vec![1, 1]]);
    let engine: SmdsEngine<LocalMultiSheBackend> = SmdsEngine::new(SmdsParams::baseline_bangalore(1, 1));
    let single = try_run_scenario_benchmark_with_engine(&engine, ScenarioKind::SingleUser, "p.csv", &[9], 3, 1, 0, 1);
    assert_eq!(single.unwrap().reference_ranks, vec![vec![1]]);
    assert!(try_run_bangalore_benchmark("p.csv", &[huge], 1, 1, 0, 1).is_none());
}

#[test]
fn command_line_names() {
    assert_eq!(parse_scenario("baseline"), Ok(ScenarioKind::BangaloreBaseline));
    assert_eq!(parse_scenario("overlap"), Ok(ScenarioKind::MultiUserOverlap));
    assert_eq!(parse_scenario("disjoint"), Ok(ScenarioKind::MultiUserDisjoint));
    assert_eq!(parse_scenario("duplicate"), Ok(ScenarioKind::DuplicateHeavy));
    assert_eq!(parse_scenario("single"), Ok(ScenarioKind::SingleUser));
    assert_eq!(parse_scenario("other"), Err("unknown scenario: other".to_string()));
    assert_eq!(BackendChoice::parse("local"), Ok(BackendChoice::Local));
    assert_eq!(BackendChoice::parse("rust"), Ok(BackendChoice::Rust));
    assert_eq!(BackendChoice::parse("gpu"), Err("unknown backend: gpu".to_string()));
}
