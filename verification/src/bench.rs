//! Benchmark scenarios built from a list of prices, and benchmark runs.

use crate::backend::LocalMultiSheBackend;
use crate::crypto_utils::{dataset_views, lemma_sample_values_drawn, sample_user_datasets, seeded_sample};
use crate::engine::{
    benchmark_report, benchmark_report_with_engine, flatten, lemma_flatten_bounded, report_matches,
    SmdsEngine,
};
use crate::order::{lemma_sorted_distinct_exists, sorted_distinct, sorted_distinct_values};
use crate::types::{BenchmarkConfig, BenchmarkReport, ScenarioKind, UserDataset};
use vstd::prelude::*;

verus! {

/// The values of each dataset of a scenario built from `prices`:
/// baseline and overlap are the seeded sample for every user; single is the
/// seeded sample for one user; disjoint hands out the distinct prices in
/// ascending order, consecutively, wrapping around (no dataset when there
/// is no price); duplicate gives every user the first price (or 0)
/// repeated.
pub open spec fn scenario_values(
    scenario: ScenarioKind,
    prices: Seq<u64>,
    num_users: usize,
    dataset_size: usize,
    seed: u64,
) -> Seq<Seq<u64>> {
    match scenario {
        ScenarioKind::BangaloreBaseline | ScenarioKind::MultiUserOverlap => seeded_sample(
            prices,
            num_users,
            dataset_size,
            seed,
        ),
        ScenarioKind::SingleUser => seeded_sample(prices, 1, dataset_size, seed),
        ScenarioKind::MultiUserDisjoint => {
            let unique = sorted_distinct(prices);
            if unique.len() == 0 {
                Seq::empty()
            } else {
                Seq::new(
                    num_users as nat,
                    |u: int|
                        Seq::new(
                            dataset_size as nat,
                            |o: int| unique[(u * dataset_size + o) % (unique.len() as int)],
                        ),
                )
            }
        },
        ScenarioKind::DuplicateHeavy => {
            let repeated = if prices.len() > 0 {
                prices[0]
            } else {
                0
            };
            Seq::new(num_users as nat, |u: int| Seq::new(dataset_size as nat, |o: int| repeated))
        },
    }
}

/// `r` holds the datasets of the scenario built from `prices` with `seed`.
pub open spec fn scenario_matches(
    r: Seq<UserDataset>,
    scenario: ScenarioKind,
    prices: Seq<u64>,
    num_users: usize,
    dataset_size: usize,
    seed: u64,
) -> bool {
    dataset_views(r) == scenario_values(scenario, prices, num_users, dataset_size, seed)
}

/// Every value of the scenario's datasets is a price or 0, and no dataset
/// is longer than `dataset_size`.
pub open spec fn drawn_from(r: Seq<UserDataset>, prices: Seq<u64>, dataset_size: usize) -> bool {
    &&& forall|u: int, i: int|
        0 <= u < r.len() && 0 <= i < r[u].values@.len() ==> #[trigger] r[u].values@[i] == 0 || prices.contains(
            r[u].values@[i],
        )
    &&& forall|u: int| 0 <= u < r.len() ==> (#[trigger] r[u]).values@.len() <= dataset_size
}

/// Builds the datasets of a scenario from a list of prices:
/// baseline and overlap sample the prices for every user; single samples
/// them for one user; disjoint hands out the distinct prices in ascending
/// order, consecutively, wrapping around; duplicate gives every user the
/// first price (or 0) repeated.
pub fn build_scenario_datasets(
    scenario: ScenarioKind,
    prices: &[u64],
    num_users: usize,
    dataset_size: usize,
    seed: u64,
) -> (r: Vec<UserDataset>)
    requires
        scenario_sizes_ok(scenario, prices@, num_users, dataset_size),
    ensures
        scenario_matches(r@, scenario, prices@, num_users, dataset_size, seed),
        drawn_from(r@, prices@, dataset_size),
        r@.len() <= num_users || r@.len() == 1,
{
    match scenario {
        ScenarioKind::BangaloreBaseline | ScenarioKind::MultiUserOverlap => {
            let r = sample_user_datasets(prices, num_users, dataset_size, seed);
            proof {
                lemma_sample_values_drawn(r@, prices@, num_users, dataset_size);
            }
            r
        },
        ScenarioKind::SingleUser => {
            let mut users = sample_user_datasets(prices, 1, dataset_size, seed);
            let ghost sampled = users@;
            users.truncate(1);
            proof {
                assert(users@ =~= sampled);
                lemma_sample_values_drawn(users@, prices@, 1, dataset_size);
            }
            users
        },
        ScenarioKind::MultiUserDisjoint => {
            let unique_prices = sorted_distinct_values(prices);
            if unique_prices.len() == 0 {
                let r: Vec<UserDataset> = Vec::new();
                assert(dataset_views(r@) =~= Seq::<Seq<u64>>::empty());
                r
            } else {
                proof {
                    assert(unique_prices@.to_set().contains(unique_prices@[0]));
                    assert(prices@.to_set().contains(unique_prices@[0]));
                }
                let mut datasets: Vec<UserDataset> = Vec::with_capacity(num_users);
                let mut user_id: usize = 0;
                while user_id < num_users
                    invariant
                        user_id <= num_users,
                        num_users * dataset_size <= usize::MAX,
                        unique_prices@ == sorted_distinct(prices@),
                        unique_prices@.to_set() == prices@.to_set(),
                        unique_prices@.len() > 0,
                        datasets@.len() == user_id,
                        forall|u: int|
                            0 <= u < user_id ==> (#[trigger] datasets@[u]).values@.len() == dataset_size
                                && forall|o: int|
                                0 <= o < dataset_size ==> datasets@[u].values@[o] == unique_prices@[(u
                                    * dataset_size + o) % (unique_prices@.len() as int)],
                        drawn_from(datasets@, prices@, dataset_size),
                    decreases num_users - user_id,
                {
                    assert((user_id + 1) * dataset_size <= num_users * dataset_size) by (nonlinear_arith)
                        requires
                            user_id + 1 <= num_users,
                    ;
                    assert((user_id + 1) * dataset_size == user_id * dataset_size + dataset_size)
                        by (nonlinear_arith);
                    let start = user_id * dataset_size;
                    let mut values: Vec<u64> = Vec::with_capacity(dataset_size);
                    let mut offset: usize = 0;
                    while offset < dataset_size
                        invariant
                            offset <= dataset_size,
                            start == user_id * dataset_size,
                            start + dataset_size <= usize::MAX,
                            unique_prices@.to_set() == prices@.to_set(),
                            unique_prices@.len() > 0,
                            values@.len() == offset,
                            forall|o: int|
                                0 <= o < offset ==> #[trigger] values@[o] == unique_prices@[(start + o) % (
                                unique_prices@.len() as int)],
                            forall|o: int| 0 <= o < offset ==> prices@.contains(#[trigger] values@[o]),
                        decreases dataset_size - offset,
                    {
                        let k = (start + offset) % unique_prices.len();
                        let v = unique_prices[k];
                        assert(unique_prices@.to_set().contains(v));
                        values.push(v);
                        offset = offset + 1;
                    }
                    datasets.push(UserDataset { values });
                    user_id = user_id + 1;
                }
                proof {
                    let want = scenario_values(scenario, prices@, num_users, dataset_size, seed);
                    assert forall|u: int| 0 <= u < num_users implies dataset_views(datasets@)[u] == want[u] by {
                        assert(dataset_views(datasets@)[u] =~= want[u]);
                    }
                    assert(dataset_views(datasets@) =~= want);
                }
                datasets
            }
        },
        ScenarioKind::DuplicateHeavy => {
            let repeated = if prices.len() > 0 {
                prices[0]
            } else {
                0
            };
            let mut datasets: Vec<UserDataset> = Vec::with_capacity(num_users);
            let mut user_id: usize = 0;
            while user_id < num_users
                invariant
                    user_id <= num_users,
                    repeated == 0 || prices@.contains(repeated),
                    repeated == (if prices@.len() > 0 { prices@[0] } else { 0 }),
                    datasets@.len() == user_id,
                    forall|u: int|
                        0 <= u < user_id ==> (#[trigger] datasets@[u]).values@ == Seq::new(
                            dataset_size as nat,
                            |o: int| repeated,
                        ),
                decreases num_users - user_id,
            {
                let mut values: Vec<u64> = Vec::with_capacity(dataset_size);
                let mut offset: usize = 0;
                while offset < dataset_size
                    invariant
                        offset <= dataset_size,
                        values@ == Seq::new(offset as nat, |o: int| repeated),
                    decreases dataset_size - offset,
                {
                    values.push(repeated);
                    offset = offset + 1;
                }
                datasets.push(UserDataset { values });
                user_id = user_id + 1;
            }
            if prices.len() > 0 {
                assert(prices@[0] == repeated);
            }
            proof {
                let want = scenario_values(scenario, prices@, num_users, dataset_size, seed);
                assert forall|u: int| 0 <= u < num_users implies dataset_views(datasets@)[u] == want[u] by {
                    assert(dataset_views(datasets@)[u] =~= want[u]);
                }
                assert(dataset_views(datasets@) =~= want);
            }
            datasets
        },
    }
}

/// When there are at least as many distinct prices as values asked for, the
/// disjoint scenario gives no two users a common value.
pub proof fn lemma_disjoint_scenario_is_disjoint(
    r: Seq<UserDataset>,
    prices: Seq<u64>,
    num_users: usize,
    dataset_size: usize,
    seed: u64,
)
    requires
        scenario_matches(r, ScenarioKind::MultiUserDisjoint, prices, num_users, dataset_size, seed),
        num_users * dataset_size <= sorted_distinct(prices).len(),
    ensures
        forall|u1: int, u2: int, i: int, j: int|
            0 <= u1 < r.len() && 0 <= u2 < r.len() && u1 != u2 && 0 <= i < r[u1].values@.len() && 0 <= j
                < r[u2].values@.len() ==> #[trigger] r[u1].values@[i] != #[trigger] r[u2].values@[j],
{
    let unique = sorted_distinct(prices);
    lemma_sorted_distinct_exists(prices);
    assert forall|u1: int, u2: int, i: int, j: int|
        0 <= u1 < r.len() && 0 <= u2 < r.len() && u1 != u2 && 0 <= i < r[u1].values@.len() && 0 <= j
            < r[u2].values@.len() implies #[trigger] r[u1].values@[i] != #[trigger] r[u2].values@[j] by {
        let sv = scenario_values(ScenarioKind::MultiUserDisjoint, prices, num_users, dataset_size, seed);
        assert(r.len() == dataset_views(r).len());
        assert(dataset_views(r)[u1] == r[u1].values@ && dataset_views(r)[u2] == r[u2].values@);
        assert(unique.len() > 0);
        let n = unique.len() as int;
        let ds = dataset_size as int;
        let k1 = u1 * ds + i;
        let k2 = u2 * ds + j;
        assert(0 <= k1 < num_users * ds && 0 <= k2 < num_users * ds && k1 != k2) by (nonlinear_arith)
            requires
                0 <= u1 < num_users,
                0 <= u2 < num_users,
                u1 != u2,
                0 <= i < ds,
                0 <= j < ds,
                k1 == u1 * ds + i,
                k2 == u2 * ds + j,
        ;
        vstd::arithmetic::div_mod::lemma_small_mod(k1 as nat, n as nat);
        vstd::arithmetic::div_mod::lemma_small_mod(k2 as nat, n as nat);
        assert(r[u1].values@[i] == unique[k1]);
        assert(r[u2].values@[j] == unique[k2]);
        if k1 < k2 {
            assert(unique[k1] < unique[k2]);
        } else {
            assert(unique[k2] < unique[k1]);
        }
    }
}

/// The configuration of a scenario benchmark.
pub open spec fn config_matches(
    c: BenchmarkConfig,
    scenario: ScenarioKind,
    csv_path: Seq<char>,
    num_users: usize,
    dataset_size: usize,
    seed: u64,
    repetitions: usize,
) -> bool {
    &&& c.scenario == scenario
    &&& c.seed == seed
    &&& c.repetitions == repetitions
    &&& c.num_users == num_users
    &&& c.dataset_size == dataset_size
    &&& c.csv_path@ == csv_path
}

/// No value of the scenario's datasets is 2^63, whose negation as an `i64`
/// overflows (and panics) when the root polynomial is built.
pub open spec fn scenario_representable(
    scenario: ScenarioKind,
    prices: Seq<u64>,
    num_users: usize,
    dataset_size: usize,
    seed: u64,
) -> bool {
    let sv = scenario_values(scenario, prices, num_users, dataset_size, seed);
    forall|u: int, i: int| 0 <= u < sv.len() && 0 <= i < sv[u].len() ==> #[trigger] sv[u][i] != 0x8000_0000_0000_0000u64
}

/// The scenario's datasets fit in memory, with room for the root
/// polynomial's coefficients: one dataset for the single scenario,
/// `num_users` datasets for the others.
pub open spec fn scenario_fits(scenario: ScenarioKind, num_users: usize, dataset_size: usize) -> bool {
    match scenario {
        ScenarioKind::SingleUser => dataset_size + 2 <= usize::MAX,
        _ => {
            &&& num_users * dataset_size + 2 <= usize::MAX
            &&& dataset_size + 2 <= usize::MAX
        },
    }
}

/// The positions a scenario walks can be counted: the sampled and disjoint
/// scenarios walk up to `num_users * dataset_size` positions when there are
/// prices; the single scenario draws one dataset and the duplicate scenario
/// only repeats a value, so neither multiplies the sizes.
pub open spec fn scenario_sizes_ok(
    scenario: ScenarioKind,
    prices: Seq<u64>,
    num_users: usize,
    dataset_size: usize,
) -> bool {
    match scenario {
        ScenarioKind::SingleUser | ScenarioKind::DuplicateHeavy => true,
        _ => prices.len() == 0 || num_users * dataset_size <= usize::MAX,
    }
}

proof fn lemma_scenario_runnable(
    r: Seq<UserDataset>,
    scenario: ScenarioKind,
    prices: Seq<u64>,
    num_users: usize,
    dataset_size: usize,
    seed: u64,
)
    requires
        scenario_matches(r, scenario, prices, num_users, dataset_size, seed),
        scenario_representable(scenario, prices, num_users, dataset_size, seed),
        scenario_fits(scenario, num_users, dataset_size),
        drawn_from(r, prices, dataset_size),
        r.len() <= num_users || r.len() == 1,
    ensures
        crate::engine::roots_representable(flatten(r)),
        flatten(r).len() + 2 <= usize::MAX,
{
    let sv = scenario_values(scenario, prices, num_users, dataset_size, seed);
    assert forall|u: int, i: int| 0 <= u < r.len() && 0 <= i < r[u].values@.len() implies #[trigger] r[u].values@[i]
        != 0x8000_0000_0000_0000u64 by {
        assert(dataset_views(r)[u] == r[u].values@);
        assert(sv[u][i] == r[u].values@[i]);
    }
    lemma_flatten_bounded(r, dataset_size as nat);
    assert(r.len() == dataset_views(r).len() && r.len() == sv.len());
    if scenario is SingleUser {
        assert(r.len() == 1);
        assert(r.len() * dataset_size == dataset_size) by (nonlinear_arith)
            requires
                r.len() == 1,
        ;
    } else {
        assert(r.len() <= num_users);
        assert(r.len() * dataset_size <= num_users * dataset_size) by (nonlinear_arith)
            requires
                r.len() <= num_users,
        ;
    }
}

/// Whether no value of the scenario's datasets is 2^63: the datasets are
/// built and scanned.
pub fn scenario_is_representable(
    scenario: ScenarioKind,
    prices: &[u64],
    num_users: usize,
    dataset_size: usize,
    seed: u64,
) -> (ok: bool)
    requires
        scenario_sizes_ok(scenario, prices@, num_users, dataset_size),
    ensures
        ok == scenario_representable(scenario, prices@, num_users, dataset_size, seed),
{
    let datasets = build_scenario_datasets(scenario, prices, num_users, dataset_size, seed);
    let ghost sv = scenario_values(scenario, prices@, num_users, dataset_size, seed);
    assert(datasets@.len() == dataset_views(datasets@).len());
    let mut u: usize = 0;
    while u < datasets.len()
        invariant
            u <= datasets@.len(),
            sv == scenario_values(scenario, prices@, num_users, dataset_size, seed),
            datasets@.len() == sv.len(),
            dataset_views(datasets@) == sv,
            forall|q: int, i: int| 0 <= q < u && 0 <= i < sv[q].len() ==> #[trigger] sv[q][i] != 0x8000_0000_0000_0000u64,
        decreases datasets@.len() - u,
    {
        let values = &datasets[u].values;
        assert(dataset_views(datasets@)[u as int] == values@);
        let mut i: usize = 0;
        while i < values.len()
            invariant
                i <= values@.len(),
                sv == scenario_values(scenario, prices@, num_users, dataset_size, seed),
                u < sv.len(),
                values@ == sv[u as int],
                forall|k: int| 0 <= k < i ==> #[trigger] sv[u as int][k] != 0x8000_0000_0000_0000u64,
            decreases values@.len() - i,
        {
            if values[i] == 0x8000_0000_0000_0000u64 {
                assert(sv[u as int][i as int] == 0x8000_0000_0000_0000u64);
                return false;
            }
            i = i + 1;
        }
        u = u + 1;
    }
    true
}

/// Builds a scenario's datasets from `prices` and benchmarks the protocol on
/// them with the local backend.
pub fn run_scenario_benchmark(
    scenario: ScenarioKind,
    csv_path: &str,
    prices: &[u64],
    num_users: usize,
    dataset_size: usize,
    seed: u64,
    repetitions: usize,
) -> (r: BenchmarkReport)
    requires
        scenario_fits(scenario, num_users, dataset_size),
        scenario_representable(scenario, prices@, num_users, dataset_size, seed),
    ensures
        config_matches(r.config, scenario, csv_path@, num_users, dataset_size, seed, repetitions),
        exists|datasets: Seq<UserDataset>|
            scenario_matches(datasets, scenario, prices@, num_users, dataset_size, seed)
                && #[trigger] report_matches(r, r.config, datasets),
{
    let datasets = build_scenario_datasets(scenario, prices, num_users, dataset_size, seed);
    proof {
        lemma_scenario_runnable(datasets@, scenario, prices@, num_users, dataset_size, seed);
    }
    let config = BenchmarkConfig {
        scenario,
        seed,
        repetitions,
        num_users,
        dataset_size,
        csv_path: csv_path.to_string(),
    };
    let r = benchmark_report(config, &datasets, seed);
    assert(report_matches(r, r.config, datasets@));
    r
}

/// As `run_scenario_benchmark`, with the given engine.
pub fn run_scenario_benchmark_with_engine(
    engine: &SmdsEngine<LocalMultiSheBackend>,
    scenario: ScenarioKind,
    csv_path: &str,
    prices: &[u64],
    num_users: usize,
    dataset_size: usize,
    seed: u64,
    repetitions: usize,
) -> (r: BenchmarkReport)
    requires
        scenario_fits(scenario, num_users, dataset_size),
        scenario_representable(scenario, prices@, num_users, dataset_size, seed),
    ensures
        config_matches(r.config, scenario, csv_path@, num_users, dataset_size, seed, repetitions),
        exists|datasets: Seq<UserDataset>|
            scenario_matches(datasets, scenario, prices@, num_users, dataset_size, seed)
                && #[trigger] report_matches(r, r.config, datasets),
{
    let datasets = build_scenario_datasets(scenario, prices, num_users, dataset_size, seed);
    proof {
        lemma_scenario_runnable(datasets@, scenario, prices@, num_users, dataset_size, seed);
    }
    let config = BenchmarkConfig {
        scenario,
        seed,
        repetitions,
        num_users,
        dataset_size,
        csv_path: csv_path.to_string(),
    };
    let r = benchmark_report_with_engine(engine, config, &datasets, seed);
    assert(report_matches(r, r.config, datasets@));
    r
}

/// The baseline scenario benchmark.
pub fn run_bangalore_benchmark(
    csv_path: &str,
    prices: &[u64],
    num_users: usize,
    dataset_size: usize,
    seed: u64,
    repetitions: usize,
) -> (r: BenchmarkReport)
    requires
        scenario_fits(ScenarioKind::BangaloreBaseline, num_users, dataset_size),
        scenario_representable(ScenarioKind::BangaloreBaseline, prices@, num_users, dataset_size, seed),
    ensures
        config_matches(
            r.config,
            ScenarioKind::BangaloreBaseline,
            csv_path@,
            num_users,
            dataset_size,
            seed,
            repetitions,
        ),
        exists|datasets: Seq<UserDataset>|
            scenario_matches(datasets, ScenarioKind::BangaloreBaseline, prices@, num_users, dataset_size, seed)
                && #[trigger] report_matches(r, r.config, datasets),
{
    run_scenario_benchmark(ScenarioKind::BangaloreBaseline, csv_path, prices, num_users, dataset_size, seed, repetitions)
}

/// `run_scenario_benchmark` when no value of the scenario's datasets is
/// 2^63, else `None` (where the benchmark would negate `i64::MIN`).
pub fn try_run_scenario_benchmark(
    scenario: ScenarioKind,
    csv_path: &str,
    prices: &[u64],
    num_users: usize,
    dataset_size: usize,
    seed: u64,
    repetitions: usize,
) -> (r: Option<BenchmarkReport>)
    requires
        scenario_fits(scenario, num_users, dataset_size),
    ensures
        r is Some <==> scenario_representable(scenario, prices@, num_users, dataset_size, seed),
        r matches Some(rep) ==> {
            &&& config_matches(rep.config, scenario, csv_path@, num_users, dataset_size, seed, repetitions)
            &&& exists|datasets: Seq<UserDataset>|
                scenario_matches(datasets, scenario, prices@, num_users, dataset_size, seed)
                    && #[trigger] report_matches(rep, rep.config, datasets)
        },
{
    if scenario_is_representable(scenario, prices, num_users, dataset_size, seed) {
        Some(run_scenario_benchmark(scenario, csv_path, prices, num_users, dataset_size, seed, repetitions))
    } else {
        None
    }
}

/// `run_scenario_benchmark_with_engine` when no value of the scenario's
/// datasets is 2^63, else `None`.
pub fn try_run_scenario_benchmark_with_engine(
    engine: &SmdsEngine<LocalMultiSheBackend>,
    scenario: ScenarioKind,
    csv_path: &str,
    prices: &[u64],
    num_users: usize,
    dataset_size: usize,
    seed: u64,
    repetitions: usize,
) -> (r: Option<BenchmarkReport>)
    requires
        scenario_fits(scenario, num_users, dataset_size),
    ensures
        r is Some <==> scenario_representable(scenario, prices@, num_users, dataset_size, seed),
        r matches Some(rep) ==> {
            &&& config_matches(rep.config, scenario, csv_path@, num_users, dataset_size, seed, repetitions)
            &&& exists|datasets: Seq<UserDataset>|
                scenario_matches(datasets, scenario, prices@, num_users, dataset_size, seed)
                    && #[trigger] report_matches(rep, rep.config, datasets)
        },
{
    if scenario_is_representable(scenario, prices, num_users, dataset_size, seed) {
        Some(
            run_scenario_benchmark_with_engine(
                engine,
                scenario,
                csv_path,
                prices,
                num_users,
                dataset_size,
                seed,
                repetitions,
            ),
        )
    } else {
        None
    }
}

/// `run_bangalore_benchmark` when no value of the sampled datasets is 2^63,
/// else `None`.
pub fn try_run_bangalore_benchmark(
    csv_path: &str,
    prices: &[u64],
    num_users: usize,
    dataset_size: usize,
    seed: u64,
    repetitions: usize,
) -> (r: Option<BenchmarkReport>)
    requires
        scenario_fits(ScenarioKind::BangaloreBaseline, num_users, dataset_size),
    ensures
        r is Some <==> scenario_representable(
            ScenarioKind::BangaloreBaseline,
            prices@,
            num_users,
            dataset_size,
            seed,
        ),
        r matches Some(rep) ==> {
            &&& config_matches(
                rep.config,
                ScenarioKind::BangaloreBaseline,
                csv_path@,
                num_users,
                dataset_size,
                seed,
                repetitions,
            )
            &&& exists|datasets: Seq<UserDataset>|
                scenario_matches(datasets, ScenarioKind::BangaloreBaseline, prices@, num_users, dataset_size, seed)
                    && #[trigger] report_matches(rep, rep.config, datasets)
        },
{
    if scenario_is_representable(ScenarioKind::BangaloreBaseline, prices, num_users, dataset_size, seed) {
        Some(run_bangalore_benchmark(csv_path, prices, num_users, dataset_size, seed, repetitions))
    } else {
        None
    }
}

} // verus!
