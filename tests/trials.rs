use bench_hll::aggregate::{trial_offset, NUM_TRIALS};
use bench_hll::trial::{deviation, is_divergent, record_sample};
use bench_hll::{accuarcy, single_trial_accuarcy, Container, Step};
use std::collections::HashSet;

/// Reports exactly how many keys were put.
struct Exact {
    n: u64,
}

impl Container<u64> for Exact {
    fn put(&mut self, _s: &u64) {
        self.n += 1;
    }
    fn get_count(&mut self) -> u64 {
        self.n
    }
    fn new(_precision: u8) -> Self {
        Exact { n: 0 }
    }
    fn name() -> &'static str {
        "exact"
    }
}

/// Overestimates two thousandfold.
struct Blowup {
    n: u64,
}

impl Container<u64> for Blowup {
    fn put(&mut self, _s: &u64) {
        self.n += 1;
    }
    fn get_count(&mut self) -> u64 {
        self.n * 2000
    }
    fn new(_precision: u8) -> Self {
        Blowup { n: 0 }
    }
    fn name() -> &'static str {
        "blowup"
    }
}

/// Counts distinct keys exactly.
struct Distinct {
    seen: HashSet<u64>,
}

impl Container<u64> for Distinct {
    fn put(&mut self, s: &u64) {
        self.seen.insert(*s);
    }
    fn get_count(&mut self) -> u64 {
        self.seen.len() as u64
    }
    fn new(_precision: u8) -> Self {
        Distinct { seen: HashSet::new() }
    }
    fn name() -> &'static str {
        "distinct"
    }
}

/// Exact, but one too high once it has seen a key above `u64::MAX / 16`.
struct OffByOneFar {
    n: u64,
    far: bool,
}

impl Container<u64> for OffByOneFar {
    fn put(&mut self, s: &u64) {
        self.n += 1;
        if *s > u64::MAX / 16 {
            self.far = true;
        }
    }
    fn get_count(&mut self) -> u64 {
        if self.far {
            self.n + 1
        } else {
            self.n
        }
    }
    fn new(_precision: u8) -> Self {
        OffByOneFar { n: 0, far: false }
    }
    fn name() -> &'static str {
        "off-by-one-far"
    }
}

/// Drifts upwards: estimate `n + n / 3`.
struct Drift {
    n: u64,
}

impl Container<u64> for Drift {
    fn put(&mut self, _s: &u64) {
        self.n += 1;
    }
    fn get_count(&mut self) -> u64 {
        self.n + self.n / 3
    }
    fn new(_precision: u8) -> Self {
        Drift { n: 0 }
    }
    fn name() -> &'static str {
        "drift"
    }
}

#[test]
fn exact_estimator_linear_trial() {
    let res = single_trial_accuarcy::<Exact>(1000, Step::Linear(250), 10, 0);
    assert_eq!(res, vec![(250, 0), (500, 0), (750, 0), (1000, 0)]);
}

#[test]
fn exact_estimator_octave_trial() {
    let res = single_trial_accuarcy::<Exact>(20, Step::Pow2(0), 10, 5);
    assert_eq!(res, vec![(2, 0), (4, 0), (8, 0), (16, 0)]);
}

#[test]
fn divergent_estimator_stops_at_first_sample() {
    let res = single_trial_accuarcy::<Blowup>(1000, Step::Linear(250), 10, 0);
    assert_eq!(res, vec![(250, 250 * 1999)]);
    let res = single_trial_accuarcy::<Blowup>(1 << 20, Step::Pow2(2), 10, 0);
    assert_eq!(res, vec![(8, 8 * 1999)]);
}

#[test]
fn trial_item_counts_increase() {
    let res = single_trial_accuarcy::<Drift>(5000, Step::Pow2(3), 10, 17);
    assert!(!res.is_empty());
    for w in res.windows(2) {
        assert!(w[0].0 < w[1].0);
    }
    assert_eq!(res[0], (16, 5));
}

#[test]
fn empty_trial() {
    assert!(single_trial_accuarcy::<Exact>(0, Step::Linear(1), 10, 0).is_empty());
    assert!(single_trial_accuarcy::<Exact>(99, Step::Linear(100), 10, 0).is_empty());
}

#[test]
fn trial_keys_wrap_around() {
    let res = single_trial_accuarcy::<Distinct>(4, Step::Linear(1), 10, u64::MAX - 1);
    assert_eq!(res, vec![(1, 0), (2, 0), (3, 0), (4, 0)]);
}

#[test]
fn repeated_key_keeps_estimate() {
    let mut once = Distinct::new(10);
    once.put(&42);
    let mut twice = Distinct::new(10);
    twice.put(&42);
    twice.put(&42);
    assert_eq!(once.get_count(), twice.get_count());
    assert_eq!(twice.get_count(), 1);
}

#[test]
fn deviation_both_ways() {
    assert_eq!(deviation(7, 10), 3);
    assert_eq!(deviation(10, 7), 3);
    assert_eq!(deviation(5, 5), 0);
    assert_eq!(deviation(u64::MAX, 0), u64::MAX);
}

#[test]
fn divergence_threshold_is_strict() {
    assert!(!is_divergent((10, 10_000)));
    assert!(is_divergent((10, 10_001)));
    assert!(is_divergent((u64::MAX / 1000, u64::MAX)));
    assert!(!is_divergent((u64::MAX, u64::MAX)));
}

#[test]
fn trial_offsets_spread() {
    assert_eq!(trial_offset(0, 16), 0);
    assert_eq!(trial_offset(1, 16), u64::MAX / 16);
    assert_eq!(trial_offset(15, 16), 15 * (u64::MAX / 16));
}

#[test]
fn accuracy_of_exact_estimator() {
    let rows = accuarcy::<Exact>(1000, Step::Linear(250), 10);
    assert_eq!(rows.len(), 4);
    for (i, row) in rows.iter().enumerate() {
        assert_eq!(row.items, 250 * (i as u64 + 1));
        assert_eq!(row.trials, NUM_TRIALS as usize);
        assert_eq!(row.total_deviation, 0);
        assert_eq!(row.min_deviation, 0);
        assert_eq!(row.max_deviation, 0);
    }
}

#[test]
fn accuracy_runs_every_trial_on_its_own_keys() {
    let rows = accuarcy::<OffByOneFar>(100, Step::Linear(50), 10);
    assert_eq!(rows.len(), 2);
    for row in &rows {
        // Only trial 0 keeps to keys below u64::MAX / 16.
        assert_eq!(row.total_deviation, 15);
        assert_eq!(row.min_deviation, 0);
        assert_eq!(row.max_deviation, 1);
    }
}

#[test]
fn accuracy_of_divergent_estimator() {
    let rows = accuarcy::<Blowup>(1000, Step::Linear(100), 10);
    assert_eq!(rows.len(), 1);
    assert_eq!(rows[0].items, 100);
    assert_eq!(rows[0].total_deviation, 16 * 100 * 1999);
}

#[test]
fn sample_recording_and_stop() {
    let mut res = vec![(5, 1)];
    assert!(!record_sample(&mut res, 10, 13));
    assert_eq!(res, vec![(5, 1), (10, 3)]);
    assert!(record_sample(&mut res, 20, 20 * 2000));
    assert_eq!(res[2], (20, 20 * 1999));
    assert!(!record_sample(&mut res, 1, 1001));
    assert!(record_sample(&mut res, 1, 1002));
}
