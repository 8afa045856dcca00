use vstd::prelude::*;

use vstd::arithmetic::power2::{lemma2_to64, lemma_pow2_strictly_increases, pow2};

use crate::step::{log2, should_record, Step};

verus! {

/// A trial stops at the first sample whose deviation exceeds this many times
/// the number of items inserted, i.e. a relative error above this bound.
pub const DIVERGENCE_LIMIT: u64 = 1000;

/// A distinct-count estimator that trials can be run against.
///
/// Its model is the precision it was made with and the keys put into it. Its
/// estimate is a function of the precision and of the set of keys put, so
/// putting a key again changes nothing; an implementation whose hashing is
/// seeded at random per instance meets this only with a fixed seed. The
/// model's functions are closed, so that impls written outside Verus need not
/// name them; a verified impl gives its own.
pub trait Container<X>: Sized {
    /// The keys put so far, oldest first.
    closed spec fn keys(&self) -> Seq<X> {
        arbitrary()
    }

    /// The precision the estimator was made with.
    closed spec fn precision(&self) -> u8 {
        arbitrary()
    }

    /// The estimate of an estimator of `precision` into which the keys of
    /// `keys`, and no others, were put.
    closed spec fn estimate(precision: u8, keys: Set<X>) -> u64 {
        arbitrary()
    }

    /// Records one occurrence of `s`.
    fn put(&mut self, s: &X)
        ensures
            final(self).keys() == old(self).keys().push(*s),
            final(self).precision() == old(self).precision(),
    ;

    /// The current estimate of the number of distinct values put, as a whole count.
    fn get_count(&mut self) -> (r: u64)
        ensures
            r == Self::estimate(old(self).precision(), old(self).keys().to_set()),
            final(self).keys() == old(self).keys(),
            final(self).precision() == old(self).precision(),
    ;

    /// A fresh, empty estimator sized by `precision` (a base-two register exponent).
    fn new(precision: u8) -> (r: Self)
        ensures
            r.keys() == Seq::<X>::empty(),
            r.precision() == precision,
    ;

    /// A label for reports.
    fn name() -> &'static str;
}

/// Putting a key a second time leaves the estimate as it was.
pub proof fn lemma_repeated_key_keeps_estimate<X, T: Container<X>>(
    precision: u8,
    keys: Seq<X>,
    k: X,
)
    ensures
        T::estimate(precision, keys.push(k).push(k).to_set()) == T::estimate(
            precision,
            keys.push(k).to_set(),
        ),
{
    assert(keys.push(k).push(k).to_set() =~= keys.push(k).to_set()) by {
        assert forall|v: X| keys.push(k).push(k).to_set().contains(v) implies keys.push(
            k,
        ).to_set().contains(v) by {
            let i = choose|i: int| 0 <= i < keys.push(k).push(k).len() && keys.push(k).push(k)[i] == v;
            if i == keys.push(k).len() {
                assert(keys.push(k)[i - 1] == v);
            } else {
                assert(keys.push(k)[i] == v);
            }
        }
        assert forall|v: X| keys.push(k).to_set().contains(v) implies keys.push(k).push(
            k,
        ).to_set().contains(v) by {
            let i = choose|i: int| 0 <= i < keys.push(k).len() && keys.push(k)[i] == v;
            assert(keys.push(k).push(k)[i] == v);
        }
    }
}

/// The `x`-th key of a trial with `offset`: `x + offset`, wrapping.
pub open spec fn key_at(offset: u64, x: int) -> u64 {
    if x + offset > u64::MAX {
        (x + offset - 0x1_0000_0000_0000_0000) as u64
    } else {
        (x + offset) as u64
    }
}

/// The first `n` keys of a trial with `offset`.
pub open spec fn trial_keys(offset: u64, n: nat) -> Seq<u64> {
    Seq::new(n, |k: int| key_at(offset, k + 1))
}

/// `|e - x|`.
pub open spec fn dev(e: int, x: int) -> int {
    if e >= x {
        e - x
    } else {
        x - e
    }
}

/// The item counts, among `1..=n`, after which a sample is taken.
pub open spec fn schedule(step: Step, n: nat) -> Seq<u64>
    decreases n,
{
    if n == 0 {
        Seq::empty()
    } else if step.records(n) {
        schedule(step, (n - 1) as nat).push(n as u64)
    } else {
        schedule(step, (n - 1) as nat)
    }
}

/// A sample `(items, deviation)` whose relative error is past the limit.
pub open spec fn diverged(sample: (u64, u64)) -> bool {
    sample.1 as int > DIVERGENCE_LIMIT as int * sample.0 as int
}

/// `res` is what a trial of `max_size` items under `step` returns: the samples
/// at the scheduled item counts, in order, ending at the first divergent one.
pub open spec fn is_trial(res: Seq<(u64, u64)>, step: Step, max_size: nat) -> bool {
    let sched = schedule(step, max_size);
    &&& res.len() <= sched.len()
    &&& forall|i: int| 0 <= i < res.len() ==> (#[trigger] res[i]).0 == sched[i]
    &&& forall|i: int| 0 <= i < res.len() - 1 ==> !diverged(#[trigger] res[i])
    &&& res.len() < sched.len() ==> res.len() > 0 && diverged(res.last())
}

/// Each sample of `res` holds the deviation of the estimate that an estimator
/// of type `T` and `precision` gives after the trial's keys up to that item
/// count were put.
pub open spec fn samples_estimates<T: Container<u64>>(
    res: Seq<(u64, u64)>,
    precision: u8,
    offset: u64,
) -> bool {
    forall|i: int|
        0 <= i < res.len() ==> (#[trigger] res[i]).1 == dev(
            T::estimate(precision, trial_keys(offset, res[i].0 as nat).to_set()) as int,
            res[i].0 as int,
        )
}

/// `res` is what a trial of `max_size` items under `step` returns for an
/// estimator of type `T` and `precision`, fed keys from `offset + 1` on.
pub open spec fn is_trial_of<T: Container<u64>>(
    res: Seq<(u64, u64)>,
    step: Step,
    max_size: nat,
    precision: u8,
    offset: u64,
) -> bool {
    is_trial(res, step, max_size) && samples_estimates::<T>(res, precision, offset)
}

/// The schedule up to `m` is a prefix of the schedule up to any `n >= m`.
pub proof fn lemma_schedule_prefix(step: Step, m: nat, n: nat)
    requires
        m <= n,
    ensures
        schedule(step, m).len() <= schedule(step, n).len(),
        forall|i: int|
            0 <= i < schedule(step, m).len() ==> #[trigger] schedule(step, n)[i] == schedule(
                step,
                m,
            )[i],
    decreases n,
{
    if m < n {
        lemma_schedule_prefix(step, m, (n - 1) as nat);
    }
}

/// Scheduled item counts lie in `1..=n` and increase strictly.
pub proof fn lemma_schedule_increasing(step: Step, n: nat)
    requires
        n <= u64::MAX,
    ensures
        forall|i: int|
            0 <= i < schedule(step, n).len() ==> 1 <= #[trigger] schedule(step, n)[i] <= n,
        forall|i: int, j: int|
            0 <= i < j < schedule(step, n).len() ==> schedule(step, n)[i] < schedule(step, n)[j],
    decreases n,
{
    if n > 0 {
        let prev = schedule(step, (n - 1) as nat);
        lemma_schedule_increasing(step, (n - 1) as nat);
        if step.records(n) {
            let cur = prev.push(n as u64);
            assert(schedule(step, n) == cur);
            assert forall|i: int| 0 <= i < cur.len() implies 1 <= #[trigger] cur[i] <= n by {
                if i < prev.len() {
                    assert(cur[i] == prev[i]);
                }
            }
            assert forall|i: int, j: int| 0 <= i < j < cur.len() implies cur[i] < cur[j] by {
                assert(cur[i] == prev[i]);
                if j < prev.len() {
                    assert(cur[j] == prev[j]);
                }
            }
        }
    }
}

/// The item counts of a trial's samples increase strictly.
pub proof fn lemma_trial_increasing(res: Seq<(u64, u64)>, step: Step, max_size: u64)
    requires
        is_trial(res, step, max_size as nat),
    ensures
        forall|i: int, j: int| 0 <= i < j < res.len() ==> res[i].0 < res[j].0,
{
    lemma_schedule_increasing(step, max_size as nat);
    assert forall|i: int, j: int| 0 <= i < j < res.len() implies res[i].0 < res[j].0 by {
        assert(res[i].0 == schedule(step, max_size as nat)[i]);
        assert(res[j].0 == schedule(step, max_size as nat)[j]);
    }
}

/// A divergent sample is the last one of its trial.
pub proof fn lemma_trial_stops_at_divergence(
    res: Seq<(u64, u64)>,
    step: Step,
    max_size: nat,
    i: int,
)
    requires
        is_trial(res, step, max_size),
        0 <= i < res.len(),
        diverged(res[i]),
    ensures
        i == res.len() - 1,
{
}

/// Without wrapping, the first `n` keys of a trial are `n` distinct keys.
pub proof fn lemma_trial_keys_distinct(offset: u64, n: nat)
    requires
        offset + n <= u64::MAX,
    ensures
        trial_keys(offset, n).to_set().finite(),
        trial_keys(offset, n).to_set().len() == n,
{
    let ks = trial_keys(offset, n);
    assert(ks.no_duplicates()) by {
        assert forall|i: int, j: int| 0 <= i < ks.len() && 0 <= j < ks.len() && i != j implies ks[i]
            != ks[j] by {
            assert(ks[i] == (offset + i + 1) as u64);
            assert(ks[j] == (offset + j + 1) as u64);
        }
    }
    ks.unique_seq_to_set();
    vstd::seq_lib::seq_to_set_is_finite(ks);
}

/// Against an estimator that counts exactly, a trial whose keys do not wrap
/// samples every scheduled item count, each with deviation zero.
pub proof fn lemma_exact_estimator_trial<T: Container<u64>>(
    res: Seq<(u64, u64)>,
    step: Step,
    max_size: u64,
    precision: u8,
    offset: u64,
)
    requires
        forall|ks: Set<u64>|
            ks.finite() && ks.len() <= u64::MAX ==> #[trigger] T::estimate(precision, ks)
                == ks.len(),
        offset + max_size <= u64::MAX,
        is_trial_of::<T>(res, step, max_size as nat, precision, offset),
    ensures
        res.len() == schedule(step, max_size as nat).len(),
        forall|i: int| 0 <= i < res.len() ==> (#[trigger] res[i]).1 == 0,
{
    lemma_schedule_increasing(step, max_size as nat);
    assert forall|i: int| 0 <= i < res.len() implies (#[trigger] res[i]).1 == 0 by {
        let x = res[i].0;
        assert(x == schedule(step, max_size as nat)[i]);
        lemma_trial_keys_distinct(offset, x as nat);
    }
    if res.len() < schedule(step, max_size as nat).len() {
        assert(res.last() == res[res.len() - 1]);
        assert(res[res.len() - 1].1 == 0);
    }
}

/// Against an estimator that reports two thousand times the true count, a
/// trial whose keys do not wrap stops at its first sample.
pub proof fn lemma_overestimating_trial_stops<T: Container<u64>>(
    res: Seq<(u64, u64)>,
    step: Step,
    max_size: u64,
    precision: u8,
    offset: u64,
)
    requires
        forall|ks: Set<u64>|
            ks.finite() && ks.len() <= max_size ==> #[trigger] T::estimate(precision, ks) == 2000
                * ks.len(),
        offset + max_size <= u64::MAX,
        is_trial_of::<T>(res, step, max_size as nat, precision, offset),
        schedule(step, max_size as nat).len() > 0,
    ensures
        res.len() == 1,
        res[0].0 == schedule(step, max_size as nat)[0],
        res[0].1 == 1999 * res[0].0,
{
    lemma_schedule_increasing(step, max_size as nat);
    let x = res[0].0;
    assert(x == schedule(step, max_size as nat)[0]);
    lemma_trial_keys_distinct(offset, x as nat);
    assert(diverged(res[0]));
    if res.len() > 1 {
        assert(!diverged(res[0]));
    }
}

/// `|estimate - items|`.
pub fn deviation(estimate: u64, items: u64) -> (r: u64)
    ensures
        r as int == dev(estimate as int, items as int),
{
    if estimate >= items {
        estimate - items
    } else {
        items - estimate
    }
}

/// Whether a sample's relative error is past the limit.
pub fn is_divergent(sample: (u64, u64)) -> (r: bool)
    ensures
        r == diverged(sample),
{
    (sample.1 as u128) > (DIVERGENCE_LIMIT as u128) * (sample.0 as u128)
}

/// The bound on the number of samples in a trial of `max_size` items that
/// the policy gives: `max_size / stride`, or `2^s * log2(max_size)` cut at
/// `max_size`.
pub open spec fn capacity_of(max_size: nat, step: Step) -> int {
    if max_size == 0 {
        0
    } else {
        match step {
            Step::Linear(s) => max_size as int / (s as int),
            Step::Pow2(s) => vstd::math::min(
                (pow2(s as nat) * log2(max_size)) as int,
                max_size as int,
            ),
        }
    }
}

/// Appends the sample `(x, |estimate - x|)` and says whether it diverged.
pub fn record_sample(res: &mut Vec<(u64, u64)>, x: u64, estimate: u64) -> (stop: bool)
    ensures
        final(res)@ == old(res)@.push((x, dev(estimate as int, x as int) as u64)),
        stop == diverged((x, dev(estimate as int, x as int) as u64)),
{
    let sample = (x, deviation(estimate, x));
    res.push(sample);
    is_divergent(sample)
}

/// How many samples to make room for in a trial of `max_size` items under
/// `step`: `max_size / stride`, or `2^s * log2(max_size)` and never more than
/// `max_size`.
pub fn sample_capacity(max_size: u64, step: Step) -> (r: u64)
    requires
        step.well_formed(),
    ensures
        r <= max_size,
        r == capacity_of(max_size as nat, step),
{
    if max_size == 0 {
        return 0;
    }
    match step {
        Step::Linear(s) => {
            proof {
                vstd::arithmetic::div_mod::lemma_div_is_ordered_by_denominator(
                    max_size as int,
                    1,
                    s as int,
                );
            }
            max_size / s
        },
        Step::Pow2(s) => {
            let l = crate::step::ilog2(max_size) as u64;
            if s >= 64 {
                proof {
                    lemma2_to64();
                    if s > 64 {
                        lemma_pow2_strictly_increases(64, s as nat);
                    }
                    assert(pow2(s as nat) * l >= l) by (nonlinear_arith)
                        requires
                            pow2(s as nat) >= 1,
                    ;
                }
                if l == 0 {
                    assert(pow2(s as nat) * l == 0) by (nonlinear_arith)
                        requires
                            l == 0,
                    ;
                    0
                } else {
                    proof {
                        assert(pow2(s as nat) * l >= max_size)
                            by (nonlinear_arith)
                            requires
                                pow2(s as nat)
                                    > 0xFFFF_FFFF_FFFF_FFFF,
                                l >= 1,
                                max_size <= 0xFFFF_FFFF_FFFF_FFFF,
                        ;
                    }
                    max_size
                }
            } else {
                let p = crate::step::pow2_u64(s);
                match p.checked_mul(l) {
                    Some(c) => {
                        if c <= max_size {
                            c
                        } else {
                            max_size
                        }
                    },
                    None => {
                        assert(p * l >= max_size) by (nonlinear_arith)
                            requires
                                p * l > 0xFFFF_FFFF_FFFF_FFFF,
                                max_size <= 0xFFFF_FFFF_FFFF_FFFF,
                        ;
                        max_size
                    },
                }
            }
        },
    }
}

/// Feeds the keys `1 + offset ..= max_size + offset` (wrapping) into a fresh
/// estimator and samples `(items, |estimate - items|)` at the scheduled item
/// counts; the trial stops after the first divergent sample.
pub fn single_trial_accuarcy<T: Container<u64>>(
    max_size: u64,
    step: Step,
    precision: u8,
    offset: u64,
) -> (res: Vec<(u64, u64)>)
    requires
        step.well_formed(),
    ensures
        is_trial_of::<T>(res@, step, max_size as nat, precision, offset),
{
    let mut res: Vec<(u64, u64)> = Vec::with_capacity(sample_capacity(max_size, step) as usize);
    let mut hll = T::new(precision);
    let mut x: u64 = 0;
    let mut stopped = false;
    while x < max_size && !stopped
        invariant
            step.well_formed(),
            x <= max_size,
            hll.keys() == trial_keys(offset, x as nat),
            hll.precision() == precision,
            samples_estimates::<T>(res@, precision, offset),
            res@.len() <= schedule(step, x as nat).len(),
            forall|i: int| 0 <= i < res@.len() ==> (#[trigger] res@[i]).0 == schedule(step, x as nat)[i],
            forall|i: int| 0 <= i < res@.len() - 1 ==> !diverged(#[trigger] res@[i]),
            !stopped ==> res@.len() == schedule(step, x as nat).len(),
            !stopped ==> forall|i: int| 0 <= i < res@.len() ==> !diverged(#[trigger] res@[i]),
            stopped ==> res@.len() > 0 && diverged(res@.last()),
        decreases max_size - x,
    {
        x = x + 1;
        hll.put(&x.wrapping_add(offset));
        assert(hll.keys() =~= trial_keys(offset, x as nat));
        if should_record(x, step) {
            let estimate = hll.get_count();
            stopped = record_sample(&mut res, x, estimate);
        }
    }
    proof {
        lemma_schedule_prefix(step, x as nat, max_size as nat);
    }
    res
}

} // verus!
