use vstd::prelude::*;

use crate::step::Step;
use crate::trial::{is_trial_of, single_trial_accuarcy, Container};
use rayon::iter::{IntoParallelIterator, ParallelIterator};

verus! {

/// How many independent trials an accuracy run averages over.
pub const NUM_TRIALS: u64 = 16;

/// The reduction of all trials at one sample index. With `trials` trials
/// sampled at `items` items, the mean relative error is
/// `total_deviation / (trials * items)`, the least is
/// `min_deviation / items` and the greatest `max_deviation / items`.
#[derive(Clone, Copy, Debug, PartialEq, Eq, Structural)]
pub struct ErrorRow {
    pub items: u64,
    pub trials: usize,
    pub total_deviation: u128,
    pub min_deviation: u64,
    pub max_deviation: u64,
}

/// The contents of each vector.
pub open spec fn views<A>(t: Seq<Vec<A>>) -> Seq<Seq<A>> {
    t.map_values(|v: Vec<A>| v@)
}

/// The length of the shortest of `t[0..n]`.
pub open spec fn shortest<A>(t: Seq<Seq<A>>, n: nat) -> nat
    decreases n,
{
    if n <= 1 {
        t[0].len()
    } else {
        vstd::math::min(shortest(t, (n - 1) as nat) as int, t[n - 1].len() as int) as nat
    }
}

/// The sum of the deviations at index `i` of `t[0..n]`.
pub open spec fn column_sum(t: Seq<Seq<(u64, u64)>>, i: int, n: nat) -> int
    decreases n,
{
    if n == 0 {
        0
    } else {
        column_sum(t, i, (n - 1) as nat) + t[n - 1][i].1
    }
}

/// The least deviation at index `i` of `t[0..n]`.
pub open spec fn column_min(t: Seq<Seq<(u64, u64)>>, i: int, n: nat) -> int
    decreases n,
{
    if n <= 1 {
        t[0][i].1 as int
    } else {
        vstd::math::min(column_min(t, i, (n - 1) as nat), t[n - 1][i].1 as int)
    }
}

/// The greatest deviation at index `i` of `t[0..n]`.
pub open spec fn column_max(t: Seq<Seq<(u64, u64)>>, i: int, n: nat) -> int
    decreases n,
{
    if n <= 1 {
        t[0][i].1 as int
    } else {
        vstd::math::max(column_max(t, i, (n - 1) as nat), t[n - 1][i].1 as int)
    }
}

/// `row` reduces the samples at index `i` of every trial in `t`, and takes
/// its item count from the first trial.
pub open spec fn reduces_at(row: ErrorRow, t: Seq<Seq<(u64, u64)>>, i: int) -> bool {
    &&& row.items == t[0][i].0
    &&& row.trials == t.len()
    &&& row.total_deviation == column_sum(t, i, t.len())
    &&& row.min_deviation == column_min(t, i, t.len())
    &&& row.max_deviation == column_max(t, i, t.len())
}

/// `rows` has one reduced row for each index that all trials in `t` reach.
pub open spec fn summarizes(rows: Seq<ErrorRow>, t: Seq<Seq<(u64, u64)>>) -> bool {
    &&& t.len() >= 1
    &&& rows.len() == shortest(t, t.len())
    &&& forall|i: int| 0 <= i < rows.len() ==> reduces_at(#[trigger] rows[i], t, i)
}

/// No sequence among the first `n` is shorter than the shortest.
pub proof fn lemma_shortest_bound<A>(t: Seq<Seq<A>>, n: nat, j: int)
    requires
        1 <= n <= t.len(),
        0 <= j < n,
    ensures
        shortest(t, n) <= t[j].len(),
    decreases n,
{
    if n > 1 && j < n - 1 {
        lemma_shortest_bound(t, (n - 1) as nat, j);
    }
}

/// Some sequence among the first `n` is exactly as long as the shortest.
pub proof fn lemma_shortest_attained<A>(t: Seq<Seq<A>>, n: nat) -> (j: int)
    requires
        1 <= n <= t.len(),
    ensures
        0 <= j < n,
        shortest(t, n) == t[j].len(),
    decreases n,
{
    if n <= 1 {
        0
    } else {
        let k = lemma_shortest_attained(t, (n - 1) as nat);
        if shortest(t, (n - 1) as nat) <= t[n - 1].len() {
            k
        } else {
            n - 1
        }
    }
}

/// A summary is cut to its shortest trial: no trial is shorter than the
/// summary, and one is exactly as long.
pub proof fn lemma_summary_truncates(rows: Seq<ErrorRow>, t: Seq<Seq<(u64, u64)>>)
    requires
        summarizes(rows, t),
    ensures
        forall|j: int| 0 <= j < t.len() ==> rows.len() <= #[trigger] t[j].len(),
        exists|j: int| 0 <= j < t.len() && rows.len() == #[trigger] t[j].len(),
{
    assert forall|j: int| 0 <= j < t.len() implies rows.len() <= #[trigger] t[j].len() by {
        lemma_shortest_bound(t, t.len(), j);
    }
    let j = lemma_shortest_attained(t, t.len());
    assert(rows.len() == t[j].len());
}

/// With a single trial, the mean, least and greatest deviation coincide.
pub proof fn lemma_single_trial_summary(rows: Seq<ErrorRow>, t: Seq<Seq<(u64, u64)>>, i: int)
    requires
        t.len() == 1,
        summarizes(rows, t),
        0 <= i < rows.len(),
    ensures
        rows[i].total_deviation == rows[i].min_deviation,
        rows[i].min_deviation == rows[i].max_deviation,
        rows[i].max_deviation == t[0][i].1,
{
    assert(reduces_at(rows[i], t, i));
    assert(column_sum(t, i, 0) == 0);
}

/// A sum of `n` deviations is at most `n` times the largest 64-bit value.
proof fn lemma_column_sum_bound(t: Seq<Seq<(u64, u64)>>, i: int, n: nat)
    ensures
        0 <= column_sum(t, i, n) <= n * 0xFFFF_FFFF_FFFF_FFFF,
    decreases n,
{
    if n > 0 {
        lemma_column_sum_bound(t, i, (n - 1) as nat);
    }
}

/// The length of the shortest vector.
fn min_len<T>(vecs: &Vec<Vec<T>>) -> (r: usize)
    requires
        vecs.len() >= 1,
    ensures
        r == shortest(views(vecs@), vecs.len() as nat),
{
    let mut r = vecs[0].len();
    let mut j: usize = 1;
    while j < vecs.len()
        invariant
            1 <= j <= vecs.len(),
            r == shortest(views(vecs@), j as nat),
        decreases vecs.len() - j,
    {
        let l = vecs[j].len();
        if l < r {
            r = l;
        }
        j = j + 1;
    }
    r
}

/// Reduces trials, index by index, to the sum, least and greatest deviation,
/// over as many indexes as the shortest trial has.
pub fn summarize(trials: &Vec<Vec<(u64, u64)>>) -> (rows: Vec<ErrorRow>)
    requires
        trials.len() >= 1,
    ensures
        summarizes(rows@, views(trials@)),
{
    let ghost t = views(trials@);
    let n = trials.len();
    let len = min_len(trials);
    let mut rows: Vec<ErrorRow> = Vec::with_capacity(len);
    let mut i: usize = 0;
    while i < len
        invariant
            n == trials.len() == t.len(),
            n >= 1,
            t == views(trials@),
            len == shortest(t, n as nat),
            i <= len,
            rows@.len() == i,
            forall|k: int| 0 <= k < i ==> reduces_at(#[trigger] rows@[k], t, k),
        decreases len - i,
    {
        proof {
            assert forall|j: int| 0 <= j < n implies i < (#[trigger] trials@[j])@.len() by {
                lemma_shortest_bound(t, n as nat, j);
                assert(t[j] == trials@[j]@);
            }
        }
        let first = trials[0][i];
        let mut total: u128 = first.1 as u128;
        let mut lo: u64 = first.1;
        let mut hi: u64 = first.1;
        let mut j: usize = 1;
        proof {
            assert(t[0] == trials@[0]@);
            assert(column_sum(t, i as int, 0) == 0);
            assert(column_sum(t, i as int, 1) == first.1);
        }
        while j < n
            invariant
                n == trials.len() == t.len(),
                t == views(trials@),
                1 <= j <= n,
                forall|k: int| 0 <= k < n ==> i < (#[trigger] trials@[k])@.len(),
                total == column_sum(t, i as int, j as nat),
                lo == column_min(t, i as int, j as nat),
                hi == column_max(t, i as int, j as nat),
            decreases n - j,
        {
            let d = trials[j][i].1;
            proof {
                lemma_column_sum_bound(t, i as int, j as nat);
                assert(j * 0xFFFF_FFFF_FFFF_FFFF + 0xFFFF_FFFF_FFFF_FFFF
                    <= 0xFFFF_FFFF_FFFF_FFFF_FFFF_FFFF_FFFF_FFFF) by (nonlinear_arith)
                    requires
                        j < 0x1_0000_0000_0000_0000,
                ;
            }
            total = total + d as u128;
            if d < lo {
                lo = d;
            }
            if d > hi {
                hi = d;
            }
            j = j + 1;
        }
        let row = ErrorRow {
            items: first.0,
            trials: n,
            total_deviation: total,
            min_deviation: lo,
            max_deviation: hi,
        };
        rows.push(row);
        i = i + 1;
    }
    rows
}

/// The key offset of trial `j` of `n`: trials start `u64::MAX / n` keys apart.
pub fn trial_offset(j: u64, n: u64) -> (r: u64)
    requires
        j < n,
    ensures
        r == j * (u64::MAX / n),
{
    let stride = u64::MAX / n;
    proof {
        assert(j * stride <= n * stride) by (nonlinear_arith)
            requires
                j < n,
        ;
        vstd::arithmetic::div_mod::lemma_fundamental_div_mod(u64::MAX as int, n as int);
        assert(n * stride <= u64::MAX) by {
            vstd::arithmetic::div_mod::lemma_mod_bound(u64::MAX as int, n as int);
        }
    }
    j * stride
}

/// Distinct trials start at distinct offsets, trial 0 at offset 0.
pub proof fn lemma_trial_offsets_distinct(n: u64, i: u64, j: u64)
    requires
        i < j < n,
    ensures
        0 * (u64::MAX / n) == 0,
        i * (u64::MAX / n) < j * (u64::MAX / n),
{
    let stride = u64::MAX / n;
    assert(stride >= 1) by {
        vstd::arithmetic::div_mod::lemma_div_is_ordered(n as int, u64::MAX as int, n as int);
        vstd::arithmetic::div_mod::lemma_div_by_self(n as int);
    }
    assert(i * stride < j * stride) by (nonlinear_arith)
        requires
            i < j,
            stride >= 1,
    ;
}

/// Trial `j` of `n`, on its own range of keys.
fn trial_at<T: Container<u64>>(
    max_size: u64,
    step: Step,
    precision: u8,
    j: u64,
    n: u64,
) -> (res: Vec<(u64, u64)>)
    requires
        step.well_formed(),
        j < n,
    ensures
        is_trial_of::<T>(res@, step, max_size as nat, precision, (j * (u64::MAX / n)) as u64),
{
    single_trial_accuarcy::<T>(max_size, step, precision, trial_offset(j, n))
}

/// Relies on rayon's `into_par_iter().map(..).collect()` over `0..n`: the
/// closure runs once for each index, and the results come back in index order.
#[verifier::external_body]
fn run_trials<T: Container<u64>>(max_size: u64, step: Step, precision: u8, n: u64) -> (r: Vec<
    Vec<(u64, u64)>,
>)
    requires
        step.well_formed(),
    ensures
        r.len() == n,
        forall|j: int|
            0 <= j < n ==> is_trial_of::<T>(
                (#[trigger] r@[j])@,
                step,
                max_size as nat,
                precision,
                (j * (u64::MAX / n)) as u64,
            ),
{
    (0..n).into_par_iter().map(|j| trial_at::<T>(max_size, step, precision, j, n)).collect()
}

/// Runs independent trials in parallel, trial `j` on the keys from
/// `j * (u64::MAX / NUM_TRIALS) + 1` on, and reduces them, sample index by
/// sample index, to the total, least and greatest deviation; the run is as
/// long as its shortest trial.
pub fn accuarcy<T: Container<u64>>(max_size: u64, step: Step, precision: u8) -> (rows: Vec<
    ErrorRow,
>)
    requires
        step.well_formed(),
    ensures
        exists|t: Seq<Seq<(u64, u64)>>|
            {
                &&& t.len() == NUM_TRIALS
                &&& forall|j: int|
                    0 <= j < t.len() ==> is_trial_of::<T>(
                        #[trigger] t[j],
                        step,
                        max_size as nat,
                        precision,
                        (j * (u64::MAX / NUM_TRIALS)) as u64,
                    )
                &&& summarizes(rows@, t)
            },
{
    let data = run_trials::<T>(max_size, step, precision, NUM_TRIALS);
    let rows = summarize(&data);
    proof {
        let t = views(data@);
        assert forall|j: int| 0 <= j < t.len() implies is_trial_of::<T>(
            #[trigger] t[j],
            step,
            max_size as nat,
            precision,
            (j * (u64::MAX / NUM_TRIALS)) as u64,
        ) by {
            assert(t[j] == data@[j]@);
        }
    }
    rows
}

} // verus!
