use vstd::prelude::*;

verus! {

/// How many operations each of `workers` concurrent workers performs when a
/// phase has `total` operations to share out.
pub fn ops_per_worker(total: u64, workers: u64) -> (r: u64)
    requires
        workers >= 1,
    ensures
        r == total / workers,
        r * workers <= total,
{
    proof {
        vstd::arithmetic::div_mod::lemma_fundamental_div_mod(total as int, workers as int);
        vstd::arithmetic::div_mod::lemma_mod_bound(total as int, workers as int);
        assert((total / workers) * workers == workers * (total / workers)) by (nonlinear_arith);
    }
    total / workers
}

/// Where the worker count divides the total, the workers together perform
/// every operation of the phase, and none twice.
pub proof fn lemma_workers_cover_total(total: u64, workers: u64)
    requires
        workers >= 1,
        total % workers == 0,
    ensures
        (total / workers) * workers == total,
{
    vstd::arithmetic::div_mod::lemma_fundamental_div_mod(total as int, workers as int);
    assert((total / workers) * workers == workers * (total / workers)) by (nonlinear_arith);
}

} // verus!
