use vstd::arithmetic::div_mod::lemma_fundamental_div_mod;
use vstd::arithmetic::power2::{
    lemma2_to64, lemma_pow2_pos, lemma_pow2_strictly_increases, lemma_pow2_unfold, pow2,
};
use vstd::bits::lemma_u64_shl_is_mul;
use vstd::prelude::*;

verus! {

/// Floor of the base-two logarithm; zero for zero and one.
pub open spec fn log2(x: nat) -> nat
    decreases x,
{
    if x < 2 {
        0
    } else {
        1 + log2(x / 2)
    }
}

/// Where error samples are taken during a trial.
#[derive(Clone, Copy, Debug, PartialEq, Eq, Structural)]
pub enum Step {
    /// A sample at every multiple of the stride.
    Linear(u64),
    /// Geometric spacing: `2^s` samples in every binary octave above `2^s`.
    Pow2(u32),
}

impl Step {
    /// A linear stride of zero has no multiples to sample at.
    pub open spec fn well_formed(self) -> bool {
        match self {
            Step::Linear(s) => s > 0,
            Step::Pow2(_) => true,
        }
    }

    /// Whether the `x`-th insert is followed by an error sample.
    pub open spec fn records(self, x: nat) -> bool {
        match self {
            Step::Linear(s) => x % (s as nat) == 0,
            Step::Pow2(s) => log2(x) > s && x % pow2((log2(x) - s) as nat) == 0,
        }
    }

    /// The inputs on which the decision is defined.
    pub open spec fn admits(self, x: nat) -> bool {
        self.well_formed() && (x >= 1 || self is Linear)
    }
}

/// The bracket `2^log2(x) <= x < 2^(log2(x) + 1)`.
pub proof fn lemma_log2_bounds(x: nat)
    requires
        x >= 1,
    ensures
        pow2(log2(x)) <= x < pow2(log2(x) + 1),
    decreases x,
{
    lemma2_to64();
    if x >= 2 {
        lemma_log2_bounds(x / 2);
        lemma_pow2_unfold(log2(x));
        lemma_pow2_unfold(log2(x) + 1);
    }
}

/// The logarithm of an exact power of two is its exponent.
pub proof fn lemma_log2_pow2(k: nat)
    ensures
        log2(pow2(k)) == k,
    decreases k,
{
    lemma2_to64();
    if k > 0 {
        lemma_pow2_unfold(k);
        lemma_pow2_pos((k - 1) as nat);
        lemma_log2_pow2((k - 1) as nat);
        assert(pow2(k) / 2 == pow2((k - 1) as nat));
    }
}

/// Every 64-bit value has a logarithm below 64.
pub proof fn lemma_log2_u64(x: u64)
    requires
        x >= 1,
    ensures
        log2(x as nat) < 64,
{
    lemma_log2_bounds(x as nat);
    lemma2_to64();
    if log2(x as nat) >= 64 {
        lemma_pow2_strictly_increases(64, log2(x as nat));
    }
}

/// `floor(log2(x))` of a positive value.
pub fn ilog2(x: u64) -> (r: u32)
    requires
        x >= 1,
    ensures
        r == log2(x as nat),
        r < 64,
{
    proof {
        lemma_log2_u64(x);
    }
    let mut v: u64 = x;
    let mut k: u32 = 0;
    while v >= 2
        invariant
            1 <= v <= x,
            k + log2(v as nat) == log2(x as nat),
            log2(x as nat) < 64,
        decreases v,
    {
        v = v / 2;
        k = k + 1;
    }
    k
}

/// `2^k` for an exponent that fits.
pub(crate) fn pow2_u64(k: u32) -> (r: u64)
    requires
        k < 64,
    ensures
        r == pow2(k as nat),
        r >= 1,
{
    proof {
        vstd::bits::lemma_u64_pow2_no_overflow(k as nat);
        lemma_u64_shl_is_mul(1, k as u64);
        lemma_pow2_pos(k as nat);
    }
    1u64 << (k as u64)
}

/// Whether an error sample follows the `x`-th insert.
pub fn should_record(x: u64, step: Step) -> (r: bool)
    requires
        step.admits(x as nat),
    ensures
        r == step.records(x as nat),
{
    match step {
        Step::Linear(s) => x % s == 0,
        Step::Pow2(s) => {
            let ilog = ilog2(x);
            if ilog > s {
                let stride = pow2_u64(ilog - s);
                x % stride == 0
            } else {
                false
            }
        },
    }
}

/// With one sample per octave, samples fall exactly on the powers of two above one.
pub proof fn lemma_octave_samples_are_powers(x: nat)
    requires
        x >= 1,
    ensures
        Step::Pow2(0).records(x) <==> exists|k: nat| k >= 1 && x == #[trigger] pow2(k),
{
    let l = log2(x);
    lemma_log2_bounds(x);
    lemma_pow2_unfold(l + 1);
    lemma_pow2_pos(l);
    if Step::Pow2(0).records(x) {
        let p = pow2(l);
        lemma_fundamental_div_mod(x as int, p as int);
        let q = x as int / p as int;
        assert(x == p * q);
        assert(q == 1) by (nonlinear_arith)
            requires
                x == p * q,
                p <= x,
                x < 2 * p,
                p > 0,
        ;
        assert(x == pow2(l));
    }
    if exists|k: nat| k >= 1 && x == #[trigger] pow2(k) {
        let k = choose|k: nat| k >= 1 && x == #[trigger] pow2(k);
        lemma_log2_pow2(k);
        assert(x % pow2(k) == 0) by {
            lemma_pow2_pos(k);
            vstd::arithmetic::div_mod::lemma_mod_self_0(pow2(k) as int);
        }
    }
}

} // verus!
