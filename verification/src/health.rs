//! Per-backend health state: an alive/dead health score and the
//! three-state reliability ledger.
//!
//! A live score is a positive dyadic rational `num / 2^shift`, always at
//! least one. Race outcomes add 2 or 4 to the score; a failure halves it,
//! and a score that would drop below one kills the backend.

use vstd::prelude::*;
use vstd::arithmetic::power2::{pow2, lemma_pow2_adds, lemma_pow2_strictly_increases, lemma2_to64};

verus! {

/// A health score `num / 2^shift`. Well-formed scores are at least one.
#[derive(Clone, Copy, Debug, PartialEq, Eq, Structural)]
pub struct Score {
    pub num: u64,
    pub shift: u64,
}

impl Score {
    /// The score is at least one: `num >= 2^shift`.
    pub open spec fn wf(self) -> bool {
        self.num >= pow2(self.shift as nat)
    }

    /// The score equals the whole number `w`.
    pub open spec fn is_whole(self, w: int) -> bool {
        self.num == w * pow2(self.shift as nat)
    }

    /// The canonical representation of a whole-number score.
    pub fn from_whole(w: u64) -> (r: Score)
        requires
            w >= 1,
        ensures
            r == (Score { num: w, shift: 0u64 }),
            r.wf(),
            r.is_whole(w as int),
    {
        proof {
            lemma2_to64();
            vstd::arithmetic::mul::lemma_mul_basics(w as int);
        }
        Score { num: w, shift: 0 }
    }
}

/// A well-formed score has `shift < 64`, since `2^shift <= num < 2^64`.
pub proof fn lemma_wf_shift_bound(s: Score)
    requires
        s.wf(),
    ensures
        s.shift < 64,
{
    if s.shift >= 64 {
        lemma2_to64();
        lemma_pow2_strictly_increases(64, s.shift as nat);
        assert(pow2(64) == 0x10000000000000000) by {
            lemma_pow2_adds(32, 32);
            lemma2_to64();
        }
    }
}

/// Health of one backend: dead, or alive with a score.
#[derive(Clone, Copy, Debug, PartialEq, Eq, Structural)]
pub enum Health {
    Dead,
    Healthy(Score),
}

impl Health {
    pub open spec fn wf(self) -> bool {
        match self {
            Health::Dead => true,
            Health::Healthy(s) => s.wf(),
        }
    }
}

/// Adding `inc` to the score `s` (saturating at the largest representable
/// numerator, which a realistic update never reaches).
pub open spec fn spec_bump(s: Score, inc: u64) -> Score {
    if s.num + inc * pow2(s.shift as nat) <= u64::MAX {
        Score { num: (s.num + inc * pow2(s.shift as nat)) as u64, shift: s.shift }
    } else {
        Score { num: u64::MAX, shift: s.shift }
    }
}

/// A race reward: `+4` for the winner, `+2` for other successful racers;
/// a dead backend is resurrected at score one.
pub open spec fn spec_more_healthy(h: Health, is_best: bool) -> Health {
    let inc: u64 = if is_best { 4u64 } else { 2u64 };
    match h {
        Health::Dead => Health::Healthy(Score { num: 1u64, shift: 0u64 }),
        Health::Healthy(s) => Health::Healthy(spec_bump(s, inc)),
    }
}

/// A race penalty: the score is halved; a score that would drop below one
/// kills the backend. A dead backend stays dead.
pub open spec fn spec_less_healthy(h: Health) -> Health {
    match h {
        Health::Dead => Health::Dead,
        Health::Healthy(s) => {
            if s.num < 2 * pow2(s.shift as nat) {
                Health::Dead
            } else {
                Health::Healthy(Score { num: s.num, shift: (s.shift + 1) as u64 })
            }
        },
    }
}

pub proof fn lemma_more_healthy_wf(h: Health, is_best: bool)
    requires
        h.wf(),
    ensures
        spec_more_healthy(h, is_best).wf(),
{
    lemma2_to64();
}

pub proof fn lemma_less_healthy_wf(h: Health)
    requires
        h.wf(),
    ensures
        spec_less_healthy(h).wf(),
{
    match h {
        Health::Dead => {},
        Health::Healthy(s) => {
            if s.num >= 2 * pow2(s.shift as nat) {
                lemma_wf_shift_bound(s);
                lemma_pow2_adds(s.shift as nat, 1);
                lemma2_to64();
            }
        },
    }
}

/// The executable reward transition; exactly `spec_more_healthy`.
pub fn more_healthy(h: Health, is_best: bool) -> (r: Health)
    requires
        h.wf(),
    ensures
        r == spec_more_healthy(h, is_best),
        r.wf(),
{
    proof { lemma_more_healthy_wf(h, is_best); }
    match h {
        Health::Dead => Health::Healthy(Score { num: 1, shift: 0 }),
        Health::Healthy(s) => {
            let inc: u64 = if is_best { 4 } else { 2 };
            proof {
                lemma_wf_shift_bound(s);
                vstd::bits::lemma_u64_shl_is_mul(1u64, s.shift);
            }
            let p: u64 = 1u64 << s.shift;
            let total: u128 = (s.num as u128) + (inc as u128) * (p as u128);
            if total <= u64::MAX as u128 {
                Health::Healthy(Score { num: total as u64, shift: s.shift })
            } else {
                Health::Healthy(Score { num: u64::MAX, shift: s.shift })
            }
        },
    }
}

/// The executable penalty transition; exactly `spec_less_healthy`.
pub fn less_healthy(h: Health) -> (r: Health)
    requires
        h.wf(),
    ensures
        r == spec_less_healthy(h),
        r.wf(),
{
    proof { lemma_less_healthy_wf(h); }
    match h {
        Health::Dead => Health::Dead,
        Health::Healthy(s) => {
            proof {
                lemma_wf_shift_bound(s);
                vstd::bits::lemma_u64_shl_is_mul(1u64, s.shift);
            }
            let p: u64 = 1u64 << s.shift;
            if (s.num as u128) < 2u128 * (p as u128) {
                Health::Dead
            } else {
                Health::Healthy(Score { num: s.num, shift: s.shift + 1 })
            }
        },
    }
}

/// `k` successive non-best rewards applied to `h`.
pub open spec fn iter_more_healthy(h: Health, k: nat) -> Health
    decreases k,
{
    if k == 0 {
        h
    } else {
        spec_more_healthy(iter_more_healthy(h, (k - 1) as nat), false)
    }
}

/// `k` successive penalties applied to `h`.
pub open spec fn iter_less_healthy(h: Health, k: nat) -> Health
    decreases k,
{
    if k == 0 {
        h
    } else {
        spec_less_healthy(iter_less_healthy(h, (k - 1) as nat))
    }
}

/// Law: `k` non-best rewards starting from a fresh score of one yield
/// exactly the score `1 + 2k`.
pub proof fn lemma_more_healthy_linear(k: nat)
    requires
        1 + 2 * k <= u64::MAX,
    ensures
        iter_more_healthy(Health::Healthy(Score { num: 1u64, shift: 0u64 }), k)
            == Health::Healthy(Score { num: (1 + 2 * k) as u64, shift: 0u64 }),
    decreases k,
{
    lemma2_to64();
    if k > 0 {
        lemma_more_healthy_linear((k - 1) as nat);
    }
}

/// `⌊log2(n)⌋` for `n >= 1` (and zero for `n = 0`).
pub open spec fn floor_log2(n: nat) -> nat
    decreases n,
{
    if n < 2 {
        0
    } else {
        1 + floor_log2(n / 2)
    }
}

/// `2^s <= n` implies `floor_log2(n) >= s`.
pub proof fn lemma_floor_log2_ge(n: nat, s: nat)
    requires
        n >= pow2(s),
    ensures
        floor_log2(n) >= s,
    decreases s,
{
    lemma2_to64();
    if s > 0 {
        lemma_pow2_adds((s - 1) as nat, 1);
        lemma_floor_log2_ge(n / 2, (s - 1) as nat);
    }
}

/// `2^s <= n < 2^(s+1)` pins `floor_log2(n)` to `s` exactly.
pub proof fn lemma_floor_log2_between(n: nat, s: nat)
    requires
        pow2(s) <= n < pow2(s + 1),
    ensures
        floor_log2(n) == s,
    decreases s,
{
    lemma2_to64();
    if s > 0 {
        lemma_pow2_adds((s - 1) as nat, 1);
        lemma_pow2_adds(s, 1);
        lemma_floor_log2_between(n / 2, (s - 1) as nat);
    }
}

/// The number of penalties that turn the live score `s` dead:
/// `⌊log2(score)⌋ + 1`, where the score is `num / 2^shift`.
pub open spec fn steps_to_dead(s: Score) -> nat {
    (floor_log2(s.num as nat) - s.shift + 1) as nat
}

/// Law: starting from `Healthy(s)`, repeated penalties reach `Dead` in
/// exactly `⌊log2(score)⌋ + 1` applications — not one sooner.
pub proof fn lemma_less_healthy_steps(s: Score)
    requires
        s.wf(),
    ensures
        steps_to_dead(s) >= 1,
        iter_less_healthy(Health::Healthy(s), steps_to_dead(s)) == Health::Dead,
        forall|k: nat| k < steps_to_dead(s) ==> iter_less_healthy(Health::Healthy(s), k) is Healthy,
    decreases steps_to_dead(s),
{
    lemma2_to64();
    lemma_floor_log2_ge(s.num as nat, s.shift as nat);
    lemma_wf_shift_bound(s);
    lemma_pow2_adds(s.shift as nat, 1);
    if s.num < 2 * pow2(s.shift as nat) {
        // One penalty kills: the score is in [1, 2).
        lemma_floor_log2_between(s.num as nat, s.shift as nat);
        assert(steps_to_dead(s) == 1);
        assert(iter_less_healthy(Health::Healthy(s), 0nat) == Health::Healthy(s));
        assert(iter_less_healthy(Health::Healthy(s), 1) == spec_less_healthy(Health::Healthy(s)));
        assert forall|k: nat| k < 1 implies iter_less_healthy(Health::Healthy(s), k) is Healthy by {
            assert(k == 0);
        }
    } else {
        let s2 = Score { num: s.num, shift: (s.shift + 1) as u64 };
        assert(s2.wf());
        lemma_floor_log2_ge(s2.num as nat, s2.shift as nat);
        lemma_less_healthy_steps(s2);
        assert(steps_to_dead(s) == steps_to_dead(s2) + 1);
        // Iterating from s is iterating from s2 after the first penalty.
        assert forall|k: nat| k >= 1 implies iter_less_healthy(Health::Healthy(s), k)
            == iter_less_healthy(Health::Healthy(s2), (k - 1) as nat) by {
            lemma_iter_less_healthy_shift(Health::Healthy(s), Health::Healthy(s2), k);
        }
        assert(iter_less_healthy(Health::Healthy(s), steps_to_dead(s)) == Health::Dead);
        assert forall|k: nat| k < steps_to_dead(s) implies
            iter_less_healthy(Health::Healthy(s), k) is Healthy by {
            if k >= 1 {
                lemma_iter_less_healthy_shift(Health::Healthy(s), Health::Healthy(s2), k);
            }
        }
    }
}

/// Helper: if one penalty takes `h` to `h2`, then `k` penalties from `h`
/// equal `k - 1` penalties from `h2`.
proof fn lemma_iter_less_healthy_shift(h: Health, h2: Health, k: nat)
    requires
        k >= 1,
        spec_less_healthy(h) == h2,
    ensures
        iter_less_healthy(h, k) == iter_less_healthy(h2, (k - 1) as nat),
    decreases k,
{
    if k == 1 {
        assert(iter_less_healthy(h, 0nat) == h);
        assert(iter_less_healthy(h2, 0nat) == h2);
        assert(iter_less_healthy(h, 1) == spec_less_healthy(iter_less_healthy(h, 0nat)));
    } else {
        lemma_iter_less_healthy_shift(h, h2, (k - 1) as nat);
    }
}

/// The reliability ledger of one backend.
#[derive(Clone, Copy, Debug, PartialEq, Eq, Structural)]
pub enum FailureRecord {
    Reliable,
    Unreliable,
    SecondChanceGiven,
}

/// A connect, send or mid-stream error demotes the ledger: a reliable
/// backend becomes unreliable, any other gets its second chance spent.
pub open spec fn spec_record_failure(r: FailureRecord) -> FailureRecord {
    match r {
        FailureRecord::Reliable => FailureRecord::Unreliable,
        _ => FailureRecord::SecondChanceGiven,
    }
}

pub fn record_stream_error(r: FailureRecord) -> (x: FailureRecord)
    ensures
        x == spec_record_failure(r),
{
    match r {
        FailureRecord::Reliable => FailureRecord::Unreliable,
        _ => FailureRecord::SecondChanceGiven,
    }
}

/// A stream that ends without error restores the ledger to reliable.
pub fn record_stream_success(r: FailureRecord) -> (x: FailureRecord)
    ensures
        x == FailureRecord::Reliable,
{
    let _ = r;
    FailureRecord::Reliable
}

} // verus!
