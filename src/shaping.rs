//! Adaptive shaping: a sliding window of attempt outcomes, the health
//! decision derived from it, and the concurrency / rate / circuit state that
//! the decision drives (with hysteresis).
use std::collections::VecDeque;
use vstd::prelude::*;
use vstd::relations::{sorted_by, total_ordering};
use vstd::seq_lib::lemma_sorted_unique;

use crate::clock::now_ms;

verus! {

broadcast use vstd::seq_lib::group_to_multiset_ensures;

/// Record of a single revalidation attempt.
#[derive(Debug, Clone)]
pub struct AttemptRecord {
    /// When the attempt was made, in milliseconds.
    pub timestamp_ms: u64,
    /// Which record was being revalidated.
    pub substance: String,
    /// Whether the attempt succeeded.
    pub success: bool,
    /// How long the attempt took.
    pub latency_ms: u64,
}

/// Health metrics computed over a sliding time window.
#[derive(Debug, Clone)]
pub struct HealthMetrics {
    /// Length of the sliding window in milliseconds.
    window_ms: u64,
    /// Recent attempts, oldest first.
    recent_attempts: VecDeque<AttemptRecord>,
    /// Currently active concurrency level.
    pub current_concurrency: usize,
    /// Maximum concurrency level.
    max_concurrency: usize,
}

/// Number of leading attempts that are older than `cutoff`.
pub open spec fn stale_prefix_len(s: Seq<AttemptRecord>, cutoff: u64) -> nat
    decreases s.len(),
{
    if s.len() == 0 || s[0].timestamp_ms >= cutoff {
        0
    } else {
        1 + stale_prefix_len(s.drop_first(), cutoff)
    }
}

/// The window after recording `rec` at `now`: attempts older than
/// `now - window` dropped from the front, then `rec` appended.
pub open spec fn windowed(s: Seq<AttemptRecord>, window: u64, now: u64, rec: AttemptRecord) -> Seq<AttemptRecord> {
    let cutoff = if now >= window {
        (now - window) as u64
    } else {
        0u64
    };
    s.subrange(stale_prefix_len(s, cutoff) as int, s.len() as int).push(rec)
}

/// Number of failed attempts in `s`.
pub open spec fn failure_count(s: Seq<AttemptRecord>) -> nat
    decreases s.len(),
{
    if s.len() == 0 {
        0
    } else {
        failure_count(s.drop_last()) + if s.last().success {
            0nat
        } else {
            1nat
        }
    }
}

/// The names of the records whose attempts failed.
pub open spec fn failing_names(s: Seq<AttemptRecord>) -> Set<Seq<char>> {
    Set::new(|n: Seq<char>| exists|i: int| 0 <= i < s.len() && !s[i].success && s[i].substance@ == n)
}

/// The latencies of the attempts, in window order.
pub open spec fn latencies(s: Seq<AttemptRecord>) -> Seq<u64> {
    s.map_values(|r: AttemptRecord| r.latency_ms)
}

pub open spec fn u64_leq() -> spec_fn(u64, u64) -> bool {
    |a: u64, b: u64| a <= b
}

/// Linear-index percentile (`pct` out of 100) of the latencies: the element at
/// index `floor(len * pct / 100)` (at most the last one) of the sorted latencies,
/// or 0 for an empty window.
pub open spec fn percentile(s: Seq<AttemptRecord>, pct: nat) -> u64 {
    if s.len() == 0 {
        0
    } else {
        let idx = (s.len() * pct / 100) as int;
        let idx = if idx < s.len() {
            idx
        } else {
            s.len() - 1
        };
        latencies(s).sort_by(u64_leq())[idx]
    }
}

/// Index of the most recent failed attempt, if any.
pub open spec fn last_failure(s: Seq<AttemptRecord>) -> Option<int>
    decreases s.len(),
{
    if s.len() == 0 {
        None
    } else if !s.last().success {
        Some(s.len() - 1)
    } else {
        last_failure(s.drop_last())
    }
}

/// Time since the most recent failure; with no failure in the window, time since
/// the oldest attempt; with an empty window, zero. A timestamp after `now`
/// counts as zero elapsed time.
pub open spec fn healthy_ms(s: Seq<AttemptRecord>, now: u64) -> u64 {
    match last_failure(s) {
        Some(i) => if now >= s[i].timestamp_ms {
            (now - s[i].timestamp_ms) as u64
        } else {
            0
        },
        None => if s.len() == 0 {
            0
        } else if now >= s[0].timestamp_ms {
            (now - s[0].timestamp_ms) as u64
        } else {
            0
        },
    }
}

proof fn lemma_u64_leq_total()
    ensures
        total_ordering(u64_leq()),
{
}

proof fn lemma_failure_count_bound(s: Seq<AttemptRecord>)
    ensures
        failure_count(s) <= s.len(),
    decreases s.len(),
{
    if s.len() > 0 {
        lemma_failure_count_bound(s.drop_last());
    }
}

/// Whether `v` holds a string equal to `s`.
fn contains_name(v: &Vec<String>, s: &String) -> (r: bool)
    ensures
        r <==> exists|m: int| 0 <= m < v@.len() && v@[m]@ == s@,
{
    let mut k: usize = 0;
    while k < v.len()
        invariant
            k <= v@.len(),
            forall|m: int| 0 <= m < k ==> v@[m]@ != s@,
        decreases v@.len() - k,
    {
        if v[k] == *s {
            return true;
        }
        k = k + 1;
    }
    false
}

impl HealthMetrics {
    pub closed spec fn window(&self) -> u64 {
        self.window_ms
    }

    pub closed spec fn attempts(&self) -> Seq<AttemptRecord> {
        self.recent_attempts@
    }

    pub closed spec fn max(&self) -> usize {
        self.max_concurrency
    }

    pub closed spec fn concurrency(&self) -> usize {
        self.current_concurrency
    }

    /// Create a new tracker with an empty window of `window_ms` milliseconds.
    pub fn new(window_ms: u64, max_concurrency: usize) -> (r: Self)
        ensures
            r.window() == window_ms,
            r.attempts() == Seq::<AttemptRecord>::empty(),
            r.concurrency() == max_concurrency,
            r.max() == max_concurrency,
    {
        HealthMetrics {
            window_ms,
            recent_attempts: VecDeque::new(),
            current_concurrency: max_concurrency,
            max_concurrency,
        }
    }

    /// Record an attempt made at `now`: attempts older than the window
    /// (before `now - window`) are dropped from the front, then the new one is
    /// appended.
    pub fn record_at(&mut self, substance: String, success: bool, latency_ms: u64, now: u64)
        ensures
            ({
                let cutoff = if now >= old(self).window() {
                    (now - old(self).window()) as u64
                } else {
                    0u64
                };
                let k = stale_prefix_len(old(self).attempts(), cutoff) as int;
                final(self).attempts() == old(self).attempts().subrange(k, old(self).attempts().len() as int).push(
                    AttemptRecord { timestamp_ms: now, substance, success, latency_ms },
                )
            }),
            final(self).window() == old(self).window(),
            final(self).max() == old(self).max(),
            final(self).concurrency() == old(self).concurrency(),
    {
        let cutoff: u64 = if now >= self.window_ms {
            now - self.window_ms
        } else {
            0
        };
        let ghost orig = self.recent_attempts@;
        let ghost mut popped: int = 0;
        loop
            invariant
                0 <= popped <= orig.len(),
                self.recent_attempts@ == orig.subrange(popped, orig.len() as int),
                stale_prefix_len(orig, cutoff) == popped + stale_prefix_len(self.recent_attempts@, cutoff),
                self.window_ms == old(self).window_ms,
                self.max_concurrency == old(self).max_concurrency,
                self.current_concurrency == old(self).current_concurrency,
            ensures
                stale_prefix_len(self.recent_attempts@, cutoff) == 0,
                self.recent_attempts@ == orig.subrange(popped, orig.len() as int),
                stale_prefix_len(orig, cutoff) == popped,
            decreases self.recent_attempts@.len(),
        {
            let stale = self.recent_attempts.len() > 0 && self.recent_attempts[0].timestamp_ms < cutoff;
            if stale {
                let ghost before = self.recent_attempts@;
                self.recent_attempts.pop_front();
                proof {
                    assert(self.recent_attempts@ =~= before.drop_first());
                    popped = popped + 1;
                    assert(self.recent_attempts@ =~= orig.subrange(popped, orig.len() as int));
                }
            } else {
                break;
            }
        }
        self.recent_attempts.push_back(AttemptRecord { timestamp_ms: now, substance, success, latency_ms });
    }

    /// Record an attempt made now.
    pub fn record(&mut self, substance: String, success: bool, latency_ms: u64)
        ensures
            exists|now: u64| final(self).attempts() == #[trigger] windowed(
                old(self).attempts(),
                old(self).window(),
                now,
                AttemptRecord { timestamp_ms: now, substance, success, latency_ms },
            ),
            final(self).window() == old(self).window(),
            final(self).max() == old(self).max(),
            final(self).concurrency() == old(self).concurrency(),
    {
        let now = now_ms();
        let ghost rec = AttemptRecord { timestamp_ms: now, substance, success, latency_ms };
        self.record_at(substance, success, latency_ms, now);
        assert(self.attempts() == windowed(old(self).attempts(), old(self).window(), now, rec));
    }

    /// Number of failed attempts in the window.
    pub fn total_failures(&self) -> (r: usize)
        ensures
            r == failure_count(self.attempts()),
    {
        let mut count: usize = 0;
        let mut i: usize = 0;
        let n = self.recent_attempts.len();
        while i < n
            invariant
                n == self.recent_attempts@.len(),
                i <= n,
                count == failure_count(self.recent_attempts@.subrange(0, i as int)),
                count <= i,
            decreases n - i,
        {
            proof {
                assert(self.recent_attempts@.subrange(0, i + 1).drop_last() =~= self.recent_attempts@.subrange(0, i as int));
            }
            if !self.recent_attempts[i].success {
                count = count + 1;
            }
            i = i + 1;
        }
        proof {
            assert(self.recent_attempts@.subrange(0, n as int) =~= self.recent_attempts@);
        }
        count
    }

    /// Number of attempts in the window.
    pub fn attempt_count(&self) -> (r: usize)
        ensures
            r == self.attempts().len(),
    {
        self.recent_attempts.len()
    }

    /// The distinct names of the records whose attempts failed, each once, in
    /// the order of their first failure.
    #[verifier::rlimit(40)]
    pub fn unique_failing_substances(&self) -> (r: Vec<String>)
        ensures
            r@.map_values(|s: String| s@).to_set() == failing_names(self.attempts()),
            r@.map_values(|s: String| s@).no_duplicates(),
    {
        let mut out: Vec<String> = Vec::new();
        let n = self.recent_attempts.len();
        let mut i: usize = 0;
        while i < n
            invariant
                n == self.recent_attempts@.len(),
                i <= n,
                forall|a: int, b: int| #![trigger out@[a], out@[b]] 0 <= a < b < out@.len() ==> out@[a]@ != out@[b]@,
                forall|k: int| 0 <= k < out@.len() ==> exists|j: int|
                    0 <= j < i && !self.recent_attempts@[j].success
                        && #[trigger] out@[k]@ == self.recent_attempts@[j].substance@,
                forall|j: int| 0 <= j < i && !self.recent_attempts@[j].success ==> exists|k: int|
                    0 <= k < out@.len() && out@[k]@ == (#[trigger] self.recent_attempts@[j]).substance@,
            decreases n - i,
        {
            let rec = &self.recent_attempts[i];
            let ghost out0 = out@;
            if !rec.success {
                let found = contains_name(&out, &rec.substance);
                if !found {
                    let ghost before = out@;
                    out.push(rec.substance.clone());
                    proof {
                        assert forall|a: int, b: int| #![trigger out@[a], out@[b]]
                            0 <= a < b < out@.len() implies out@[a]@ != out@[b]@ by {
                            if b == out@.len() - 1 {
                                assert(out@[a] == before[a]);
                            } else {
                                assert(out@[a] == before[a]);
                                assert(out@[b] == before[b]);
                            }
                        }
                        assert forall|m: int| 0 <= m < out@.len() implies exists|j: int|
                            0 <= j < i + 1 && !self.recent_attempts@[j].success
                                && #[trigger] out@[m]@ == self.recent_attempts@[j].substance@ by {
                            if m < before.len() {
                                assert(out@[m] == before[m]);
                            } else {
                                assert(out@[m]@ == self.recent_attempts@[i as int].substance@);
                            }
                        }
                        assert forall|j: int| 0 <= j < i + 1 && !self.recent_attempts@[j].success implies exists|m: int|
                            0 <= m < out@.len() && out@[m]@ == (#[trigger] self.recent_attempts@[j]).substance@ by {
                            if j < i {
                                let m = choose|m: int| 0 <= m < before.len() && before[m]@ == self.recent_attempts@[j].substance@;
                                assert(out@[m] == before[m]);
                            } else {
                                assert(out@[out@.len() - 1]@ == self.recent_attempts@[j].substance@);
                            }
                        }
                    }
                }
            }
            proof {
                assert forall|m: int| 0 <= m < out@.len() implies exists|j: int|
                    0 <= j < i + 1 && !self.recent_attempts@[j].success
                        && #[trigger] out@[m]@ == self.recent_attempts@[j].substance@ by {
                    if m < out0.len() && out@[m] == out0[m] {
                        let j = choose|j: int| 0 <= j < i && !self.recent_attempts@[j].success
                            && #[trigger] out0[m]@ == self.recent_attempts@[j].substance@;
                        assert(0 <= j < i + 1 && !self.recent_attempts@[j].success
                            && out@[m]@ == self.recent_attempts@[j].substance@);
                    } else {
                        assert(out@[m]@ == self.recent_attempts@[i as int].substance@);
                    }
                }
            }
            i = i + 1;
        }
        proof {
            let names = out@.map_values(|s: String| s@);
            assert forall|x: Seq<char>| names.to_set().contains(x) <==> failing_names(self.recent_attempts@).contains(x) by {
                if names.to_set().contains(x) {
                    let k = choose|k: int| 0 <= k < names.len() && names[k] == x;
                    assert(out@[k]@ == x);
                }
                if failing_names(self.recent_attempts@).contains(x) {
                    let j = choose|j: int| 0 <= j < n && !self.recent_attempts@[j].success && self.recent_attempts@[j].substance@ == x;
                    let k = choose|k: int| 0 <= k < out@.len() && out@[k]@ == self.recent_attempts@[j].substance@;
                    assert(names[k] == x);
                }
            }
            assert(names.to_set() =~= failing_names(self.recent_attempts@));
            assert forall|a: int, b: int| 0 <= a < names.len() && 0 <= b < names.len() && a != b implies names[a] != names[b] by {
                if a < b {
                    assert(out@[a]@ != out@[b]@);
                } else {
                    assert(out@[b]@ != out@[a]@);
                }
            }
        }
        out
    }

    /// The latencies of the window, sorted ascending.
    fn sorted_latencies(&self) -> (r: Vec<u64>)
        ensures
            r@ == latencies(self.attempts()).sort_by(u64_leq()),
    {
        let mut out: Vec<u64> = Vec::new();
        let n = self.recent_attempts.len();
        let mut i: usize = 0;
        while i < n
            invariant
                n == self.recent_attempts@.len(),
                i <= n,
                sorted_by(out@, u64_leq()),
                out@.to_multiset() == latencies(self.recent_attempts@).subrange(0, i as int).to_multiset(),
            decreases n - i,
        {
            let x = self.recent_attempts[i].latency_ms;
            let mut pos: usize = 0;
            while pos < out.len() && out[pos] <= x
                invariant
                    pos <= out@.len(),
                    forall|m: int| 0 <= m < pos ==> out@[m] <= x,
                decreases out@.len() - pos,
            {
                pos = pos + 1;
            }
            let ghost before = out@;
            out.insert(pos, x);
            proof {
                assert(out@ =~= before.subrange(0, pos as int) + seq![x] + before.subrange(pos as int, before.len() as int));
                assert(before =~= before.subrange(0, pos as int) + before.subrange(pos as int, before.len() as int));
                vstd::seq_lib::lemma_multiset_commutative(before.subrange(0, pos as int) + seq![x], before.subrange(pos as int, before.len() as int));
                vstd::seq_lib::lemma_multiset_commutative(before.subrange(0, pos as int), seq![x]);
                vstd::seq_lib::lemma_multiset_commutative(before.subrange(0, pos as int), before.subrange(pos as int, before.len() as int));
                let lat = latencies(self.recent_attempts@);
                assert(lat.subrange(0, i + 1) =~= lat.subrange(0, i as int).push(x));
                assert(out@.to_multiset() =~= before.to_multiset().insert(x));
                assert forall|a: int, b: int| 0 <= a < b < out@.len() implies #[trigger] u64_leq()(out@[a], out@[b]) by {
                    if b < pos {
                        assert(u64_leq()(before[a], before[b]));
                    } else if b == pos {
                        assert(out@[a] == before[a]);
                    } else if a == pos {
                        assert(out@[b] == before[b - 1]);
                        if pos < before.len() {
                            assert(u64_leq()(before[pos as int], before[b - 1]) || pos == b - 1);
                        }
                    } else if a < pos {
                        assert(u64_leq()(before[a], before[b - 1]));
                    } else {
                        assert(u64_leq()(before[a - 1], before[b - 1]));
                    }
                }
            }
            i = i + 1;
        }
        proof {
            let lat = latencies(self.recent_attempts@);
            assert(lat.subrange(0, n as int) =~= lat);
            lemma_u64_leq_total();
            lat.lemma_sort_by_ensures(u64_leq());
            lemma_sorted_unique(out@, lat.sort_by(u64_leq()), u64_leq());
        }
        out
    }

    fn percentile_ms(&self, pct: usize) -> (r: u64)
        requires
            pct <= 100,
        ensures
            r == percentile(self.attempts(), pct as nat),
    {
        let n = self.recent_attempts.len();
        if n == 0 {
            return 0;
        }
        let sorted = self.sorted_latencies();
        proof {
            lemma_u64_leq_total();
            latencies(self.recent_attempts@).lemma_sort_by_ensures(u64_leq());
            assert(sorted@.to_multiset().len() == n);
        }
        assert((n as u128) * (pct as u128) <= (n as u128) * 100) by (nonlinear_arith)
            requires
                pct <= 100,
        ;
        let wide: u128 = (n as u128) * (pct as u128) / 100;
        assert(wide <= n) by (nonlinear_arith)
            requires
                wide == (n as u128) * (pct as u128) / 100,
                pct <= 100,
        ;
        let idx: usize = wide as usize;
        let idx = if idx < n {
            idx
        } else {
            n - 1
        };
        sorted[idx]
    }

    /// The 95th-percentile latency of the window (0 when empty).
    pub fn p95_latency_ms(&self) -> (r: u64)
        ensures
            r == percentile(self.attempts(), 95),
    {
        self.percentile_ms(95)
    }

    /// The 99th-percentile latency of the window (0 when empty).
    pub fn p99_latency_ms(&self) -> (r: u64)
        ensures
            r == percentile(self.attempts(), 99),
    {
        self.percentile_ms(99)
    }

    /// How long the window has been free of failures at `now`, in milliseconds.
    pub fn healthy_duration_at(&self, now: u64) -> (r: u64)
        ensures
            r == healthy_ms(self.attempts(), now),
    {
        let n = self.recent_attempts.len();
        let mut i: usize = n;
        assert(self.recent_attempts@.subrange(0, n as int) =~= self.recent_attempts@);
        while i > 0
            invariant
                n == self.recent_attempts@.len(),
                i <= n,
                last_failure(self.recent_attempts@) == last_failure(self.recent_attempts@.subrange(0, i as int)),
            decreases i,
        {
            let ghost pre = self.recent_attempts@.subrange(0, i as int);
            assert(pre.drop_last() =~= self.recent_attempts@.subrange(0, i - 1));
            if !self.recent_attempts[i - 1].success {
                let ts = self.recent_attempts[i - 1].timestamp_ms;
                return if now >= ts {
                    now - ts
                } else {
                    0
                };
            }
            i = i - 1;
        }
        assert(self.recent_attempts@.subrange(0, 0) =~= Seq::<AttemptRecord>::empty());
        if n == 0 {
            0
        } else {
            let ts = self.recent_attempts[0].timestamp_ms;
            if now >= ts {
                now - ts
            } else {
                0
            }
        }
    }

    /// How long the window has been free of failures, in milliseconds.
    pub fn healthy_duration(&self) -> (r: u64)
        ensures
            exists|now: u64| r == healthy_ms(self.attempts(), now),
    {
        let now = now_ms();
        self.healthy_duration_at(now)
    }

    /// Set the current concurrency level, clamped to `[1, max]`.
    pub fn set_concurrency(&mut self, level: usize)
        ensures
            final(self).concurrency() == if old(self).max() < 1 {
                1
            } else if level < 1 {
                1
            } else if level > old(self).max() {
                old(self).max()
            } else {
                level
            },
            final(self).attempts() == old(self).attempts(),
            final(self).window() == old(self).window(),
            final(self).max() == old(self).max(),
    {
        let capped = if level < self.max_concurrency {
            level
        } else {
            self.max_concurrency
        };
        self.current_concurrency = if capped < 1 {
            1
        } else {
            capped
        };
    }
}

/// `x * k`, or `u64::MAX` where the product does not fit.
fn saturating_times(x: u64, k: u64) -> (r: u64)
    ensures
        r == if x * k > u64::MAX {
            u64::MAX as int
        } else {
            x * k
        },
{
    if k == 0 {
        0
    } else if x > u64::MAX / k {
        assert(x * k > u64::MAX) by (nonlinear_arith)
            requires
                x > u64::MAX / k,
                k > 0,
        ;
        u64::MAX
    } else {
        assert(x * k <= u64::MAX) by (nonlinear_arith)
            requires
                x <= u64::MAX / k,
                k > 0,
        ;
        x * k
    }
}

/// Thresholds for the shaping decision. Rates are in percent.
#[derive(Debug, Clone, Copy)]
pub struct AdaptiveThresholds {
    /// Error rate at which to start monitoring.
    pub error_rate_warning_pct: u64,
    /// Error rate at which to consider reducing concurrency.
    pub error_rate_critical_pct: u64,
    /// Error rate at which to open the circuit.
    pub error_rate_emergency_pct: u64,
    /// p99 latency that asks for a light rate limit.
    pub latency_p99_warning_ms: u64,
    /// p99 latency that asks for a heavy rate limit.
    pub latency_p99_critical_ms: u64,
    /// Length of failure-free operation that counts as healthy.
    pub healthy_window_secs: u64,
    /// Share of distinct records among failures above which the backend,
    /// rather than one bad record, is taken to be at fault.
    pub failure_diversity_pct: u64,
}

impl AdaptiveThresholds {
    pub open spec fn with_baseline_spec(baseline_latency_ms: u64) -> Self {
        AdaptiveThresholds {
            error_rate_warning_pct: 10,
            error_rate_critical_pct: 25,
            error_rate_emergency_pct: 50,
            latency_p99_warning_ms: if baseline_latency_ms * 2 > u64::MAX {
                u64::MAX
            } else {
                (baseline_latency_ms * 2) as u64
            },
            latency_p99_critical_ms: if baseline_latency_ms * 5 > u64::MAX {
                u64::MAX
            } else {
                (baseline_latency_ms * 5) as u64
            },
            healthy_window_secs: 30,
            failure_diversity_pct: 80,
        }
    }

    /// Thresholds for a backend whose healthy latency is `baseline_latency_ms`:
    /// error rates 10 / 25 / 50 %, p99 warnings at 2× and 5× the baseline
    /// (saturating), 30 s healthy window, 80 % failure diversity.
    pub fn with_baseline(baseline_latency_ms: u64) -> (r: Self)
        ensures
            r == Self::with_baseline_spec(baseline_latency_ms),
    {
        AdaptiveThresholds {
            error_rate_warning_pct: 10,
            error_rate_critical_pct: 25,
            error_rate_emergency_pct: 50,
            latency_p99_warning_ms: saturating_times(baseline_latency_ms, 2),
            latency_p99_critical_ms: saturating_times(baseline_latency_ms, 5),
            healthy_window_secs: 30,
            failure_diversity_pct: 80,
        }
    }

    /// Thresholds for a 500 ms baseline.
    pub fn default() -> (r: Self)
        ensures
            r.error_rate_emergency_pct == 50,
            r.error_rate_critical_pct == 25,
            r.error_rate_warning_pct == 10,
            r.latency_p99_warning_ms == 1000,
            r.latency_p99_critical_ms == 2500,
            r.healthy_window_secs == 30,
            r.failure_diversity_pct == 80,
    {
        Self::with_baseline(500)
    }
}

/// Actions that the shaping decision can take.
#[derive(Debug, Clone, Copy, PartialEq, Eq, Structural)]
pub enum ShapingAction {
    /// No change needed.
    Maintain,
    /// Decrease concurrency by 1 (min 1).
    ReduceConcurrency,
    /// Increase concurrency by 1 (max configured).
    IncreaseConcurrency,
    /// Insert a delay of this many milliseconds between batches.
    RateLimit(u64),
    /// Pause all processing.
    CircuitBreak,
    /// Resume from a circuit break.
    CircuitRecover,
}

/// Concurrency, rate and circuit state, with hysteresis.
#[derive(Debug, Clone, Copy)]
pub struct ShapingState {
    /// Current concurrency limit.
    pub current_concurrency: usize,
    /// Maximum allowed concurrency.
    pub max_concurrency: usize,
    /// Current delay between batches, in milliseconds.
    pub rate_limit_delay_ms: u64,
    /// Whether the circuit breaker is open.
    pub circuit_broken: bool,
    /// When the last adjustment was made (none yet: adjusting is allowed at once).
    pub last_adjustment_ms: Option<u64>,
    /// Minimum time between adjustments, in milliseconds.
    pub adjustment_cooldown_ms: u64,
}

/// Whether `action` opens or closes the circuit (these bypass the cooldown).
pub open spec fn is_circuit_action(action: ShapingAction) -> bool {
    action == ShapingAction::CircuitBreak || action == ShapingAction::CircuitRecover
}

/// Whether the cooldown since the last adjustment is still running at `now`
/// (a clock that went back counts as no time elapsed).
pub open spec fn cooling_down(s: ShapingState, now: u64) -> bool {
    match s.last_adjustment_ms {
        Some(t) => if now >= t {
            now - t < s.adjustment_cooldown_ms
        } else {
            0 < s.adjustment_cooldown_ms
        },
        None => false,
    }
}

/// The state after applying `action` at `now`, and whether it was applied.
pub open spec fn applied(s: ShapingState, action: ShapingAction, now: u64) -> (ShapingState, bool) {
    if !is_circuit_action(action) && cooling_down(s, now) {
        (s, false)
    } else {
        match action {
            ShapingAction::Maintain => (s, false),
            ShapingAction::ReduceConcurrency => if s.current_concurrency > 1 {
                (
                    ShapingState {
                        current_concurrency: (s.current_concurrency - 1) as usize,
                        last_adjustment_ms: Some(now),
                        ..s
                    },
                    true,
                )
            } else {
                (s, false)
            },
            ShapingAction::IncreaseConcurrency => if s.current_concurrency < s.max_concurrency {
                (
                    ShapingState {
                        current_concurrency: (s.current_concurrency + 1) as usize,
                        last_adjustment_ms: Some(now),
                        ..s
                    },
                    true,
                )
            } else {
                (s, false)
            },
            ShapingAction::RateLimit(ms) => (ShapingState { rate_limit_delay_ms: ms, ..s }, true),
            ShapingAction::CircuitBreak => if !s.circuit_broken {
                (ShapingState { circuit_broken: true, last_adjustment_ms: Some(now), ..s }, true)
            } else {
                (s, false)
            },
            ShapingAction::CircuitRecover => if s.circuit_broken {
                (
                    ShapingState {
                        circuit_broken: false,
                        current_concurrency: if s.max_concurrency / 2 >= 1 {
                            (s.max_concurrency / 2) as usize
                        } else {
                            1
                        },
                        rate_limit_delay_ms: 0,
                        last_adjustment_ms: Some(now),
                        ..s
                    },
                    true,
                )
            } else {
                (s, false)
            },
        }
    }
}

impl ShapingState {
    pub open spec fn new_spec(max_concurrency: usize) -> Self {
        ShapingState {
            current_concurrency: max_concurrency,
            max_concurrency,
            rate_limit_delay_ms: 0,
            circuit_broken: false,
            last_adjustment_ms: None,
            adjustment_cooldown_ms: 10_000,
        }
    }

    /// A fresh state at full concurrency, no delay, circuit closed, 10 s cooldown,
    /// and no adjustment yet.
    pub fn new(max_concurrency: usize) -> (r: Self)
        ensures
            r == Self::new_spec(max_concurrency),
    {
        ShapingState {
            current_concurrency: max_concurrency,
            max_concurrency,
            rate_limit_delay_ms: 0,
            circuit_broken: false,
            last_adjustment_ms: None,
            adjustment_cooldown_ms: 10_000,
        }
    }

    fn in_cooldown(&self, now: u64) -> (r: bool)
        ensures
            r == cooling_down(*self, now),
    {
        match self.last_adjustment_ms {
            Some(t) => if now >= t {
                now - t < self.adjustment_cooldown_ms
            } else {
                0 < self.adjustment_cooldown_ms
            },
            None => false,
        }
    }

    /// Apply `action` at time `now`, returning whether it was applied.
    /// Circuit actions bypass the cooldown; other actions are ignored while it runs.
    pub fn apply_at(&mut self, action: ShapingAction, now: u64) -> (r: bool)
        ensures
            (*final(self), r) == applied(*old(self), action, now),
    {
        let circuit = match action {
            ShapingAction::CircuitBreak => true,
            ShapingAction::CircuitRecover => true,
            _ => false,
        };
        if !circuit && self.in_cooldown(now) {
            return false;
        }
        match action {
            ShapingAction::Maintain => false,
            ShapingAction::ReduceConcurrency => {
                if self.current_concurrency > 1 {
                    self.current_concurrency = self.current_concurrency - 1;
                    self.last_adjustment_ms = Some(now);
                    true
                } else {
                    false
                }
            },
            ShapingAction::IncreaseConcurrency => {
                if self.current_concurrency < self.max_concurrency {
                    self.current_concurrency = self.current_concurrency + 1;
                    self.last_adjustment_ms = Some(now);
                    true
                } else {
                    false
                }
            },
            ShapingAction::RateLimit(delay_ms) => {
                self.rate_limit_delay_ms = delay_ms;
                true
            },
            ShapingAction::CircuitBreak => {
                if !self.circuit_broken {
                    self.circuit_broken = true;
                    self.last_adjustment_ms = Some(now);
                    true
                } else {
                    false
                }
            },
            ShapingAction::CircuitRecover => {
                if self.circuit_broken {
                    self.circuit_broken = false;
                    let half = self.max_concurrency / 2;
                    self.current_concurrency = if half >= 1 {
                        half
                    } else {
                        1
                    };
                    self.rate_limit_delay_ms = 0;
                    self.last_adjustment_ms = Some(now);
                    true
                } else {
                    false
                }
            },
        }
    }

    /// Apply `action` now, returning whether it was applied.
    pub fn apply(&mut self, action: ShapingAction) -> (r: bool)
        ensures
            exists|now: u64| (*final(self), r) == applied(*old(self), action, now),
    {
        let now = now_ms();
        self.apply_at(action, now)
    }

    /// Whether processing should pause (the circuit is open).
    pub fn should_pause(&self) -> (r: bool)
        ensures
            r == self.circuit_broken,
    {
        self.circuit_broken
    }

    /// The current delay between batches, in milliseconds.
    pub fn get_rate_limit(&self) -> (r: u64)
        ensures
            r == self.rate_limit_delay_ms,
    {
        self.rate_limit_delay_ms
    }
}

/// Whether `failures` out of `total` reaches `pct` percent (an empty window has
/// rate zero).
pub open spec fn rate_reaches(failures: nat, total: nat, pct: u64) -> bool {
    if total == 0 {
        pct == 0
    } else {
        failures * 100 >= pct * total
    }
}

/// The shaping decision for a window of attempts, the thresholds and the state
/// at `now`.
pub open spec fn health_action(
    m: Seq<AttemptRecord>,
    t: AdaptiveThresholds,
    s: ShapingState,
    now: u64,
) -> ShapingAction {
    let total = m.len();
    let failures = failure_count(m);
    let healthy = healthy_ms(m, now) >= t.healthy_window_secs * 1000;
    let p99 = percentile(m, 99);
    if rate_reaches(failures, total, t.error_rate_emergency_pct) {
        ShapingAction::CircuitBreak
    } else if s.circuit_broken {
        if healthy {
            ShapingAction::CircuitRecover
        } else {
            ShapingAction::Maintain
        }
    } else if healthy {
        if s.current_concurrency < s.max_concurrency {
            ShapingAction::IncreaseConcurrency
        } else {
            ShapingAction::Maintain
        }
    } else if rate_reaches(failures, total, t.error_rate_critical_pct) {
        if failures > 0 && failing_names(m).len() * 100 >= t.failure_diversity_pct * failures {
            ShapingAction::ReduceConcurrency
        } else {
            ShapingAction::Maintain
        }
    } else if p99 >= t.latency_p99_critical_ms {
        ShapingAction::RateLimit(100)
    } else if p99 >= t.latency_p99_warning_ms {
        ShapingAction::RateLimit(50)
    } else {
        ShapingAction::Maintain
    }
}

fn reaches(failures: usize, total: usize, pct: u64) -> (r: bool)
    requires
        failures <= total,
    ensures
        r == rate_reaches(failures as nat, total as nat, pct),
{
    if total == 0 {
        pct == 0
    } else {
        assert((pct as u128) * (total as u128) <= u64::MAX as u128 * u64::MAX as u128) by (nonlinear_arith);
        (failures as u128) * 100 >= (pct as u128) * (total as u128)
    }
}

/// The shaping decision at time `now`.
pub fn evaluate_health_at(
    metrics: &HealthMetrics,
    thresholds: &AdaptiveThresholds,
    state: &ShapingState,
    now: u64,
) -> (r: ShapingAction)
    ensures
        r == health_action(metrics.attempts(), *thresholds, *state, now),
{
    let total = metrics.attempt_count();
    let failures = metrics.total_failures();
    proof {
        lemma_failure_count_bound(metrics.attempts());
    }
    let p99 = metrics.p99_latency_ms();
    let healthy_for = metrics.healthy_duration_at(now);
    let healthy = healthy_for / 1000 >= thresholds.healthy_window_secs;
    assert(healthy == (healthy_for >= thresholds.healthy_window_secs * 1000)) by (nonlinear_arith)
        requires
            healthy == (healthy_for / 1000 >= thresholds.healthy_window_secs),
    ;
    if reaches(failures, total, thresholds.error_rate_emergency_pct) {
        return ShapingAction::CircuitBreak;
    }
    if state.circuit_broken {
        if healthy {
            return ShapingAction::CircuitRecover;
        }
        return ShapingAction::Maintain;
    }
    if healthy {
        if state.current_concurrency < state.max_concurrency {
            return ShapingAction::IncreaseConcurrency;
        }
        return ShapingAction::Maintain;
    }
    if reaches(failures, total, thresholds.error_rate_critical_pct) {
        if failures > 0 {
            let unique = metrics.unique_failing_substances();
            proof {
                let names = unique@.map_values(|s: String| s@);
                names.unique_seq_to_set();
            }
            assert((thresholds.failure_diversity_pct as u128) * (failures as u128) <= u64::MAX as u128
                * u64::MAX as u128) by (nonlinear_arith);
            let diverse = (unique.len() as u128) * 100 >= (thresholds.failure_diversity_pct as u128)
                * (failures as u128);
            if diverse {
                return ShapingAction::ReduceConcurrency;
            }
        }
        return ShapingAction::Maintain;
    }
    if p99 >= thresholds.latency_p99_critical_ms {
        return ShapingAction::RateLimit(100);
    }
    if p99 >= thresholds.latency_p99_warning_ms {
        return ShapingAction::RateLimit(50);
    }
    ShapingAction::Maintain
}

/// The shaping decision now.
pub fn evaluate_health(
    metrics: &HealthMetrics,
    thresholds: &AdaptiveThresholds,
    state: &ShapingState,
) -> (r: ShapingAction)
    ensures
        exists|now: u64| r == health_action(metrics.attempts(), *thresholds, *state, now),
{
    let now = now_ms();
    evaluate_health_at(metrics, thresholds, state, now)
}

/// When the failures in the window reach the emergency error rate, the decision
/// is to open the circuit, whatever the rest of the state.
pub proof fn lemma_emergency_rate_breaks_circuit(
    m: Seq<AttemptRecord>,
    t: AdaptiveThresholds,
    s: ShapingState,
    now: u64,
)
    requires
        rate_reaches(failure_count(m), m.len(), t.error_rate_emergency_pct),
    ensures
        health_action(m, t, s, now) == ShapingAction::CircuitBreak,
{
}

/// Shaping controller: metrics, thresholds and state together.
#[derive(Debug, Clone)]
pub struct AdaptiveShaping {
    pub metrics: HealthMetrics,
    pub thresholds: AdaptiveThresholds,
    pub state: ShapingState,
}

impl AdaptiveShaping {
    /// A controller with a 60 s window, thresholds for `baseline_latency_ms`
    /// and a fresh state at `max_concurrency`.
    pub fn new(max_concurrency: usize, baseline_latency_ms: u64) -> (r: Self)
        ensures
            r.metrics.window() == 60_000,
            r.metrics.attempts().len() == 0,
            r.metrics.max() == max_concurrency,
            r.metrics.concurrency() == max_concurrency,
            r.thresholds == AdaptiveThresholds::with_baseline_spec(baseline_latency_ms),
            r.state == ShapingState::new_spec(max_concurrency),
    {
        AdaptiveShaping {
            metrics: HealthMetrics::new(60_000, max_concurrency),
            thresholds: AdaptiveThresholds::with_baseline(baseline_latency_ms),
            state: ShapingState::new(max_concurrency),
        }
    }

    /// Record an attempt at `now`, decide, and apply the decision; where it
    /// was applied the metrics take the state's concurrency. Returns the decision.
    pub fn record_and_evaluate_at(
        &mut self,
        substance: String,
        success: bool,
        latency_ms: u64,
        now: u64,
    ) -> (r: ShapingAction)
        ensures
            r == health_action(final(self).metrics.attempts(), old(self).thresholds, old(self).state, now),
            final(self).metrics.attempts() == windowed(
                old(self).metrics.attempts(),
                old(self).metrics.window(),
                now,
                AttemptRecord { timestamp_ms: now, substance, success, latency_ms },
            ),
            final(self).metrics.window() == old(self).metrics.window(),
            final(self).thresholds == old(self).thresholds,
            final(self).state == applied(old(self).state, r, now).0,
    {
        self.metrics.record_at(substance, success, latency_ms, now);
        let action = evaluate_health_at(&self.metrics, &self.thresholds, &self.state, now);
        if self.state.apply_at(action, now) {
            self.metrics.set_concurrency(self.state.current_concurrency);
        }
        action
    }

    /// Record an attempt now, decide, and apply the decision.
    pub fn record_and_evaluate(&mut self, substance: String, success: bool, latency_ms: u64) -> (r:
        ShapingAction)
        ensures
            exists|now: u64|
                r == health_action(final(self).metrics.attempts(), old(self).thresholds, old(self).state, now)
                    && final(self).state == applied(old(self).state, r, now).0,
            final(self).thresholds == old(self).thresholds,
    {
        let now = now_ms();
        self.record_and_evaluate_at(substance, success, latency_ms, now)
    }

    /// Whether processing should pause.
    pub fn should_pause(&self) -> (r: bool)
        ensures
            r == self.state.circuit_broken,
    {
        self.state.should_pause()
    }

    /// The current delay between batches, in milliseconds.
    pub fn get_rate_limit(&self) -> (r: u64)
        ensures
            r == self.state.rate_limit_delay_ms,
    {
        self.state.get_rate_limit()
    }

    /// The current concurrency limit.
    pub fn current_concurrency(&self) -> (r: usize)
        ensures
            r == self.state.current_concurrency,
    {
        self.state.current_concurrency
    }

    /// Whether the circuit is open.
    pub fn is_circuit_broken(&self) -> (r: bool)
        ensures
            r == self.state.circuit_broken,
    {
        self.state.circuit_broken
    }

    /// The p99 latency of the window.
    pub fn p99_latency_ms(&self) -> (r: u64)
        ensures
            r == percentile(self.metrics.attempts(), 99),
    {
        self.metrics.p99_latency_ms()
    }

    /// Whole seconds of failure-free operation at `now`.
    pub fn healthy_duration_secs_at(&self, now: u64) -> (r: u64)
        ensures
            r == healthy_ms(self.metrics.attempts(), now) / 1000,
    {
        self.metrics.healthy_duration_at(now) / 1000
    }

    /// Whole seconds of failure-free operation.
    pub fn healthy_duration_secs(&self) -> (r: u64)
        ensures
            exists|now: u64| r == healthy_ms(self.metrics.attempts(), now) / 1000,
    {
        let now = now_ms();
        self.healthy_duration_secs_at(now)
    }
}

} // verus!
