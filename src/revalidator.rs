//! The revalidator's decisions: what the background loop does next, how one
//! job's result updates the queue, the shaping state and the snapshot, and
//! what a reconciliation pass schedules. The loop itself (sleeping, fetching,
//! writing files) is the caller's.
use vstd::prelude::*;

use crate::revalidation::{
    count_where, is_due, lemma_position_unique, lemma_queue_wf, names_due, next_counters, position_of,
    RevalidationAction, RevalidationItem, RevalidationOutcome, RevalidationQueue,
};
use crate::shaping::AdaptiveShaping;
use crate::snapshot::{SubstanceSnapshot, Substance};
use crate::text::lower_of;

verus! {

/// Configuration of the revalidator.
#[derive(Debug, Clone)]
pub struct RevalidatorConfig {
    /// Base TTL for cache entries, in seconds.
    pub base_ttl_secs: u64,
    /// Maximum concurrent revalidation jobs.
    pub max_concurrency: usize,
    /// Path of the persisted snapshot.
    pub cache_path: String,
    /// Baseline latency for adaptive shaping, in milliseconds.
    pub baseline_latency_ms: u64,
    /// How long to wait when nothing is due, in milliseconds.
    pub poll_interval_ms: u64,
    /// How often to reconcile against the backend's name list, in seconds.
    pub reconciliation_interval_secs: u64,
    /// CDN base URL for image links.
    pub cdn_url: String,
    /// Thumbnail width for image links.
    pub thumb_size: u32,
    /// Persist after every this many snapshot updates (0: never on updates).
    pub update_persist_every: u64,
}

impl RevalidatorConfig {
    /// 24 h TTL, 10 jobs, 500 ms baseline, 1 s poll, 6 h reconciliation,
    /// persist every 100 updates.
    pub fn default() -> (r: Self)
        ensures
            r.base_ttl_secs == 86_400,
            r.max_concurrency == 10,
            r.baseline_latency_ms == 500,
            r.poll_interval_ms == 1000,
            r.reconciliation_interval_secs == 21_600,
            r.thumb_size == 200,
            r.update_persist_every == 100,
    {
        RevalidatorConfig {
            base_ttl_secs: 86_400,
            max_concurrency: 10,
            cache_path: String::from_str("./bifrost_cache.bin"),
            baseline_latency_ms: 500,
            poll_interval_ms: 1000,
            reconciliation_interval_secs: 21_600,
            cdn_url: String::from_str("https://psychonautwiki.org/"),
            thumb_size: 200,
            update_persist_every: 100,
        }
    }
}

/// Whether a reconciliation pass is due at `now`.
pub open spec fn reconciliation_due(r: Revalidator, now: u64) -> bool {
    now >= r.last_reconciliation() && now - r.last_reconciliation() >= r.cfg().reconciliation_interval_secs * 1000
}

/// How many names the next batch runs: the least of the concurrency budget,
/// the number of due items and the free permits (none when not accepting).
pub open spec fn batch_size(q: RevalidationQueue, budget: usize, now: u64) -> nat {
    if !q.is_accepting() {
        0
    } else {
        let due = count_where(q.entries(), |it: RevalidationItem| is_due(it, now));
        let b = if due < budget {
            due
        } else {
            budget as nat
        };
        let free = (q.capacity() - q.running()) as nat;
        if b < free {
            b
        } else {
            free
        }
    }
}

/// Whether the item named `n` has its last attempt at `now`.
pub open spec fn attempt_marked(entries: Seq<RevalidationItem>, n: Seq<char>, now: u64) -> bool {
    match position_of(entries, n) {
        Some(p) => entries[p].last_attempt_ms == Some(now),
        None => false,
    }
}

/// Milliseconds to wait while the circuit is open.
pub const CIRCUIT_PAUSE_MS: u64 = 5000;

/// What the loop does next.
#[derive(Debug)]
pub enum LoopStep {
    /// Shutdown was signalled: leave the loop.
    Stop,
    /// The circuit is open: wait this many milliseconds, then ask again.
    Pause(u64),
    /// Run a reconciliation pass, then ask again.
    Reconcile,
    /// Nothing is due: wait this many milliseconds, then ask again.
    Idle(u64),
    /// Run one job for each of these names (each holds a permit and has its
    /// attempt recorded).
    Run(Vec<String>),
}

/// The revalidator's state: the live snapshot, the queue, the shaping
/// controller and the bookkeeping of the loop.
#[derive(Debug)]
pub struct Revalidator {
    pub snapshot: SubstanceSnapshot,
    queue: RevalidationQueue,
    pub shaping: AdaptiveShaping,
    pub config: RevalidatorConfig,
    last_reconciliation_ms: u64,
    updates: u64,
}

impl Revalidator {
    pub closed spec fn jobs(&self) -> RevalidationQueue {
        self.queue
    }

    pub closed spec fn last_reconciliation(&self) -> u64 {
        self.last_reconciliation_ms
    }

    pub closed spec fn update_count(&self) -> u64 {
        self.updates
    }

    pub closed spec fn wf(&self) -> bool {
        self.snapshot.wf() && self.queue.wf()
    }

    pub closed spec fn snap(&self) -> SubstanceSnapshot {
        self.snapshot
    }

    pub closed spec fn shaper(&self) -> AdaptiveShaping {
        self.shaping
    }

    pub closed spec fn cfg(&self) -> RevalidatorConfig {
        self.config
    }

    /// A revalidator over `snapshot` with an empty queue; reconciliation is
    /// first due one interval after `now`.
    pub fn new_at(snapshot: SubstanceSnapshot, config: RevalidatorConfig, now: u64) -> (r: Self)
        requires
            snapshot.wf(),
        ensures
            r.wf(),
            r.snap() == snapshot,
            r.jobs().entries().len() == 0,
            r.jobs().ttl_secs() == config.base_ttl_secs,
            r.jobs().capacity() == config.max_concurrency,
            r.last_reconciliation() == now,
            r.update_count() == 0,
    {
        let queue = RevalidationQueue::new(config.base_ttl_secs, config.max_concurrency);
        let shaping = AdaptiveShaping::new(config.max_concurrency, config.baseline_latency_ms);
        Revalidator { snapshot, queue, shaping, config, last_reconciliation_ms: now, updates: 0 }
    }

    /// The queue, for inspection.
    pub fn queue(&self) -> (r: &RevalidationQueue)
        ensures
            *r == self.jobs(),
    {
        &self.queue
    }

    /// Queue every named record of the snapshot.
    pub fn initialize_queue(&mut self)
        requires
            old(self).wf(),
        ensures
            final(self).wf(),
            final(self).snap() == old(self).snap(),
            forall|i: int| 0 <= i < final(self).snap().records().len() && final(self).snap().records()[i].name.is_some()
                ==> position_of(final(self).jobs().entries(), (#[trigger] final(self).snap().records()[i]).name.unwrap()@).is_some(),
    {
        let mut names: Vec<String> = Vec::new();
        let mut i: usize = 0;
        let ghost recs = self.snapshot.records();
        let subs = self.snapshot.get_records();
        while i < subs.len()
            invariant
                i <= subs@.len(),
                recs == subs@,
                forall|k: int| 0 <= k < i && recs[k].name.is_some() ==> exists|m: int|
                    0 <= m < names@.len() && #[trigger] names@[m]@ == (#[trigger] recs[k]).name.unwrap()@,
            decreases subs@.len() - i,
        {
            match &subs[i] {
                Substance { name: Some(n), .. } => {
                    let ghost before = names@;
                    names.push(n.clone());
                    proof {
                        assert forall|k: int| 0 <= k < i + 1 && recs[k].name.is_some() implies exists|m: int|
                            0 <= m < names@.len() && #[trigger] names@[m]@ == (#[trigger] recs[k]).name.unwrap()@ by {
                            if k < i {
                                let m = choose|m: int| 0 <= m < before.len() && #[trigger] before[m]@ == recs[k].name.unwrap()@;
                                assert(names@[m] == before[m]);
                            } else {
                                assert(names@[before.len() as int]@ == recs[k].name.unwrap()@);
                            }
                        }
                    }
                },
                _ => {},
            }
            i = i + 1;
        }
        let ghost all = names@;
        self.queue.add_many(names);
        proof {
            assert forall|k: int| 0 <= k < recs.len() && recs[k].name.is_some() implies position_of(self.queue.entries(), (#[trigger] recs[k]).name.unwrap()@).is_some() by {
                let m = choose|m: int| 0 <= m < all.len() && #[trigger] all[m]@ == recs[k].name.unwrap()@;
                assert(position_of(self.queue.entries(), all[m]@).is_some());
            }
        }
    }

    /// Decide the next step at `now`: stop on shutdown; pause while the circuit
    /// is open; reconcile once the interval has passed (and restart its clock);
    /// else take a batch of due names (at most the shaping concurrency), keep
    /// those that get a permit, record their attempts, and run them; idle when
    /// none is due.
    pub fn next_step_at(&mut self, shutdown: bool, now: u64) -> (r: LoopStep)
        requires
            old(self).wf(),
        ensures
            final(self).wf(),
            final(self).snap() == old(self).snap(),
            shutdown ==> r is Stop && final(self).jobs() == old(self).jobs(),
            !shutdown && old(self).shaper().state.circuit_broken ==> r == LoopStep::Pause(CIRCUIT_PAUSE_MS),
            !shutdown && !old(self).shaper().state.circuit_broken && reconciliation_due(*old(self), now)
                ==> r is Reconcile && final(self).last_reconciliation() == now,
            !shutdown && !old(self).shaper().state.circuit_broken && !reconciliation_due(*old(self), now) ==> {
                let k = batch_size(old(self).jobs(), old(self).shaper().state.current_concurrency, now);
                &&& final(self).jobs().running() == old(self).jobs().running() + k
                &&& final(self).jobs().entries().len() == old(self).jobs().entries().len()
                &&& (k == 0 ==> r == LoopStep::Idle(old(self).cfg().poll_interval_ms))
                &&& (k > 0 ==> r is Run && r->Run_0@.len() == k
                    && r->Run_0@.map_values(|s: String| s@).no_duplicates()
                    && forall|m: int| 0 <= m < r->Run_0@.len() ==> names_due(old(self).jobs().entries(), now, #[trigger] r->Run_0@[m]@)
                        && attempt_marked(final(self).jobs().entries(), r->Run_0@[m]@, now))
            },
    {
        if shutdown {
            return LoopStep::Stop;
        }
        if self.shaping.should_pause() {
            return LoopStep::Pause(CIRCUIT_PAUSE_MS);
        }
        let interval_ms: u128 = (self.config.reconciliation_interval_secs as u128) * 1000;
        if now >= self.last_reconciliation_ms && ((now - self.last_reconciliation_ms) as u128) >= interval_ms {
            self.last_reconciliation_ms = now;
            return LoopStep::Reconcile;
        }
        let budget = self.shaping.current_concurrency();
        let batch = self.queue.select_next_batch_at(budget, now);
        let free = self.queue.available_permits();
        let take = if batch.len() < free {
            batch.len()
        } else {
            free
        };
        let ghost q0 = self.queue;
        proof {
            lemma_queue_wf(&self.queue);
        }
        if take == 0 {
            return LoopStep::Idle(self.config.poll_interval_ms);
        }
        let mut started: Vec<String> = Vec::new();
        let mut i: usize = 0;
        while i < take
            invariant
                self.queue.wf(),
                self.snapshot.wf(),
                self.snapshot == old(self).snap(),
                self.config == old(self).cfg(),
                self.shaping == old(self).shaper(),
                q0 == old(self).jobs(),
                take <= batch@.len(),
                take <= q0.capacity() - q0.running(),
                i <= take,
                batch@.len() > 0,
                q0.is_accepting(),
                self.queue.is_accepting(),
                self.queue.capacity() == q0.capacity(),
                self.queue.running() == q0.running() + i,
                self.queue.entries().len() == q0.entries().len(),
                forall|x: int| 0 <= x < q0.entries().len() ==> (#[trigger] self.queue.entries()[x]).substance_name == q0.entries()[x].substance_name,
                batch@.map_values(|s: String| s@).no_duplicates(),
                forall|m: int| 0 <= m < batch@.len() ==> names_due(q0.entries(), now, #[trigger] batch@[m]@),
                started@.len() == i,
                forall|m: int| 0 <= m < i ==> (#[trigger] started@[m])@ == batch@[m]@,
                forall|m: int| 0 <= m < i ==> attempt_marked(self.queue.entries(), #[trigger] batch@[m]@, now),
            decreases take - i,
        {
            let ok = self.queue.acquire_permit();
            assert(ok);
            let ghost before = self.queue.entries();
            proof {
                lemma_queue_wf(&self.queue);
                let n = batch@[i as int]@;
                assert(names_due(q0.entries(), now, n));
                let p = choose|p: int| 0 <= p < q0.entries().len() && is_due(q0.entries()[p], now) && q0.entries()[p].substance_name@ == n;
                assert(before[p].substance_name == q0.entries()[p].substance_name);
                lemma_position_unique(before, n, p);
            }
            self.queue.mark_attempt_start_at(batch[i].as_str(), now);
            proof {
                lemma_queue_wf(&self.queue);
                let after = self.queue.entries();
                let n = batch@[i as int]@;
                let p = position_of(before, n).unwrap();
                assert forall|x: int| 0 <= x < q0.entries().len() implies (#[trigger] after[x]).substance_name == q0.entries()[x].substance_name by {
                    assert(before[x].substance_name == q0.entries()[x].substance_name);
                }
                assert(after[p].substance_name@ == n);
                lemma_position_unique(after, n, p);
                assert(attempt_marked(after, n, now));
                assert forall|m: int| 0 <= m < i implies attempt_marked(after, #[trigger] batch@[m]@, now) by {
                    let nm = batch@[m]@;
                    assert(attempt_marked(before, nm, now));
                    let pm = position_of(before, nm).unwrap();
                    assert(before[pm].substance_name@ == nm);
                    assert(batch@.map_values(|s: String| s@)[m] != batch@.map_values(|s: String| s@)[i as int]);
                    assert(pm != p);
                    assert(after[pm] == before[pm]);
                    lemma_position_unique(after, nm, pm);
                }
            }
            started.push(batch[i].clone());
            i = i + 1;
        }
        proof {
            assert forall|m: int| 0 <= m < started@.len() implies names_due(old(self).jobs().entries(), now, #[trigger] started@[m]@)
                && attempt_marked(self.queue.entries(), started@[m]@, now) by {
                assert(started@[m]@ == batch@[m]@);
            }
            let sv = started@.map_values(|s: String| s@);
            let bv = batch@.map_values(|s: String| s@);
            assert forall|a: int, b: int| 0 <= a < sv.len() && 0 <= b < sv.len() && a != b implies
                #[trigger] sv[a] != #[trigger] sv[b] by {
                assert(bv[a] != bv[b]);
                assert(sv[a] == bv[a] && sv[b] == bv[b]);
            }
        }
        LoopStep::Run(started)
    }

    /// Apply the result of one job on `name` at `now`: give back its permit,
    /// feed the attempt to shaping, apply the outcome to the queue, and change
    /// the snapshot as the queue asks: a fresh record replaces the record of
    /// that name (or is added where there is none), a confirmed deletion removes
    /// it. Returns whether the snapshot should now be persisted: after a
    /// removal, and after every `update_persist_every`-th update starting with
    /// the first.
    pub fn apply_result_at(
        &mut self,
        name: &str,
        outcome: RevalidationOutcome,
        record: Option<Substance>,
        latency_ms: u64,
        now: u64,
    ) -> (persist: bool)
        requires
            old(self).wf(),
        ensures
            final(self).wf(),
            final(self).snap().table() == old(self).snap().table(),
            final(self).jobs().running() == if old(self).jobs().running() > 0 {
                old(self).jobs().running() - 1
            } else {
                0
            },
            final(self).shaper().metrics.attempts().last().substance@ == name@,
            ({
                let pos = position_of(old(self).jobs().entries(), name@);
                let k = lower_of(name@);
                let recs = old(self).snap().records();
                let names = old(self).snap().name_index();
                &&& (pos.is_none() ==> final(self).snap().records() == recs && !persist)
                &&& (pos.is_none() ==> final(self).jobs().entries() == old(self).jobs().entries())
                &&& (pos.is_some() ==> {
                    let item = old(self).jobs().entries()[pos.unwrap()];
                    match next_counters(item.consecutive_failures, item.consecutive_not_found, outcome) {
                        None => final(self).jobs().entries() == old(self).jobs().entries().remove(pos.unwrap()),
                        Some(c) => final(self).jobs().entries().len() == old(self).jobs().entries().len()
                            && final(self).jobs().entries()[pos.unwrap()].substance_name == item.substance_name
                            && final(self).jobs().entries()[pos.unwrap()].consecutive_failures == c.0
                            && final(self).jobs().entries()[pos.unwrap()].consecutive_not_found == c.1,
                    }
                })
                &&& (pos.is_some() && outcome is Success && record.is_some() ==> final(self).snap().records() == if names.contains_key(k) {
                    recs.update(names[k] as int, record.unwrap())
                } else {
                    recs.push(record.unwrap())
                })
                &&& (pos.is_some() && outcome is Success && record.is_some() ==> persist == (old(self).cfg().update_persist_every > 0
                    && old(self).update_count() % old(self).cfg().update_persist_every == 0)
                    && final(self).update_count() == (if old(self).update_count() == u64::MAX { 0 } else { old(self).update_count() + 1 }))
                &&& (pos.is_some() && outcome is Success && record.is_none() ==> final(self).snap().records() == recs && !persist)
                &&& (pos.is_some() && outcome is Error ==> final(self).snap().records() == recs && !persist)
                &&& (pos.is_some() && outcome is NotFound ==> {
                    let item = old(self).jobs().entries()[pos.unwrap()];
                    if next_counters(item.consecutive_failures, item.consecutive_not_found, outcome).is_none() {
                        persist && final(self).snap().records() == if names.contains_key(k) {
                            recs.remove(names[k] as int)
                        } else {
                            recs
                        }
                    } else {
                        !persist && final(self).snap().records() == recs
                    }
                })
            }),
    {
        self.queue.release_in_flight();
        let success = match &outcome {
            RevalidationOutcome::Success => true,
            _ => false,
        };
        self.shaping.record_and_evaluate_at(String::from_str(name), success, latency_ms, now);
        let ghost o = outcome;
        let action = self.queue.handle_outcome_at(name, outcome, now);
        match action {
            RevalidationAction::UpdateSnapshot => match record {
                Some(rec) => {
                    if self.snapshot.get_by_name(name).is_some() {
                        self.snapshot.update_substance(name, rec);
                    } else {
                        self.snapshot.add_substance(rec);
                    }
                    let count = self.updates;
                    self.updates = self.updates.wrapping_add(1);
                    self.config.update_persist_every > 0 && count % self.config.update_persist_every == 0
                },
                None => false,
            },
            RevalidationAction::RemoveFromSnapshot => {
                self.snapshot.remove_substance(name);
                true
            },
            RevalidationAction::NoChange => false,
        }
    }

    /// Schedule what a reconciliation against the backend's `backend_names`
    /// finds, at `now`: names that the snapshot lacks are queued and made due;
    /// snapshot names that the backend lacks are made due, so that the
    /// not-found protocol decides their removal. Returns the two lists.
    pub fn reconcile_at(&mut self, backend_names: &Vec<String>, now: u64) -> (r: (Vec<String>, Vec<String>))
        requires
            old(self).wf(),
        ensures
            final(self).wf(),
            final(self).snap() == old(self).snap(),
            forall|i: int| 0 <= i < r.0@.len() ==> listed(backend_names@, r.0@[i]@)
                && !names_in(old(self).snap().records(), r.0@[i]@),
            forall|j: int| 0 <= j < backend_names@.len() && !names_in(old(self).snap().records(), #[trigger] backend_names@[j]@)
                ==> exists|i: int| 0 <= i < r.0@.len() && r.0@[i]@ == backend_names@[j]@,
            forall|i: int| 0 <= i < r.0@.len() ==> position_of(final(self).jobs().entries(), #[trigger] r.0@[i]@).is_some()
                && expedited(final(self).jobs().entries(), r.0@[i]@, now),
            forall|i: int| 0 <= i < r.1@.len() ==> names_in(old(self).snap().records(), #[trigger] r.1@[i]@)
                && !(exists|j: int| 0 <= j < backend_names@.len() && backend_names@[j]@ == r.1@[i]@),
            forall|x: int| 0 <= x < old(self).snap().records().len() && (#[trigger] old(self).snap().records()[x]).name.is_some()
                && !(exists|j: int| 0 <= j < backend_names@.len() && backend_names@[j]@ == old(self).snap().records()[x].name.unwrap()@)
                ==> exists|m: int| 0 <= m < r.1@.len() && r.1@[m]@ == old(self).snap().records()[x].name.unwrap()@,
            forall|i: int| 0 <= i < r.1@.len() ==> expedited(final(self).jobs().entries(), #[trigger] r.1@[i]@, now),
    {
        let fresh = names_not_in(&self.snapshot, backend_names);
        enqueue_expedited(&mut self.queue, &fresh, now);
        proof {
            lemma_queue_wf(&self.queue);
        }
        let ghost mid = self.queue.entries();
        let subs = self.snapshot.get_records();
        let missing = expedite_missing(&mut self.queue, subs, backend_names, now);
        proof {
            lemma_queue_wf(&self.queue);
            assert forall|i: int| 0 <= i < fresh@.len() implies position_of(self.queue.entries(), #[trigger] fresh@[i]@).is_some()
                && expedited(self.queue.entries(), fresh@[i]@, now) by {
                lemma_expedited_kept(mid, self.queue.entries(), fresh@[i]@, now);
                let p = position_of(mid, fresh@[i]@).unwrap();
                assert(self.queue.entries()[p].substance_name@ == fresh@[i]@);
            }
        }
        (fresh, missing)
    }
}

/// The names of `backend` that no record of the snapshot has, in order.
fn names_not_in(snapshot: &SubstanceSnapshot, backend_names: &Vec<String>) -> (r: Vec<String>)
    ensures
        forall|i: int| 0 <= i < r@.len() ==> listed(backend_names@, r@[i]@)
            && !names_in(snapshot.records(), r@[i]@),
        forall|j: int| 0 <= j < backend_names@.len() && !names_in(snapshot.records(), #[trigger] backend_names@[j]@)
            ==> exists|i: int| 0 <= i < r@.len() && r@[i]@ == backend_names@[j]@,
{
    let mut fresh: Vec<String> = Vec::new();
    let mut j: usize = 0;
    while j < backend_names.len()
        invariant
            j <= backend_names@.len(),
            forall|i: int| 0 <= i < fresh@.len() ==> listed(backend_names@, fresh@[i]@)
                && !names_in(snapshot.records(), fresh@[i]@),
            forall|x: int| 0 <= x < j && !names_in(snapshot.records(), #[trigger] backend_names@[x]@) ==> exists|i: int|
                0 <= i < fresh@.len() && fresh@[i]@ == backend_names@[x]@,
        decreases backend_names@.len() - j,
    {
        let present = snapshot_has_name(snapshot, &backend_names[j]);
        if !present {
            let ghost before = fresh@;
            fresh.push(backend_names[j].clone());
            proof {
                assert forall|i: int| 0 <= i < fresh@.len() implies listed(backend_names@, fresh@[i]@)
                    && !names_in(snapshot.records(), fresh@[i]@) by {
                    if i < before.len() {
                        assert(fresh@[i] == before[i]);
                    } else {
                        assert(fresh@[i]@ == backend_names@[j as int]@);
                        assert(listed(backend_names@, fresh@[i]@));
                    }
                }
                assert forall|x: int| 0 <= x < j + 1 && !names_in(snapshot.records(), #[trigger] backend_names@[x]@) implies exists|i: int|
                    0 <= i < fresh@.len() && fresh@[i]@ == backend_names@[x]@ by {
                    if x < j {
                        let i = choose|i: int| 0 <= i < before.len() && before[i]@ == backend_names@[x]@;
                        assert(fresh@[i] == before[i]);
                    } else {
                        assert(fresh@[before.len() as int]@ == backend_names@[x]@);
                    }
                }
            }
        }
        j = j + 1;
    }
    fresh
}

/// Whether `after` keeps every item of `before` in place by name, with the
/// same due time or one set to `now`, and possibly appends items.
pub open spec fn kept_or_due(before: Seq<RevalidationItem>, after: Seq<RevalidationItem>, now: u64) -> bool {
    before.len() <= after.len() && forall|x: int| 0 <= x < before.len() ==> (#[trigger] after[x]).substance_name
        == before[x].substance_name && (after[x].next_refresh_at_ms == before[x].next_refresh_at_ms
        || after[x].next_refresh_at_ms == now)
}

/// Queue each of `names` (where absent) and make it due at `now`.
fn enqueue_expedited(q: &mut RevalidationQueue, names: &Vec<String>, now: u64)
    requires
        old(q).wf(),
    ensures
        final(q).wf(),
        kept_or_due(old(q).entries(), final(q).entries(), now),
        forall|x: int| 0 <= x < names@.len() ==> position_of(final(q).entries(), #[trigger] names@[x]@).is_some()
            && expedited(final(q).entries(), names@[x]@, now),
{
    let mut k: usize = 0;
    while k < names.len()
        invariant
            q.wf(),
            k <= names@.len(),
            kept_or_due(old(q).entries(), q.entries(), now),
            forall|x: int| 0 <= x < k ==> position_of(q.entries(), #[trigger] names@[x]@).is_some()
                && expedited(q.entries(), names@[x]@, now),
        decreases names@.len() - k,
    {
        let ghost before = q.entries();
        proof {
            lemma_queue_wf(q);
        }
        q.add_at(names[k].clone(), now);
        let ghost mid = q.entries();
        proof {
            lemma_queue_wf(q);
            assert(kept_or_due(before, mid, now)) by {
                if mid.len() > before.len() {
                    assert forall|x: int| 0 <= x < before.len() implies (#[trigger] mid[x]) == before[x] by {
                        assert(mid.drop_last()[x] == mid[x]);
                    }
                }
            }
        }
        q.expedite_at(names[k].as_str(), now);
        proof {
            lemma_queue_wf(q);
            let after = q.entries();
            let n = names@[k as int]@;
            assert(kept_or_due(mid, after, now));
            assert(position_of(mid, n).is_some()) by {
                if position_of(before, n).is_some() {
                    let p = position_of(before, n).unwrap();
                    assert(mid[p].substance_name@ == n);
                } else {
                    assert(mid[mid.len() - 1].substance_name@ == n);
                }
            }
            let p = position_of(mid, n).unwrap();
            assert(after[p].substance_name@ == n);
            lemma_position_unique(after, n, p);
            assert forall|x: int| 0 <= x < k + 1 implies position_of(after, #[trigger] names@[x]@).is_some()
                && expedited(after, names@[x]@, now) by {
                if x < k {
                    lemma_expedited_kept(before, mid, names@[x]@, now);
                    lemma_expedited_kept(mid, after, names@[x]@, now);
                    let pb = position_of(before, names@[x]@).unwrap();
                    assert(after[pb].substance_name@ == names@[x]@);
                }
            }
            let o = old(q).entries();
            assert forall|x: int| 0 <= x < o.len() implies (#[trigger] after[x]).substance_name == o[x].substance_name
                && (after[x].next_refresh_at_ms == o[x].next_refresh_at_ms || after[x].next_refresh_at_ms == now) by {
                assert(before[x].substance_name == o[x].substance_name);
                assert(mid[x].substance_name == before[x].substance_name);
            }
        }
        k = k + 1;
    }
}

/// Make due at `now` every named record that `backend_names` lacks, and
/// return those names in record order.
fn expedite_missing(q: &mut RevalidationQueue, subs: &Vec<Substance>, backend_names: &Vec<String>, now: u64) -> (missing: Vec<String>)
    requires
        old(q).wf(),
    ensures
        final(q).wf(),
        kept_or_due(old(q).entries(), final(q).entries(), now),
        final(q).entries().len() == old(q).entries().len(),
        forall|m: int| 0 <= m < missing@.len() ==> names_in(subs@, #[trigger] missing@[m]@)
            && !(exists|j: int| 0 <= j < backend_names@.len() && backend_names@[j]@ == missing@[m]@),
        forall|x: int| 0 <= x < subs@.len() && (#[trigger] subs@[x]).name.is_some()
            && !(exists|j: int| 0 <= j < backend_names@.len() && backend_names@[j]@ == subs@[x].name.unwrap()@)
            ==> exists|m: int| 0 <= m < missing@.len() && missing@[m]@ == subs@[x].name.unwrap()@,
        forall|m: int| 0 <= m < missing@.len() ==> expedited(final(q).entries(), #[trigger] missing@[m]@, now),
{
    let mut missing: Vec<String> = Vec::new();
    let n = subs.len();
    let mut i: usize = 0;
    while i < n
        invariant
            q.wf(),
            n == subs@.len(),
            i <= n,
            kept_or_due(old(q).entries(), q.entries(), now),
            q.entries().len() == old(q).entries().len(),
            forall|m: int| 0 <= m < missing@.len() ==> names_in(subs@, #[trigger] missing@[m]@)
                && !(exists|j: int| 0 <= j < backend_names@.len() && backend_names@[j]@ == missing@[m]@),
            forall|x: int| 0 <= x < missing@.len() ==> expedited(q.entries(), #[trigger] missing@[x]@, now),
            forall|x: int| 0 <= x < i && (#[trigger] subs@[x]).name.is_some()
                && !(exists|j: int| 0 <= j < backend_names@.len() && backend_names@[j]@ == subs@[x].name.unwrap()@)
                ==> exists|m: int| 0 <= m < missing@.len() && missing@[m]@ == subs@[x].name.unwrap()@,
        decreases n - i,
    {
        match &subs[i] {
            Substance { name: Some(nm), .. } => {
                if !contains_string(backend_names, nm) {
                    let ghost before_q = q.entries();
                    proof {
                        lemma_queue_wf(q);
                    }
                    q.expedite_at(nm.as_str(), now);
                    proof {
                        lemma_queue_wf(q);
                        let after = q.entries();
                        assert(kept_or_due(before_q, after, now));
                        assert forall|x: int| 0 <= x < missing@.len() implies expedited(after, #[trigger] missing@[x]@, now) by {
                            lemma_expedited_kept(before_q, after, missing@[x]@, now);
                        }
                        assert(expedited(after, nm@, now)) by {
                            if position_of(before_q, nm@).is_some() {
                                let p = position_of(before_q, nm@).unwrap();
                                assert(after[p].substance_name@ == nm@);
                                lemma_position_unique(after, nm@, p);
                            } else if position_of(after, nm@).is_some() {
                                let p = position_of(after, nm@).unwrap();
                                assert(before_q[p].substance_name@ == nm@);
                            }
                        }
                        let o = old(q).entries();
                        assert forall|x: int| 0 <= x < o.len() implies (#[trigger] after[x]).substance_name == o[x].substance_name
                            && (after[x].next_refresh_at_ms == o[x].next_refresh_at_ms || after[x].next_refresh_at_ms == now) by {
                            assert(before_q[x].substance_name == o[x].substance_name);
                        }
                        assert(names_in(subs@, nm@)) by {
                            assert(subs@[i as int].name == Some(*nm));
                        }
                    }
                    let ghost before = missing@;
                    missing.push(nm.clone());
                    proof {
                        assert forall|m: int| 0 <= m < missing@.len() implies names_in(subs@, #[trigger] missing@[m]@)
                            && !(exists|j: int| 0 <= j < backend_names@.len() && backend_names@[j]@ == missing@[m]@) by {
                            if m < before.len() {
                                assert(missing@[m] == before[m]);
                            }
                        }
                        assert forall|x: int| 0 <= x < missing@.len() implies expedited(q.entries(), #[trigger] missing@[x]@, now) by {
                            if x < before.len() {
                                assert(missing@[x] == before[x]);
                            }
                        }
                        assert forall|x: int| 0 <= x < i + 1 && (#[trigger] subs@[x]).name.is_some()
                            && !(exists|j: int| 0 <= j < backend_names@.len() && backend_names@[j]@ == subs@[x].name.unwrap()@)
                            implies exists|m: int| 0 <= m < missing@.len() && missing@[m]@ == subs@[x].name.unwrap()@ by {
                            if x < i {
                                let m = choose|m: int| 0 <= m < before.len() && before[m]@ == subs@[x].name.unwrap()@;
                                assert(missing@[m] == before[m]);
                            } else {
                                assert(missing@[before.len() as int]@ == subs@[x].name.unwrap()@);
                            }
                        }
                    }
                }
            },
            _ => {},
        }
        i = i + 1;
    }
    missing
}

/// Whether `n` is one of `names`.
pub open spec fn listed(names: Seq<String>, n: Seq<char>) -> bool {
    exists|j: int| 0 <= j < names.len() && names[j]@ == n
}

/// Whether the item named `n`, if queued, is due at `now` exactly.
pub open spec fn expedited(entries: Seq<RevalidationItem>, n: Seq<char>, now: u64) -> bool {
    match position_of(entries, n) {
        Some(p) => entries[p].next_refresh_at_ms == now,
        None => true,
    }
}

/// An item made due at `now` stays so when later changes keep every name in
/// place and only append items or set due times to `now`.
proof fn lemma_expedited_kept(before: Seq<RevalidationItem>, after: Seq<RevalidationItem>, n: Seq<char>, now: u64)
    requires
        crate::revalidation::names_distinct(before),
        crate::revalidation::names_distinct(after),
        kept_or_due(before, after, now),
        expedited(before, n, now),
        position_of(before, n).is_some() || before.len() == after.len(),
    ensures
        expedited(after, n, now),
{
    if position_of(before, n).is_some() {
        let p = position_of(before, n).unwrap();
        assert(after[p].substance_name@ == n);
        lemma_position_unique(after, n, p);
    } else if position_of(after, n).is_some() {
        let p = position_of(after, n).unwrap();
        assert(before[p].substance_name@ == n);
    }
}

/// Whether some record of `recs` has canonical name `n` (exactly).
pub open spec fn names_in(recs: Seq<Substance>, n: Seq<char>) -> bool {
    exists|i: int| 0 <= i < recs.len() && (#[trigger] recs[i]).name.is_some() && recs[i].name.unwrap()@ == n
}

fn snapshot_has_name(s: &SubstanceSnapshot, n: &String) -> (r: bool)
    ensures
        r == names_in(s.records(), n@),
{
    let subs = s.get_records();
    let mut i: usize = 0;
    while i < subs.len()
        invariant
            i <= subs@.len(),
            s.records() == subs@,
            forall|k: int| 0 <= k < i ==> !((#[trigger] subs@[k]).name.is_some() && subs@[k].name.unwrap()@ == n@),
        decreases subs@.len() - i,
    {
        match &subs[i] {
            Substance { name: Some(x), .. } => {
                if *x == *n {
                    return true;
                }
            },
            _ => {},
        }
        i = i + 1;
    }
    false
}

fn contains_string(v: &Vec<String>, s: &String) -> (r: bool)
    ensures
        r == exists|j: int| 0 <= j < v@.len() && v@[j]@ == s@,
{
    let mut j: usize = 0;
    while j < v.len()
        invariant
            j <= v@.len(),
            forall|k: int| 0 <= k < j ==> v@[k]@ != s@,
        decreases v@.len() - j,
    {
        if v[j] == *s {
            return true;
        }
        j = j + 1;
    }
    false
}

/// What cold start does after asking the backend for its name list.
#[derive(Debug, Clone, Copy, PartialEq, Eq, Structural)]
pub enum ColdStartDecision {
    /// The list is large enough: fetch its records.
    Accept,
    /// Ask again after this many milliseconds.
    Retry(u64),
    /// Retries are exhausted: startup fails.
    Fail,
}

/// First backoff delay of cold start, in milliseconds.
pub const COLD_START_FIRST_DELAY_MS: u64 = 1000;

/// The delay before retry number `attempt` (from 0): doubling from one second,
/// saturating.
pub open spec fn backoff_ms(attempt: u32) -> u64
    decreases attempt,
{
    if attempt == 0 {
        COLD_START_FIRST_DELAY_MS
    } else {
        let prev = backoff_ms((attempt - 1) as u32);
        if prev > u64::MAX / 2 {
            u64::MAX
        } else {
            (prev * 2) as u64
        }
    }
}

/// Decide after attempt `attempt` (from 0) of fetching the name list, which
/// gave `listed` names (`None`: the request failed): accept a list of at least
/// `min_records`; otherwise retry with exponential backoff while attempts
/// remain out of `max_retries`; else fail.
pub fn cold_start_decision(attempt: u32, listed: Option<usize>, min_records: usize, max_retries: u32) -> (r:
    ColdStartDecision)
    ensures
        r == if listed.is_some() && listed.unwrap() >= min_records {
            ColdStartDecision::Accept
        } else if attempt + 1 < max_retries {
            ColdStartDecision::Retry(backoff_ms(attempt))
        } else {
            ColdStartDecision::Fail
        },
{
    match listed {
        Some(n) => {
            if n >= min_records {
                return ColdStartDecision::Accept;
            }
        },
        None => {},
    }
    if (attempt as u64) + 1 < max_retries as u64 {
        let mut delay: u64 = COLD_START_FIRST_DELAY_MS;
        let mut k: u32 = 0;
        while k < attempt
            invariant
                k <= attempt,
                delay == backoff_ms(k),
            decreases attempt - k,
        {
            delay = if delay > u64::MAX / 2 {
                u64::MAX
            } else {
                delay * 2
            };
            k = k + 1;
        }
        ColdStartDecision::Retry(delay)
    } else {
        ColdStartDecision::Fail
    }
}

} // verus!
