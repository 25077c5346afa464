//! The revalidation queue: one schedule entry per known record, with retry
//! state, deletion detection (three consecutive not-founds) and randomized
//! batch selection.
use vstd::prelude::*;

use crate::clock::{now_ms, random_in_range};

verus! {

broadcast use {vstd::seq_lib::group_to_multiset_ensures, vstd::multiset::group_multiset_axioms};

/// Milliseconds in a second.
pub const MS_PER_SEC: u64 = 1000;

/// Consecutive not-found outcomes that confirm a deletion.
pub const DELETION_STRIKES: u8 = 3;

/// Milliseconds until a record that was not found is checked again.
pub const NOT_FOUND_RECHECK_MS: u64 = 300_000;

/// Schedule state of one record in the queue.
#[derive(Debug, Clone)]
pub struct RevalidationItem {
    /// Record name (primary key).
    pub substance_name: String,
    /// When the record should next be refreshed, in milliseconds.
    pub next_refresh_at_ms: u64,
    /// Number of consecutive failures.
    pub consecutive_failures: u8,
    /// Number of consecutive not-found results.
    pub consecutive_not_found: u8,
    /// When the last attempt was made.
    pub last_attempt_ms: Option<u64>,
    /// When the last successful refresh happened.
    pub last_success_ms: Option<u64>,
}

/// `now` plus `secs` seconds, in milliseconds, saturating at `u64::MAX`.
pub open spec fn later(now: u64, secs: u64) -> u64 {
    if now + secs * 1000 > u64::MAX {
        u64::MAX
    } else {
        (now + secs * 1000) as u64
    }
}

fn later_exec(now: u64, secs: u64) -> (r: u64)
    ensures
        r == later(now, secs),
{
    if secs > (u64::MAX - now) / MS_PER_SEC {
        assert(now + secs * 1000 > u64::MAX) by (nonlinear_arith)
            requires
                secs > (u64::MAX - now) / 1000,
                now <= u64::MAX,
        ;
        u64::MAX
    } else {
        assert(now + secs * 1000 <= u64::MAX) by (nonlinear_arith)
            requires
                secs <= (u64::MAX - now) / 1000,
                now <= u64::MAX,
        ;
        now + secs * MS_PER_SEC
    }
}

impl RevalidationItem {
    /// A fresh item due `initial_delay_ms` after `now`, with no history.
    pub fn new_at(substance_name: String, initial_delay_ms: u64, now: u64) -> (r: Self)
        ensures
            r.substance_name == substance_name,
            r.next_refresh_at_ms == if now + initial_delay_ms > u64::MAX {
                u64::MAX as int
            } else {
                now + initial_delay_ms
            },
            r.consecutive_failures == 0,
            r.consecutive_not_found == 0,
            r.last_attempt_ms.is_none(),
            r.last_success_ms.is_none(),
    {
        RevalidationItem {
            substance_name,
            next_refresh_at_ms: now.saturating_add(initial_delay_ms),
            consecutive_failures: 0,
            consecutive_not_found: 0,
            last_attempt_ms: None,
            last_success_ms: None,
        }
    }

    /// A fresh item due `initial_delay_ms` from now, with no history.
    pub fn new(substance_name: String, initial_delay_ms: u64) -> (r: Self)
        ensures
            r.substance_name == substance_name,
            exists|now: u64| r.next_refresh_at_ms == #[trigger] later_ms(now, initial_delay_ms),
            r.consecutive_failures == 0,
            r.consecutive_not_found == 0,
            r.last_attempt_ms.is_none(),
            r.last_success_ms.is_none(),
    {
        let now = now_ms();
        let r = Self::new_at(substance_name, initial_delay_ms, now);
        assert(r.next_refresh_at_ms == later_ms(now, initial_delay_ms));
        r
    }
}

/// Outcome of a revalidation attempt.
#[derive(Debug)]
pub enum RevalidationOutcome {
    /// Data fetched successfully.
    Success,
    /// The backend reports the record missing.
    NotFound,
    /// Transient failure, retry later.
    Error(String),
}

/// What the caller does with the snapshot after an outcome.
#[derive(Debug, Clone, Copy, PartialEq, Eq, Structural)]
pub enum RevalidationAction {
    /// Nothing to do.
    NoChange,
    /// Store the fresh record in the snapshot.
    UpdateSnapshot,
    /// Remove the record from the snapshot.
    RemoveFromSnapshot,
}

/// Statistics about the queue.
#[derive(Debug, Clone, Copy)]
pub struct QueueStats {
    /// Total items in the queue.
    pub total: usize,
    /// Items due for refresh.
    pub due: usize,
    /// Items with consecutive failures.
    pub failing: usize,
    /// Items with consecutive not-founds.
    pub not_found: usize,
    /// Jobs currently holding a permit.
    pub in_flight: usize,
}

/// `x + 1`, saturating at 255.
pub open spec fn bump(x: u8) -> u8 {
    if x == 255 {
        255
    } else {
        (x + 1) as u8
    }
}

/// The counters `(consecutive_failures, consecutive_not_found)` after an
/// outcome, or `None` when the outcome confirms the deletion.
pub open spec fn next_counters(failures: u8, not_found: u8, outcome: RevalidationOutcome) -> Option<
    (u8, u8),
> {
    match outcome {
        RevalidationOutcome::Success => Some((0, 0)),
        RevalidationOutcome::NotFound => if bump(not_found) >= DELETION_STRIKES {
            None
        } else {
            Some((failures, bump(not_found)))
        },
        RevalidationOutcome::Error(_) => Some((bump(failures), not_found)),
    }
}

/// `x`, at most `cap`.
pub open spec fn at_most(x: int, cap: int) -> int {
    if x > cap {
        cap
    } else {
        x
    }
}

/// The window `[lo, hi)`, in milliseconds, from which the delay after a
/// success is drawn: 60 % to 90 % of the TTL (`[0, 1)` for a zero TTL).
pub open spec fn success_window(ttl_secs: u64) -> (u64, u64) {
    if ttl_secs == 0 {
        (0, 1)
    } else {
        (at_most(600 * ttl_secs, u64::MAX - 1) as u64, at_most(900 * ttl_secs, u64::MAX as int) as u64)
    }
}

/// The window `[lo, hi)`, in milliseconds, from which the delay after the
/// `failures`-th consecutive failure is drawn: 30–60 s, then 60–120 s, then half
/// the TTL to the TTL (at least one second).
pub open spec fn retry_window(failures: u8, ttl_secs: u64) -> (u64, u64) {
    if failures <= 1 {
        (30_000, 60_000)
    } else if failures == 2 {
        (60_000, 120_000)
    } else {
        (
            at_most(500 * ttl_secs, u64::MAX - 1) as u64,
            at_most(1000 * (if ttl_secs >= 1 { ttl_secs as int } else { 1 }), u64::MAX as int) as u64,
        )
    }
}

/// `now + ms`, saturating at `u64::MAX`.
pub open spec fn later_ms(now: u64, ms: u64) -> u64 {
    at_most(now + ms, u64::MAX as int) as u64
}

fn capped(x: u128, cap: u64) -> (r: u64)
    ensures
        r == at_most(x as int, cap as int),
{
    if x > cap as u128 {
        cap
    } else {
        x as u64
    }
}

/// Whether `item` is due at `now`.
pub open spec fn is_due(item: RevalidationItem, now: u64) -> bool {
    item.next_refresh_at_ms <= now
}

/// Whether `name` is the name of an item due at `now`.
pub open spec fn names_due(items: Seq<RevalidationItem>, now: u64, name: Seq<char>) -> bool {
    exists|i: int| 0 <= i < items.len() && is_due(items[i], now) && items[i].substance_name@ == name
}

/// The window `[lo, hi)`, in milliseconds, from which the delay until the
/// next attempt is drawn after `outcome`.
pub open spec fn delay_window(item: RevalidationItem, outcome: RevalidationOutcome, ttl_secs: u64) -> (u64, u64) {
    match outcome {
        RevalidationOutcome::Success => success_window(ttl_secs),
        RevalidationOutcome::NotFound => (NOT_FOUND_RECHECK_MS, (NOT_FOUND_RECHECK_MS + 1) as u64),
        RevalidationOutcome::Error(_) => retry_window(bump(item.consecutive_failures), ttl_secs),
    }
}

/// The item after an outcome at `now` that does not delete it, with the next
/// attempt `delay_ms` later.
pub open spec fn stepped(
    item: RevalidationItem,
    outcome: RevalidationOutcome,
    now: u64,
    delay_ms: u64,
) -> RevalidationItem {
    let counters = next_counters(item.consecutive_failures, item.consecutive_not_found, outcome).unwrap();
    RevalidationItem {
        next_refresh_at_ms: later_ms(now, delay_ms),
        consecutive_failures: counters.0,
        consecutive_not_found: counters.1,
        last_success_ms: match outcome {
            RevalidationOutcome::Success => Some(now),
            _ => item.last_success_ms,
        },
        ..item
    }
}

/// The action that an outcome asks for, when it does not delete the record.
pub open spec fn action_for(outcome: RevalidationOutcome) -> RevalidationAction {
    match outcome {
        RevalidationOutcome::Success => RevalidationAction::UpdateSnapshot,
        _ => RevalidationAction::NoChange,
    }
}

/// Number of items due at `now`.
pub open spec fn due_at(items: Seq<RevalidationItem>, now: u64) -> nat {
    count_where(items, |it: RevalidationItem| is_due(it, now))
}

/// The items with the last attempt of `name` set to `now`.
pub open spec fn with_attempt(items: Seq<RevalidationItem>, name: Seq<char>, now: u64) -> Seq<RevalidationItem> {
    match position_of(items, name) {
        Some(i) => items.update(i, RevalidationItem { last_attempt_ms: Some(now), ..items[i] }),
        None => items,
    }
}

/// The items with `name` made due at `now`.
pub open spec fn with_due(items: Seq<RevalidationItem>, name: Seq<char>, now: u64) -> Seq<RevalidationItem> {
    match position_of(items, name) {
        Some(i) => items.update(i, RevalidationItem { next_refresh_at_ms: now, ..items[i] }),
        None => items,
    }
}

/// Revalidation queue over all known records.
#[derive(Debug)]
pub struct RevalidationQueue {
    /// One item per record, names distinct.
    items: Vec<RevalidationItem>,
    /// Base TTL for cache entries, in seconds.
    base_ttl_secs: u64,
    /// Maximum concurrent jobs.
    max_concurrency: usize,
    /// Whether new jobs are handed out.
    accepting: bool,
    /// Jobs currently holding a permit.
    in_flight: usize,
}

/// Whether no two items share a name.
pub open spec fn names_distinct(items: Seq<RevalidationItem>) -> bool {
    forall|i: int, j: int|
        #![trigger items[i], items[j]]
        0 <= i < items.len() && 0 <= j < items.len() && i != j ==> items[i].substance_name@
            != items[j].substance_name@
}

/// Position of the item named `name`.
pub open spec fn position_of(items: Seq<RevalidationItem>, name: Seq<char>) -> Option<int> {
    if exists|i: int| 0 <= i < items.len() && items[i].substance_name@ == name {
        Some(choose|i: int| 0 <= i < items.len() && items[i].substance_name@ == name)
    } else {
        None
    }
}

/// The names of the items.
pub open spec fn names_of(items: Seq<RevalidationItem>) -> Seq<Seq<char>> {
    items.map_values(|it: RevalidationItem| it.substance_name@)
}

/// With distinct names, the position of a name is the index that holds it.
pub proof fn lemma_position_unique(items: Seq<RevalidationItem>, name: Seq<char>, i: int)
    requires
        names_distinct(items),
        0 <= i < items.len(),
        items[i].substance_name@ == name,
    ensures
        position_of(items, name) == Some(i),
{
    let j = choose|j: int| 0 <= j < items.len() && items[j].substance_name@ == name;
    assert(items[i] == items[i] && items[j] == items[j]);
}

/// Number of items in `s` that satisfy `p`.
pub open spec fn count_where(s: Seq<RevalidationItem>, p: spec_fn(RevalidationItem) -> bool) -> nat
    decreases s.len(),
{
    if s.len() == 0 {
        0
    } else {
        count_where(s.drop_last(), p) + if p(s.last()) {
            1nat
        } else {
            0nat
        }
    }
}

proof fn lemma_count_where_bound(s: Seq<RevalidationItem>, p: spec_fn(RevalidationItem) -> bool)
    ensures
        count_where(s, p) <= s.len(),
    decreases s.len(),
{
    if s.len() > 0 {
        lemma_count_where_bound(s.drop_last(), p);
    }
}

/// Relies on `rand::seq::SliceRandom::shuffle` over `rand::thread_rng()`: the
/// elements are put in a random order; the same elements remain.
#[verifier::external_body]
fn shuffle_positions(v: &mut Vec<usize>)
    ensures
        final(v)@.to_multiset() == old(v)@.to_multiset(),
{
    rand::seq::SliceRandom::shuffle(v.as_mut_slice(), &mut rand::thread_rng());
}

impl RevalidationQueue {
    pub closed spec fn entries(&self) -> Seq<RevalidationItem> {
        self.items@
    }

    pub closed spec fn ttl_secs(&self) -> u64 {
        self.base_ttl_secs
    }

    pub closed spec fn capacity(&self) -> usize {
        self.max_concurrency
    }

    pub closed spec fn is_accepting(&self) -> bool {
        self.accepting
    }

    pub closed spec fn running(&self) -> usize {
        self.in_flight
    }

    /// Items keyed uniquely by name; never more jobs in flight than permits.
    pub closed spec fn wf(&self) -> bool {
        names_distinct(self.items@) && self.in_flight <= self.max_concurrency
    }

    /// An empty queue that accepts jobs, with no job in flight.
    pub fn new(base_ttl_secs: u64, max_concurrency: usize) -> (r: Self)
        ensures
            r.wf(),
            r.entries().len() == 0,
            r.ttl_secs() == base_ttl_secs,
            r.capacity() == max_concurrency,
            r.is_accepting(),
            r.running() == 0,
    {
        RevalidationQueue {
            items: Vec::new(),
            base_ttl_secs,
            max_concurrency,
            accepting: true,
            in_flight: 0,
        }
    }

    fn find(&self, name: &str) -> (r: Option<usize>)
        requires
            self.wf(),
        ensures
            r.is_some() == position_of(self.items@, name@).is_some(),
            r.is_some() ==> position_of(self.items@, name@) == Some(r.unwrap() as int),
            r.is_some() ==> r.unwrap() < self.items@.len(),
    {
        let key = name.to_owned();
        let mut i: usize = 0;
        while i < self.items.len()
            invariant
                i <= self.items@.len(),
                names_distinct(self.items@),
                key@ == name@,
                forall|k: int| 0 <= k < i ==> self.items@[k].substance_name@ != name@,
            decreases self.items@.len() - i,
        {
            if self.items[i].substance_name == key {
                proof {
                    lemma_position_unique(self.items@, name@, i as int);
                }
                return Some(i);
            }
            i = i + 1;
        }
        None
    }

    /// Add `substance_name` at `now` if absent, due at `now` plus a uniformly
    /// drawn whole number of seconds in `[0, max(ttl, 1))`.
    pub fn add_at(&mut self, substance_name: String, now: u64)
        requires
            old(self).wf(),
        ensures
            final(self).wf(),
            final(self).ttl_secs() == old(self).ttl_secs(),
            final(self).capacity() == old(self).capacity(),
            final(self).is_accepting() == old(self).is_accepting(),
            final(self).running() == old(self).running(),
            position_of(old(self).entries(), substance_name@).is_some() ==> final(self).entries()
                == old(self).entries(),
            position_of(old(self).entries(), substance_name@).is_none() ==> {
                let it = final(self).entries().last();
                &&& final(self).entries().drop_last() == old(self).entries()
                &&& final(self).entries().len() == old(self).entries().len() + 1
                &&& it.substance_name == substance_name
                &&& it.consecutive_failures == 0
                &&& it.consecutive_not_found == 0
                &&& it.last_attempt_ms.is_none()
                &&& it.last_success_ms.is_none()
                &&& exists|d: u64|
                    d < (if old(self).ttl_secs() >= 1 {
                        old(self).ttl_secs()
                    } else {
                        1
                    }) && it.next_refresh_at_ms == later(now, d)
            },
    {
        if self.find(substance_name.as_str()).is_some() {
            return;
        }
        let hi = if self.base_ttl_secs >= 1 {
            self.base_ttl_secs
        } else {
            1
        };
        let d = random_in_range(0, hi);
        let due = later_exec(now, d);
        let item = RevalidationItem {
            substance_name,
            next_refresh_at_ms: due,
            consecutive_failures: 0,
            consecutive_not_found: 0,
            last_attempt_ms: None,
            last_success_ms: None,
        };
        let ghost before = self.items@;
        self.items.push(item);
        proof {
            assert(self.items@.drop_last() =~= before);
            assert forall|i: int, j: int|
                #![trigger self.items@[i], self.items@[j]]
                0 <= i < self.items@.len() && 0 <= j < self.items@.len() && i != j implies self.items@[i].substance_name@
                    != self.items@[j].substance_name@ by {
                if i < before.len() && j < before.len() {
                    assert(before[i] == self.items@[i] && before[j] == self.items@[j]);
                } else if i < before.len() {
                    assert(before[i] == self.items@[i]);
                } else {
                    assert(before[j] == self.items@[j]);
                }
            }
        }
    }

    /// Add `substance_name` now if absent, with a random initial delay.
    pub fn add(&mut self, substance_name: String)
        requires
            old(self).wf(),
        ensures
            final(self).wf(),
            final(self).ttl_secs() == old(self).ttl_secs(),
            final(self).capacity() == old(self).capacity(),
            position_of(old(self).entries(), substance_name@).is_some() ==> final(self).entries()
                == old(self).entries(),
            position_of(old(self).entries(), substance_name@).is_none() ==> final(self).entries().len()
                == old(self).entries().len() + 1 && final(self).entries().drop_last() == old(self).entries()
                && final(self).entries().last().substance_name == substance_name,
    {
        let now = now_ms();
        self.add_at(substance_name, now);
    }

    /// Add each of `names` that is absent, each with its own random delay.
    pub fn add_many(&mut self, names: Vec<String>)
        requires
            old(self).wf(),
        ensures
            final(self).wf(),
            final(self).ttl_secs() == old(self).ttl_secs(),
            final(self).capacity() == old(self).capacity(),
            forall|i: int| 0 <= i < names@.len() ==> position_of(final(self).entries(), #[trigger] names@[i]@).is_some(),
            forall|i: int| 0 <= i < old(self).entries().len() ==> #[trigger] final(self).entries()[i] == old(self).entries()[i],
            final(self).entries().len() >= old(self).entries().len(),
    {
        let now = now_ms();
        let mut rest = names;
        let ghost all = rest@;
        let ghost mut done: Seq<String> = Seq::empty();
        while rest.len() > 0
            invariant
                self.wf(),
                self.base_ttl_secs == old(self).base_ttl_secs,
                self.max_concurrency == old(self).max_concurrency,
                self.items@.len() >= old(self).items@.len(),
                forall|i: int| 0 <= i < old(self).items@.len() ==> #[trigger] self.items@[i] == old(self).items@[i],
                all.len() == done.len() + rest@.len(),
                forall|i: int| 0 <= i < rest@.len() ==> #[trigger] rest@[i] == all[i],
                forall|i: int| rest@.len() <= i < all.len() ==> position_of(self.items@, #[trigger] all[i]@).is_some(),
            decreases rest@.len(),
        {
            let name = rest.pop().unwrap();
            let ghost k = rest@.len() as int;
            assert(name == all[k]);
            let ghost before = self.items@;
            self.add_at(name, now);
            proof {
                done = done.push(name);
                assert forall|i: int| 0 <= i < old(self).items@.len() implies #[trigger] self.items@[i] == old(self).items@[i] by {
                    assert(before[i] == old(self).items@[i]);
                    if self.items@.len() > before.len() {
                        assert(self.items@.drop_last()[i] == self.items@[i]);
                    }
                }
                assert forall|i: int| rest@.len() <= i < all.len() implies position_of(self.items@, #[trigger] all[i]@).is_some() by {
                    if i == k {
                        if position_of(before, all[i]@).is_none() {
                            assert(self.items@[self.items@.len() - 1].substance_name@ == all[i]@);
                        }
                    } else {
                        let p = position_of(before, all[i]@).unwrap();
                        assert(self.items@[p] == before[p]);
                    }
                }
            }
        }
    }

    /// Up to `max_count` distinct names of items due at `now`, picked in random
    /// order; none while the queue is not accepting.
    pub fn select_next_batch_at(&self, max_count: usize, now: u64) -> (r: Vec<String>)
        requires
            self.wf(),
        ensures
            !self.is_accepting() ==> r@.len() == 0,
            self.is_accepting() ==> r@.len() == if count_where(self.entries(), |it: RevalidationItem| is_due(it, now))
                < max_count {
                count_where(self.entries(), |it: RevalidationItem| is_due(it, now))
            } else {
                max_count as nat
            },
            forall|k: int| 0 <= k < r@.len() ==> names_due(self.entries(), now, #[trigger] r@[k]@),
            r@.map_values(|s: String| s@).no_duplicates(),
    {
        if !self.accepting {
            return Vec::new();
        }
        let mut due: Vec<usize> = Vec::new();
        let mut i: usize = 0;
        while i < self.items.len()
            invariant
                self.wf(),
                i <= self.items@.len(),
                due@.len() == count_where(self.items@.subrange(0, i as int), |it: RevalidationItem| is_due(it, now)),
                forall|k: int| 0 <= k < due@.len() ==> (#[trigger] due@[k]) < i && is_due(self.items@[due@[k] as int], now),
                forall|a: int, b: int| 0 <= a < b < due@.len() ==> #[trigger] due@[a] < #[trigger] due@[b],
            decreases self.items@.len() - i,
        {
            proof {
                assert(self.items@.subrange(0, i + 1).drop_last() =~= self.items@.subrange(0, i as int));
            }
            if self.items[i].next_refresh_at_ms <= now {
                due.push(i);
            }
            i = i + 1;
        }
        proof {
            assert(self.items@.subrange(0, self.items@.len() as int) =~= self.items@);
            assert(due@.no_duplicates());
            due@.lemma_multiset_has_no_duplicates();
        }
        let ghost chosen = due@;
        shuffle_positions(&mut due);
        proof {
            due@.lemma_multiset_has_no_duplicates_conv();
            assert(due@.len() == chosen.len()) by {
                assert(due@.to_multiset().len() == chosen.to_multiset().len());
            }
            assert forall|k: int| 0 <= k < due@.len() implies (#[trigger] due@[k]) < self.items@.len()
                && is_due(self.items@[due@[k] as int], now) by {
                assert(due@.to_multiset().count(due@[k]) > 0);
                assert(chosen.to_multiset().count(due@[k]) > 0);
                assert(chosen.contains(due@[k]));
            }
        }
        due.truncate(max_count);
        let mut out: Vec<String> = Vec::new();
        let mut k: usize = 0;
        while k < due.len()
            invariant
                self.wf(),
                k <= due@.len(),
                out@.len() == k,
                due@.no_duplicates(),
                forall|m: int| 0 <= m < due@.len() ==> (#[trigger] due@[m]) < self.items@.len()
                    && is_due(self.items@[due@[m] as int], now),
                forall|m: int| 0 <= m < k ==> #[trigger] out@[m]@ == self.items@[due@[m] as int].substance_name@,
            decreases due@.len() - k,
        {
            out.push(self.items[due[k]].substance_name.clone());
            k = k + 1;
        }
        proof {
            assert forall|m: int| 0 <= m < out@.len() implies names_due(self.items@, now, #[trigger] out@[m]@) by {
                let i = due@[m] as int;
                assert(0 <= i < self.items@.len() && is_due(self.items@[i], now)
                    && out@[m]@ == self.items@[i].substance_name@);
            }
            let names = out@.map_values(|s: String| s@);
            assert forall|a: int, b: int| 0 <= a < names.len() && 0 <= b < names.len() && a != b implies names[a] != names[b] by {
                assert(due@[a] != due@[b]);
                assert(self.items@[due@[a] as int] == self.items@[due@[a] as int]);
                assert(self.items@[due@[b] as int] == self.items@[due@[b] as int]);
            }
        }
        out
    }

    /// Apply the outcome of an attempt on `name` at `now`.
    /// Success resets both counters, records the success, reschedules within
    /// 60–90 % of the TTL and asks for a snapshot update. NotFound counts a
    /// strike: the third consecutive one removes the item and asks for removal
    /// from the snapshot, an earlier one rechecks in 5 minutes. Error counts a
    /// failure and retries after an escalating delay. An unknown name changes
    /// nothing.
    pub fn handle_outcome_at(&mut self, name: &str, outcome: RevalidationOutcome, now: u64) -> (r:
        RevalidationAction)
        requires
            old(self).wf(),
        ensures
            final(self).wf(),
            final(self).ttl_secs() == old(self).ttl_secs(),
            final(self).capacity() == old(self).capacity(),
            final(self).is_accepting() == old(self).is_accepting(),
            final(self).running() == old(self).running(),
            match position_of(old(self).entries(), name@) {
                None => r == RevalidationAction::NoChange && final(self).entries() == old(self).entries(),
                Some(i) => {
                    let it = old(self).entries()[i];
                    match next_counters(it.consecutive_failures, it.consecutive_not_found, outcome) {
                        None => r == RevalidationAction::RemoveFromSnapshot && final(self).entries()
                            == old(self).entries().remove(i),
                        Some(_) => r == action_for(outcome) && exists|d: u64|
                            delay_window(it, outcome, old(self).ttl_secs()).0 <= d < delay_window(
                                it,
                                outcome,
                                old(self).ttl_secs(),
                            ).1 && final(self).entries() == old(self).entries().update(
                                i,
                                stepped(it, outcome, now, d),
                            ),
                    }
                },
            },
    {
        let idx = match self.find(name) {
            Some(i) => i,
            None => return RevalidationAction::NoChange,
        };
        let ttl = self.base_ttl_secs;
        let f = self.items[idx].consecutive_failures;
        let nf = self.items[idx].consecutive_not_found;
        let ghost before = self.items@;
        let ghost it = before[idx as int];
        let ghost o = outcome;
        let (d, action) = match outcome {
            RevalidationOutcome::Success => {
                let (lo, hi): (u64, u64) = if ttl == 0 {
                    (0, 1)
                } else {
                    (capped((ttl as u128) * 600, u64::MAX - 1), capped((ttl as u128) * 900, u64::MAX))
                };
                let d = random_in_range(lo, hi);
                self.items[idx].consecutive_failures = 0;
                self.items[idx].consecutive_not_found = 0;
                self.items[idx].last_success_ms = Some(now);
                (d, RevalidationAction::UpdateSnapshot)
            },
            RevalidationOutcome::NotFound => {
                let bumped = nf.saturating_add(1);
                if bumped >= DELETION_STRIKES {
                    self.items.remove(idx);
                    proof {
                        assert forall|a: int, b: int|
                            #![trigger self.items@[a], self.items@[b]]
                            0 <= a < self.items@.len() && 0 <= b < self.items@.len() && a != b implies self.items@[a].substance_name@
                                != self.items@[b].substance_name@ by {
                            let a0 = if a < idx { a } else { a + 1 };
                            let b0 = if b < idx { b } else { b + 1 };
                            assert(before[a0] == self.items@[a] && before[b0] == self.items@[b]);
                        }
                    }
                    return RevalidationAction::RemoveFromSnapshot;
                }
                self.items[idx].consecutive_not_found = bumped;
                (NOT_FOUND_RECHECK_MS, RevalidationAction::NoChange)
            },
            RevalidationOutcome::Error(_) => {
                let bumped = f.saturating_add(1);
                let (lo, hi): (u64, u64) = if bumped <= 1 {
                    (30_000, 60_000)
                } else if bumped == 2 {
                    (60_000, 120_000)
                } else {
                    let whole: u128 = if ttl >= 1 {
                        ttl as u128
                    } else {
                        1
                    };
                    (capped((ttl as u128) * 500, u64::MAX - 1), capped(whole * 1000, u64::MAX))
                };
                let d = random_in_range(lo, hi);
                self.items[idx].consecutive_failures = bumped;
                (d, RevalidationAction::NoChange)
            },
        };
        self.items[idx].next_refresh_at_ms = now.saturating_add(d);
        proof {
            assert(self.items@ =~= before.update(idx as int, stepped(it, o, now, d)));
            assert forall|a: int, b: int|
                #![trigger self.items@[a], self.items@[b]]
                0 <= a < self.items@.len() && 0 <= b < self.items@.len() && a != b implies self.items@[a].substance_name@
                    != self.items@[b].substance_name@ by {
                assert(before[a].substance_name == self.items@[a].substance_name);
                assert(before[b].substance_name == self.items@[b].substance_name);
            }
        }
        action
    }

    /// Apply the outcome of an attempt on `name` now.
    pub fn handle_outcome(&mut self, name: &str, outcome: RevalidationOutcome) -> (r: RevalidationAction)
        requires
            old(self).wf(),
        ensures
            final(self).wf(),
            final(self).ttl_secs() == old(self).ttl_secs(),
            final(self).capacity() == old(self).capacity(),
            match position_of(old(self).entries(), name@) {
                None => r == RevalidationAction::NoChange && final(self).entries() == old(self).entries(),
                Some(i) => {
                    let it = old(self).entries()[i];
                    match next_counters(it.consecutive_failures, it.consecutive_not_found, outcome) {
                        None => r == RevalidationAction::RemoveFromSnapshot && final(self).entries()
                            == old(self).entries().remove(i),
                        Some(c) => r == action_for(outcome) && final(self).entries().len()
                            == old(self).entries().len() && final(self).entries()[i].consecutive_failures
                            == c.0 && final(self).entries()[i].consecutive_not_found == c.1
                            && final(self).entries()[i].substance_name == it.substance_name,
                    }
                },
            },
    {
        let now = now_ms();
        self.handle_outcome_at(name, outcome, now)
    }

    /// Record that an attempt on `name` starts at `now`.
    pub fn mark_attempt_start_at(&mut self, name: &str, now: u64)
        requires
            old(self).wf(),
        ensures
            final(self).wf(),
            final(self).ttl_secs() == old(self).ttl_secs(),
            final(self).capacity() == old(self).capacity(),
            final(self).is_accepting() == old(self).is_accepting(),
            final(self).running() == old(self).running(),
            final(self).entries() == match position_of(old(self).entries(), name@) {
                Some(i) => old(self).entries().update(
                    i,
                    RevalidationItem { last_attempt_ms: Some(now), ..old(self).entries()[i] },
                ),
                None => old(self).entries(),
            },
    {
        if let Some(idx) = self.find(name) {
            let ghost before = self.items@;
            self.items[idx].last_attempt_ms = Some(now);
            proof {
                assert(self.items@ =~= before.update(idx as int, RevalidationItem { last_attempt_ms: Some(now), ..before[idx as int] }));
                assert forall|a: int, b: int|
                    #![trigger self.items@[a], self.items@[b]]
                    0 <= a < self.items@.len() && 0 <= b < self.items@.len() && a != b implies self.items@[a].substance_name@
                        != self.items@[b].substance_name@ by {
                    assert(before[a].substance_name == self.items@[a].substance_name);
                    assert(before[b].substance_name == self.items@[b].substance_name);
                }
            }
        }
    }

    /// Record that an attempt on `name` starts now.
    pub fn mark_attempt_start(&mut self, name: &str)
        requires
            old(self).wf(),
        ensures
            final(self).wf(),
            final(self).ttl_secs() == old(self).ttl_secs(),
            final(self).capacity() == old(self).capacity(),
            final(self).is_accepting() == old(self).is_accepting(),
            final(self).running() == old(self).running(),
            exists|now: u64| final(self).entries() == #[trigger] with_attempt(old(self).entries(), name@, now),
    {
        let now = now_ms();
        self.mark_attempt_start_at(name, now);
        assert(self.entries() == with_attempt(old(self).entries(), name@, now));
    }

    /// Make `name` due at `now`.
    pub fn expedite_at(&mut self, name: &str, now: u64)
        requires
            old(self).wf(),
        ensures
            final(self).wf(),
            final(self).ttl_secs() == old(self).ttl_secs(),
            final(self).capacity() == old(self).capacity(),
            final(self).is_accepting() == old(self).is_accepting(),
            final(self).running() == old(self).running(),
            final(self).entries() == match position_of(old(self).entries(), name@) {
                Some(i) => old(self).entries().update(
                    i,
                    RevalidationItem { next_refresh_at_ms: now, ..old(self).entries()[i] },
                ),
                None => old(self).entries(),
            },
    {
        if let Some(idx) = self.find(name) {
            let ghost before = self.items@;
            self.items[idx].next_refresh_at_ms = now;
            proof {
                assert(self.items@ =~= before.update(idx as int, RevalidationItem { next_refresh_at_ms: now, ..before[idx as int] }));
                assert forall|a: int, b: int|
                    #![trigger self.items@[a], self.items@[b]]
                    0 <= a < self.items@.len() && 0 <= b < self.items@.len() && a != b implies self.items@[a].substance_name@
                        != self.items@[b].substance_name@ by {
                    assert(before[a].substance_name == self.items@[a].substance_name);
                    assert(before[b].substance_name == self.items@[b].substance_name);
                }
            }
        }
    }

    /// Make `name` due now.
    pub fn expedite(&mut self, name: &str)
        requires
            old(self).wf(),
        ensures
            final(self).wf(),
            final(self).ttl_secs() == old(self).ttl_secs(),
            final(self).capacity() == old(self).capacity(),
            final(self).is_accepting() == old(self).is_accepting(),
            final(self).running() == old(self).running(),
            exists|now: u64| final(self).entries() == #[trigger] with_due(old(self).entries(), name@, now),
    {
        let now = now_ms();
        self.expedite_at(name, now);
        assert(self.entries() == with_due(old(self).entries(), name@, now));
    }

    /// Remove `name` from the queue.
    pub fn remove(&mut self, name: &str)
        requires
            old(self).wf(),
        ensures
            final(self).wf(),
            final(self).ttl_secs() == old(self).ttl_secs(),
            final(self).capacity() == old(self).capacity(),
            final(self).is_accepting() == old(self).is_accepting(),
            final(self).running() == old(self).running(),
            final(self).entries() == match position_of(old(self).entries(), name@) {
                Some(i) => old(self).entries().remove(i),
                None => old(self).entries(),
            },
    {
        if let Some(idx) = self.find(name) {
            let ghost before = self.items@;
            self.items.remove(idx);
            proof {
                assert forall|a: int, b: int|
                    #![trigger self.items@[a], self.items@[b]]
                    0 <= a < self.items@.len() && 0 <= b < self.items@.len() && a != b implies self.items@[a].substance_name@
                        != self.items@[b].substance_name@ by {
                    let a0 = if a < idx { a } else { a + 1 };
                    let b0 = if b < idx { b } else { b + 1 };
                    assert(before[a0] == self.items@[a] && before[b0] == self.items@[b]);
                }
            }
        }
    }

    /// Stop handing out work (for shutdown).
    pub fn stop_accepting(&mut self)
        requires
            old(self).wf(),
        ensures
            final(self).wf(),
            !final(self).is_accepting(),
            final(self).entries() == old(self).entries(),
            final(self).running() == old(self).running(),
            final(self).capacity() == old(self).capacity(),
            final(self).ttl_secs() == old(self).ttl_secs(),
    {
        self.accepting = false;
    }

    /// Take a permit for one job: none while not accepting or when all permits
    /// are taken; never waits.
    pub fn acquire_permit(&mut self) -> (r: bool)
        requires
            old(self).wf(),
        ensures
            final(self).wf(),
            r == (old(self).is_accepting() && old(self).running() < old(self).capacity()),
            final(self).running() == if r {
                old(self).running() + 1
            } else {
                old(self).running() as int
            },
            final(self).entries() == old(self).entries(),
            final(self).is_accepting() == old(self).is_accepting(),
            final(self).capacity() == old(self).capacity(),
            final(self).ttl_secs() == old(self).ttl_secs(),
    {
        if self.accepting && self.in_flight < self.max_concurrency {
            self.in_flight = self.in_flight + 1;
            true
        } else {
            false
        }
    }

    /// Give back the permit of a finished job.
    pub fn release_in_flight(&mut self)
        requires
            old(self).wf(),
        ensures
            final(self).wf(),
            final(self).running() == if old(self).running() > 0 {
                old(self).running() - 1
            } else {
                0
            },
            final(self).entries() == old(self).entries(),
            final(self).is_accepting() == old(self).is_accepting(),
            final(self).capacity() == old(self).capacity(),
            final(self).ttl_secs() == old(self).ttl_secs(),
    {
        self.in_flight = self.in_flight.saturating_sub(1);
    }

    /// Number of jobs holding a permit.
    pub fn in_flight_count(&self) -> (r: usize)
        ensures
            r == self.running(),
    {
        self.in_flight
    }

    /// The item for `name`, if queued.
    pub fn get_item(&self, name: &str) -> (r: Option<&RevalidationItem>)
        requires
            self.wf(),
        ensures
            match position_of(self.entries(), name@) {
                Some(i) => r == Some(&self.entries()[i]),
                None => r.is_none(),
            },
    {
        match self.find(name) {
            Some(i) => Some(&self.items[i]),
            None => None,
        }
    }

    /// The names of all queued items, in queue order.
    pub fn all_names(&self) -> (r: Vec<String>)
        ensures
            r@.map_values(|s: String| s@) == names_of(self.entries()),
    {
        let mut out: Vec<String> = Vec::new();
        let mut i: usize = 0;
        while i < self.items.len()
            invariant
                i <= self.items@.len(),
                out@.len() == i,
                forall|k: int| 0 <= k < i ==> #[trigger] out@[k]@ == self.items@[k].substance_name@,
            decreases self.items@.len() - i,
        {
            out.push(self.items[i].substance_name.clone());
            i = i + 1;
        }
        proof {
            assert(out@.map_values(|s: String| s@) =~= names_of(self.items@));
        }
        out
    }

    /// Number of queued items.
    pub fn len(&self) -> (r: usize)
        ensures
            r == self.entries().len(),
    {
        self.items.len()
    }

    /// Whether the queue is empty.
    pub fn is_empty(&self) -> (r: bool)
        ensures
            r == (self.entries().len() == 0),
    {
        self.items.len() == 0
    }

    /// The number of permits.
    pub fn max_concurrency(&self) -> (r: usize)
        ensures
            r == self.capacity(),
    {
        self.max_concurrency
    }

    /// Permits not taken.
    pub fn available_permits(&self) -> (r: usize)
        requires
            self.wf(),
        ensures
            r == self.capacity() - self.running(),
    {
        self.max_concurrency - self.in_flight
    }

    /// Number of items due at `now`.
    pub fn due_count_at(&self, now: u64) -> (r: usize)
        ensures
            r == count_where(self.entries(), |it: RevalidationItem| is_due(it, now)),
    {
        let mut due: usize = 0;
        let mut i: usize = 0;
        while i < self.items.len()
            invariant
                i <= self.items@.len(),
                due == count_where(self.items@.subrange(0, i as int), |it: RevalidationItem| is_due(it, now)),
            decreases self.items@.len() - i,
        {
            proof {
                assert(self.items@.subrange(0, i + 1).drop_last() =~= self.items@.subrange(0, i as int));
                lemma_count_where_bound(self.items@.subrange(0, i as int), |it: RevalidationItem| is_due(it, now));
            }
            if self.items[i].next_refresh_at_ms <= now {
                due = due + 1;
            }
            i = i + 1;
        }
        proof {
            assert(self.items@.subrange(0, self.items@.len() as int) =~= self.items@);
        }
        due
    }

    /// Number of items due now.
    pub fn due_count(&self) -> (r: usize)
        ensures
            exists|now: u64| r == #[trigger] due_at(self.entries(), now),
    {
        let now = now_ms();
        let r = self.due_count_at(now);
        assert(r == due_at(self.entries(), now));
        r
    }

    /// Counts over the queue at `now`.
    pub fn stats_at(&self, now: u64) -> (r: QueueStats)
        requires
            self.wf(),
        ensures
            r.total == self.entries().len(),
            r.due == count_where(self.entries(), |it: RevalidationItem| is_due(it, now)),
            r.failing == count_where(self.entries(), |it: RevalidationItem| it.consecutive_failures > 0),
            r.not_found == count_where(self.entries(), |it: RevalidationItem| it.consecutive_not_found > 0),
            r.in_flight == self.running(),
    {
        let mut failing: usize = 0;
        let mut not_found: usize = 0;
        let mut i: usize = 0;
        while i < self.items.len()
            invariant
                i <= self.items@.len(),
                failing == count_where(self.items@.subrange(0, i as int), |it: RevalidationItem| it.consecutive_failures > 0),
                not_found == count_where(self.items@.subrange(0, i as int), |it: RevalidationItem| it.consecutive_not_found > 0),
            decreases self.items@.len() - i,
        {
            proof {
                assert(self.items@.subrange(0, i + 1).drop_last() =~= self.items@.subrange(0, i as int));
                lemma_count_where_bound(self.items@.subrange(0, i as int), |it: RevalidationItem| it.consecutive_failures > 0);
                lemma_count_where_bound(self.items@.subrange(0, i as int), |it: RevalidationItem| it.consecutive_not_found > 0);
            }
            if self.items[i].consecutive_failures > 0 {
                failing = failing + 1;
            }
            if self.items[i].consecutive_not_found > 0 {
                not_found = not_found + 1;
            }
            i = i + 1;
        }
        proof {
            assert(self.items@.subrange(0, self.items@.len() as int) =~= self.items@);
        }
        QueueStats {
            total: self.items.len(),
            due: self.due_count_at(now),
            failing,
            not_found,
            in_flight: self.in_flight,
        }
    }

    /// Counts over the queue now.
    pub fn stats(&self) -> (r: QueueStats)
        requires
            self.wf(),
        ensures
            r.total == self.entries().len(),
            exists|now: u64| r.due == #[trigger] due_at(self.entries(), now),
            r.failing == count_where(self.entries(), |it: RevalidationItem| it.consecutive_failures > 0),
            r.not_found == count_where(self.entries(), |it: RevalidationItem| it.consecutive_not_found > 0),
            r.in_flight == self.running(),
    {
        let now = now_ms();
        let r = self.stats_at(now);
        assert(r.due == due_at(self.entries(), now));
        r
    }
}

/// The counters after a run of outcomes, starting from `(failures, not_found)`;
/// `None` once an outcome has confirmed the deletion.
pub open spec fn counters_after_run(failures: u8, not_found: u8, outcomes: Seq<RevalidationOutcome>) -> Option<
    (u8, u8),
>
    decreases outcomes.len(),
{
    if outcomes.len() == 0 {
        Some((failures, not_found))
    } else {
        match counters_after_run(failures, not_found, outcomes.drop_last()) {
            Some((f, n)) => next_counters(f, n, outcomes.last()),
            None => None,
        }
    }
}

/// After any non-empty run of successes both counters are zero.
pub proof fn lemma_successes_keep_counters_zero(
    failures: u8,
    not_found: u8,
    outcomes: Seq<RevalidationOutcome>,
)
    requires
        outcomes.len() > 0,
        forall|i: int| 0 <= i < outcomes.len() ==> #[trigger] outcomes[i] == RevalidationOutcome::Success,
    ensures
        counters_after_run(failures, not_found, outcomes) == Some((0u8, 0u8)),
    decreases outcomes.len(),
{
    if outcomes.len() > 1 {
        let rest = outcomes.drop_last();
        assert forall|i: int| 0 <= i < rest.len() implies #[trigger] rest[i] == RevalidationOutcome::Success by {
            assert(rest[i] == outcomes[i]);
        }
        lemma_successes_keep_counters_zero(failures, not_found, rest);
    }
    assert(outcomes.last() == outcomes[outcomes.len() - 1]);
    reveal_with_fuel(counters_after_run, 2);
}

/// Three consecutive not-founds always confirm a deletion, whatever the
/// counters were.
pub proof fn lemma_three_not_founds_delete(failures: u8, not_found: u8)
    ensures
        counters_after_run(
            failures,
            not_found,
            seq![RevalidationOutcome::NotFound, RevalidationOutcome::NotFound, RevalidationOutcome::NotFound],
        ).is_none(),
{
    let s = seq![RevalidationOutcome::NotFound, RevalidationOutcome::NotFound, RevalidationOutcome::NotFound];
    assert(s.drop_last().drop_last().drop_last() =~= Seq::<RevalidationOutcome>::empty());
    assert(s.drop_last().drop_last() =~= seq![RevalidationOutcome::NotFound]);
    assert(s.drop_last() =~= seq![RevalidationOutcome::NotFound, RevalidationOutcome::NotFound]);
    reveal_with_fuel(counters_after_run, 4);
}

/// Two not-founds followed by a success, from a record with no strike, keep
/// the record and reset both counters.
pub proof fn lemma_success_after_two_not_founds_resets(failures: u8)
    ensures
        counters_after_run(
            failures,
            0,
            seq![RevalidationOutcome::NotFound, RevalidationOutcome::NotFound, RevalidationOutcome::Success],
        ) == Some((0u8, 0u8)),
{
    let s = seq![RevalidationOutcome::NotFound, RevalidationOutcome::NotFound, RevalidationOutcome::Success];
    assert(s.drop_last().drop_last().drop_last() =~= Seq::<RevalidationOutcome>::empty());
    assert(s.drop_last().drop_last() =~= seq![RevalidationOutcome::NotFound]);
    assert(s.drop_last() =~= seq![RevalidationOutcome::NotFound, RevalidationOutcome::NotFound]);
    reveal_with_fuel(counters_after_run, 4);
}

/// A well-formed queue holds one item per name and never more jobs in flight
/// than permits.
pub proof fn lemma_queue_wf(q: &RevalidationQueue)
    requires
        q.wf(),
    ensures
        names_distinct(q.entries()),
        q.running() <= q.capacity(),
{
}

} // verus!
