//! Search self-test: checks a snapshot's search against a curated fixture of
//! queries (exact matches and exclusions). Records whose expected substance
//! is not in the snapshot are skipped.
use vstd::prelude::*;
use vstd::string::StringExecFns;

use crate::snapshot::{name_key, records_at, search_result, Substance, SubstanceSnapshot};
use crate::clock::now_ms;
use crate::text::{lower_of, lowercase};

verus! {

/// Queries that must each find exactly one record: `substance`.
#[derive(Debug, Clone)]
pub struct ExactMatchGroup {
    pub substance: String,
    pub queries: Vec<String>,
}

/// A query whose results must include `expected` and none of `excluded`.
#[derive(Debug, Clone)]
pub struct NegativeTest {
    pub query: String,
    pub expected: String,
    pub excluded: Vec<String>,
}

/// The fixture of a self-test run.
#[derive(Debug, Clone)]
pub struct SearchTestFixture {
    pub exact_match_tests: Vec<ExactMatchGroup>,
    pub negative_tests: Vec<NegativeTest>,
}

/// A single failed assertion.
#[derive(Debug, Clone)]
pub struct SelfTestFailure {
    /// `exact_match` or `negative_exclusion`.
    pub test_type: String,
    pub query: String,
    /// The expected record name.
    pub expected: String,
    /// The names found, joined by ", ".
    pub actual: String,
}

/// Result of a self-test run.
#[derive(Debug)]
pub struct SelfTestResult {
    pub total_assertions: usize,
    pub passed: usize,
    pub failed: usize,
    pub skipped: usize,
    pub failures: Vec<SelfTestFailure>,
    pub duration_ms: u64,
}

impl SelfTestResult {
    /// Whether no assertion failed.
    pub fn is_pass(&self) -> (r: bool)
        ensures
            r == (self.failed == 0),
    {
        self.failed == 0
    }
}

/// Whether the results are exactly one record, named `target` up to case.
pub open spec fn exact_match_holds(results: Seq<&Substance>, target: Seq<char>) -> bool {
    results.len() == 1 && results[0].name.is_some() && name_key(*results[0]) == lower_of(target)
}

/// Whether some named result is named `n` up to case.
pub open spec fn names_include(results: Seq<&Substance>, n: Seq<char>) -> bool {
    exists|i: int| 0 <= i < results.len() && (#[trigger] results[i]).name.is_some() && name_key(*results[i]) == lower_of(n)
}

/// Whether the results include `expected` and none of `excluded`, up to case.
pub open spec fn negative_holds(results: Seq<&Substance>, expected: Seq<char>, excluded: Seq<String>) -> bool {
    names_include(results, expected) && forall|j: int| 0 <= j < excluded.len() ==> !names_include(results, #[trigger] excluded[j]@)
}

fn includes_name(results: &Vec<&Substance>, n: &String) -> (r: bool)
    ensures
        r == names_include(results@, n@),
{
    let target = lowercase(n.as_str());
    let mut i: usize = 0;
    while i < results.len()
        invariant
            i <= results@.len(),
            target@ == lower_of(n@),
            forall|k: int| 0 <= k < i ==> !((#[trigger] results@[k]).name.is_some() && name_key(*results@[k]) == lower_of(n@)),
        decreases results@.len() - i,
    {
        match &results[i].name {
            Some(x) => {
                if lowercase(x.as_str()) == target {
                    return true;
                }
            },
            None => {},
        }
        i = i + 1;
    }
    false
}

/// Whether the results are exactly one record named `target` (up to case).
pub fn exact_match_passes(results: &Vec<&Substance>, target: &String) -> (r: bool)
    ensures
        r == exact_match_holds(results@, target@),
{
    if results.len() != 1 {
        return false;
    }
    match &results[0].name {
        Some(x) => lowercase(x.as_str()) == lowercase(target.as_str()),
        None => false,
    }
}

/// Whether the results include `expected` and none of `excluded` (up to case).
pub fn negative_passes(results: &Vec<&Substance>, expected: &String, excluded: &Vec<String>) -> (r: bool)
    ensures
        r == negative_holds(results@, expected@, excluded@),
{
    if !includes_name(results, expected) {
        return false;
    }
    let mut j: usize = 0;
    while j < excluded.len()
        invariant
            j <= excluded@.len(),
            forall|k: int| 0 <= k < j ==> !names_include(results@, #[trigger] excluded@[k]@),
        decreases excluded@.len() - j,
    {
        if includes_name(results, &excluded[j]) {
            return false;
        }
        j = j + 1;
    }
    true
}

/// The names of the named results, joined by ", ".
fn joined_names(results: &Vec<&Substance>) -> (r: String) {
    let mut out = String::new();
    let mut first = true;
    let mut i: usize = 0;
    while i < results.len()
        invariant
            i <= results@.len(),
        decreases results@.len() - i,
    {
        match &results[i].name {
            Some(x) => {
                if !first {
                    out.append(", ");
                }
                out.append(x.as_str());
                first = false;
            },
            None => {},
        }
        i = i + 1;
    }
    out
}

/// Whether the search results at positions `ps` are exactly one record named
/// `t` up to case.
pub open spec fn positions_exact(recs: Seq<Substance>, ps: Seq<usize>, t: Seq<char>) -> bool {
    ps.len() == 1 && ps[0] < recs.len() && recs[ps[0] as int].name.is_some() && name_key(recs[ps[0] as int]) == lower_of(t)
}

/// Whether a record at one of the positions `ps` is named `n` up to case.
pub open spec fn positions_include(recs: Seq<Substance>, ps: Seq<usize>, n: Seq<char>) -> bool {
    exists|i: int| 0 <= i < ps.len() && ps[i] < recs.len() && (#[trigger] recs[ps[i] as int]).name.is_some()
        && name_key(recs[ps[i] as int]) == lower_of(n)
}

/// Whether searching `q` finds exactly one record, named `t` up to case.
pub open spec fn exact_ok(s: SubstanceSnapshot, q: Seq<char>, t: Seq<char>) -> bool {
    forall|ps: Seq<usize>| #[trigger] search_result(s.name_index(), s.alias_index(), s.records(), lower_of(q), ps)
        ==> positions_exact(s.records(), ps, t)
}

/// Whether searching `q` finds `e` and none of `excluded`, up to case.
pub open spec fn negative_ok(s: SubstanceSnapshot, q: Seq<char>, e: Seq<char>, excluded: Seq<String>) -> bool {
    forall|ps: Seq<usize>| #[trigger] search_result(s.name_index(), s.alias_index(), s.records(), lower_of(q), ps)
        ==> positions_include(s.records(), ps, e) && forall|j: int| 0 <= j < excluded.len()
            ==> !positions_include(s.records(), ps, #[trigger] excluded[j]@)
}

/// Whether the expected substance `n` is a canonical name of the snapshot.
pub open spec fn present(s: SubstanceSnapshot, n: Seq<char>) -> bool {
    s.name_index().contains_key(lower_of(n))
}

/// Number of the `queries` that do not find exactly `t`.
pub open spec fn exact_failures(s: SubstanceSnapshot, t: Seq<char>, queries: Seq<String>) -> nat
    decreases queries.len(),
{
    if queries.len() == 0 {
        0
    } else {
        exact_failures(s, t, queries.drop_last()) + if exact_ok(s, queries.last()@, t) {
            0nat
        } else {
            1nat
        }
    }
}

/// Number of failed exact-match assertions over the groups not skipped.
pub open spec fn group_failures(s: SubstanceSnapshot, groups: Seq<ExactMatchGroup>) -> nat
    decreases groups.len(),
{
    if groups.len() == 0 {
        0
    } else {
        group_failures(s, groups.drop_last()) + if present(s, groups.last().substance@) {
            exact_failures(s, groups.last().substance@, groups.last().queries@)
        } else {
            0nat
        }
    }
}

/// Number of failed negative tests over those not skipped.
pub open spec fn negative_failures(s: SubstanceSnapshot, tests: Seq<NegativeTest>) -> nat
    decreases tests.len(),
{
    if tests.len() == 0 {
        0
    } else {
        negative_failures(s, tests.drop_last()) + if present(s, tests.last().expected@) && !negative_ok(
            s,
            tests.last().query@,
            tests.last().expected@,
            tests.last().excluded@,
        ) {
            1nat
        } else {
            0nat
        }
    }
}

/// Two search results for the same query hold the same positions, as many.
proof fn lemma_search_results_agree(s: SubstanceSnapshot, q: Seq<char>, a: Seq<usize>, b: Seq<usize>)
    requires
        search_result(s.name_index(), s.alias_index(), s.records(), q, a),
        search_result(s.name_index(), s.alias_index(), s.records(), q, b),
    ensures
        a.len() == b.len(),
        forall|p: usize| a.contains(p) == b.contains(p),
{
    if q.len() == 0 || s.name_index().contains_key(q) || s.alias_index().contains_key(q) {
    } else {
        assert(a.to_set() =~= b.to_set());
        a.unique_seq_to_set();
        b.unique_seq_to_set();
    }
}

proof fn lemma_exact_check(s: SubstanceSnapshot, q: Seq<char>, t: Seq<char>, ps: Seq<usize>, r: Seq<&Substance>)
    requires
        search_result(s.name_index(), s.alias_index(), s.records(), lower_of(q), ps),
        records_at(s.records(), ps, r),
    ensures
        exact_match_holds(r, t) == exact_ok(s, q, t),
{
    assert(exact_match_holds(r, t) == positions_exact(s.records(), ps, t));
    assert forall|ps2: Seq<usize>| #[trigger] search_result(s.name_index(), s.alias_index(), s.records(), lower_of(q), ps2)
        implies positions_exact(s.records(), ps2, t) == positions_exact(s.records(), ps, t) by {
        lemma_search_results_agree(s, lower_of(q), ps, ps2);
        if ps.len() == 1 {
            assert(ps.contains(ps[0]));
            assert(ps2.contains(ps[0]));
        }
    }
}

proof fn lemma_negative_check(s: SubstanceSnapshot, q: Seq<char>, e: Seq<char>, excluded: Seq<String>, ps: Seq<usize>, r: Seq<&Substance>)
    requires
        search_result(s.name_index(), s.alias_index(), s.records(), lower_of(q), ps),
        records_at(s.records(), ps, r),
    ensures
        negative_holds(r, e, excluded) == negative_ok(s, q, e, excluded),
{
    assert forall|n: Seq<char>| names_include(r, n) == positions_include(s.records(), ps, n) by {
        if names_include(r, n) {
            let i = choose|i: int| 0 <= i < r.len() && (#[trigger] r[i]).name.is_some() && name_key(*r[i]) == lower_of(n);
            assert(*r[i] == s.records()[ps[i] as int]);
        }
        if positions_include(s.records(), ps, n) {
            let i = choose|i: int| 0 <= i < ps.len() && ps[i] < s.records().len() && (#[trigger] s.records()[ps[i] as int]).name.is_some()
                && name_key(s.records()[ps[i] as int]) == lower_of(n);
            assert(*r[i] == s.records()[ps[i] as int]);
        }
    }
    assert forall|ps2: Seq<usize>, n: Seq<char>| #[trigger] search_result(s.name_index(), s.alias_index(), s.records(), lower_of(q), ps2)
        implies #[trigger] positions_include(s.records(), ps2, n) == positions_include(s.records(), ps, n) by {
        lemma_search_results_agree(s, lower_of(q), ps, ps2);
        if positions_include(s.records(), ps, n) {
            let i = choose|i: int| 0 <= i < ps.len() && ps[i] < s.records().len() && (#[trigger] s.records()[ps[i] as int]).name.is_some()
                && name_key(s.records()[ps[i] as int]) == lower_of(n);
            assert(ps.contains(ps[i]));
            let k = choose|k: int| 0 <= k < ps2.len() && ps2[k] == ps[i];
            assert(s.records()[ps2[k] as int] == s.records()[ps[i] as int]);
        }
        if positions_include(s.records(), ps2, n) {
            let i = choose|i: int| 0 <= i < ps2.len() && ps2[i] < s.records().len() && (#[trigger] s.records()[ps2[i] as int]).name.is_some()
                && name_key(s.records()[ps2[i] as int]) == lower_of(n);
            assert(ps2.contains(ps2[i]));
            let k = choose|k: int| 0 <= k < ps.len() && ps[k] == ps2[i];
            assert(s.records()[ps[k] as int] == s.records()[ps2[i] as int]);
        }
    }
}

/// Number of queries over all exact-match groups.
pub open spec fn query_count(groups: Seq<ExactMatchGroup>) -> nat
    decreases groups.len(),
{
    if groups.len() == 0 {
        0
    } else {
        query_count(groups.drop_last()) + groups.last().queries@.len()
    }
}

/// Run the fixture against the snapshot. An exact-match group whose substance
/// is not a canonical name of the snapshot (up to case) is skipped, one skip
/// per query; so is a negative test whose expected substance is absent. Every
/// other query is one assertion, passed where `exact_match_passes` /
/// `negative_passes` holds of its search results.
pub fn run_self_test_at(snapshot: &SubstanceSnapshot, fixture: &SearchTestFixture, started_ms: u64, now_ms: u64) -> (r:
    SelfTestResult)
    requires
        snapshot.wf(),
        query_count(fixture.exact_match_tests@) + fixture.negative_tests@.len() <= usize::MAX,
    ensures
        r.passed + r.failed == r.total_assertions,
        r.failures@.len() == r.failed,
        r.total_assertions + r.skipped == query_count(fixture.exact_match_tests@) + fixture.negative_tests@.len(),
        r.failed == group_failures(*snapshot, fixture.exact_match_tests@) + negative_failures(*snapshot, fixture.negative_tests@),
        r.duration_ms == if now_ms >= started_ms {
            (now_ms - started_ms) as int
        } else {
            0
        },
{
    let mut total: usize = 0;
    let mut passed: usize = 0;
    let mut failed: usize = 0;
    let mut skipped: usize = 0;
    let mut failures: Vec<SelfTestFailure> = Vec::new();
    let groups = &fixture.exact_match_tests;
    let ghost limit = query_count(fixture.exact_match_tests@) + fixture.negative_tests@.len();
    let mut g: usize = 0;
    while g < groups.len()
        invariant
            snapshot.wf(),
            g <= groups@.len(),
            groups@ == fixture.exact_match_tests@,
            limit == query_count(groups@) + fixture.negative_tests@.len(),
            limit <= usize::MAX,
            passed + failed == total,
            failures@.len() == failed,
            total + skipped == query_count(groups@.subrange(0, g as int)),
            failed == group_failures(*snapshot, groups@.subrange(0, g as int)),
        decreases groups@.len() - g,
    {
        proof {
            assert(groups@.subrange(0, g + 1).drop_last() =~= groups@.subrange(0, g as int));
            lemma_query_count_prefix(groups@, g as int + 1);
        }
        let group = &groups[g];
        if snapshot.get_by_name(group.substance.as_str()).is_none() {
            skipped = skipped + group.queries.len();
        } else {
            let mut q: usize = 0;
            let ghost base = total + skipped;
            let ghost fbase = failed;
            while q < group.queries.len()
                invariant
                    snapshot.wf(),
                    q <= group.queries@.len(),
                    passed + failed == total,
                    failures@.len() == failed,
                    total + skipped == base + q,
                    base + group.queries@.len() <= usize::MAX,
                    failed == fbase + exact_failures(*snapshot, group.substance@, group.queries@.subrange(0, q as int)),
                decreases group.queries@.len() - q,
            {
                let query = &group.queries[q];
                let results = snapshot.search(query.as_str());
                proof {
                    assert(group.queries@.subrange(0, q + 1).drop_last() =~= group.queries@.subrange(0, q as int));
                    let ps = choose|ps: Seq<usize>| search_result(snapshot.name_index(), snapshot.alias_index(), snapshot.records(), lower_of(query@), ps)
                        && records_at(snapshot.records(), ps, results@);
                    lemma_exact_check(*snapshot, query@, group.substance@, ps, results@);
                }
                total = total + 1;
                if exact_match_passes(&results, &group.substance) {
                    passed = passed + 1;
                } else {
                    failed = failed + 1;
                    failures.push(SelfTestFailure {
                        test_type: String::from_str("exact_match"),
                        query: query.clone(),
                        expected: group.substance.clone(),
                        actual: joined_names(&results),
                    });
                }
                q = q + 1;
            }
            proof {
                assert(group.queries@.subrange(0, group.queries@.len() as int) =~= group.queries@);
            }
        }
        g = g + 1;
    }
    proof {
        assert(groups@.subrange(0, groups@.len() as int) =~= groups@);
    }
    let negs = &fixture.negative_tests;
    let mut t: usize = 0;
    while t < negs.len()
        invariant
            snapshot.wf(),
            t <= negs@.len(),
            negs@ == fixture.negative_tests@,
            limit == query_count(fixture.exact_match_tests@) + negs@.len(),
            limit <= usize::MAX,
            passed + failed == total,
            failures@.len() == failed,
            total + skipped == query_count(fixture.exact_match_tests@) + t,
            failed == group_failures(*snapshot, fixture.exact_match_tests@) + negative_failures(*snapshot, negs@.subrange(0, t as int)),
        decreases negs@.len() - t,
    {
        let neg = &negs[t];
        proof {
            assert(negs@.subrange(0, t + 1).drop_last() =~= negs@.subrange(0, t as int));
        }
        if snapshot.get_by_name(neg.expected.as_str()).is_none() {
            skipped = skipped + 1;
        } else {
            total = total + 1;
            let results = snapshot.search(neg.query.as_str());
            proof {
                let ps = choose|ps: Seq<usize>| search_result(snapshot.name_index(), snapshot.alias_index(), snapshot.records(), lower_of(neg.query@), ps)
                    && records_at(snapshot.records(), ps, results@);
                lemma_negative_check(*snapshot, neg.query@, neg.expected@, neg.excluded@, ps, results@);
            }
            if negative_passes(&results, &neg.expected, &neg.excluded) {
                passed = passed + 1;
            } else {
                failed = failed + 1;
                failures.push(SelfTestFailure {
                    test_type: String::from_str("negative_exclusion"),
                    query: neg.query.clone(),
                    expected: neg.expected.clone(),
                    actual: joined_names(&results),
                });
            }
        }
        t = t + 1;
    }
    proof {
        assert(negs@.subrange(0, negs@.len() as int) =~= negs@);
    }
    SelfTestResult {
        total_assertions: total,
        passed,
        failed,
        skipped,
        failures,
        duration_ms: now_ms.saturating_sub(started_ms),
    }
}

/// Run the fixture against the snapshot, timing the run with the clock.
pub fn run_self_test(snapshot: &SubstanceSnapshot, fixture: &SearchTestFixture) -> (r: SelfTestResult)
    requires
        snapshot.wf(),
        query_count(fixture.exact_match_tests@) + fixture.negative_tests@.len() <= usize::MAX,
    ensures
        r.passed + r.failed == r.total_assertions,
        r.failures@.len() == r.failed,
        r.total_assertions + r.skipped == query_count(fixture.exact_match_tests@) + fixture.negative_tests@.len(),
        r.failed == group_failures(*snapshot, fixture.exact_match_tests@) + negative_failures(*snapshot, fixture.negative_tests@),
{
    let started = now_ms();
    let ended = now_ms();
    run_self_test_at(snapshot, fixture, started, ended)
}

proof fn lemma_query_count_prefix(groups: Seq<ExactMatchGroup>, g: int)
    requires
        0 <= g <= groups.len(),
    ensures
        query_count(groups.subrange(0, g)) <= query_count(groups),
    decreases groups.len() - g,
{
    if g < groups.len() {
        lemma_query_count_prefix(groups, g + 1);
        assert(groups.subrange(0, g + 1).drop_last() =~= groups.subrange(0, g));
    } else {
        assert(groups.subrange(0, g) =~= groups);
    }
}

} // verus!
