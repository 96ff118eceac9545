//! Session insights: facets enriched with git context, aggregated into counts.
//!
//! Reading the facet files and the session logs is the application's part;
//! it hands over the facets and, per session, the git context it found.
use vstd::prelude::*;
use crate::paths::{file_name_of, path_file_name};
use crate::rules::opt_view;
use crate::text::{owned, str_eq};

verus! {

/// Counts keyed by name, each name at most once.
pub type Counts = Vec<(String, u64)>;

/// One session's facet record.
#[derive(Debug, Clone)]
pub struct FacetRecord {
    pub session_id: String,
    pub underlying_goal: Option<String>,
    pub goal_categories: Counts,
    pub outcome: Option<String>,
    pub user_satisfaction_counts: Counts,
    pub claude_helpfulness: Option<String>,
    pub session_type: Option<String>,
    pub friction_counts: Counts,
    pub friction_detail: Option<String>,
    pub primary_success: Option<String>,
    pub brief_summary: Option<String>,
}

/// Where a session ran.
#[derive(Debug, Clone)]
pub struct GitContext {
    pub repo: String,
    pub cwd: String,
    pub branch: Option<String>,
    pub timestamp: Option<String>,
}

/// A facet with the git context of its session, when known.
#[derive(Debug, Clone)]
pub struct EnrichedFacet {
    pub facet: FacetRecord,
    pub git: Option<GitContext>,
}

/// Aggregated counts over facets.
#[derive(Debug, Clone)]
pub struct InsightsReport {
    pub total: usize,
    pub outcomes: Counts,
    pub helpfulness: Counts,
    pub session_types: Counts,
    pub friction: Counts,
    pub goal_categories: Counts,
    /// The ten most frequent repositories, most frequent first.
    pub top_repos: Counts,
    /// The ten most frequent branches, most frequent first.
    pub top_branches: Counts,
    /// Sessions with git context.
    pub git_enriched: usize,
}

/// The short repository name of a working directory: its last component,
/// or the whole path when it has none.
pub open spec fn repo_name(cwd: Seq<char>) -> Seq<char> {
    match path_file_name(cwd) {
        Some(n) => n,
        None => cwd,
    }
}

pub fn repo_name_from_cwd(cwd: &str) -> (r: String)
    ensures
        r@ == repo_name(cwd@),
{
    match file_name_of(cwd) {
        Some(n) => n,
        None => owned(cwd),
    }
}

/// The git context read from the first line of a session log.
pub fn git_context(cwd: Option<String>, branch: Option<String>, timestamp: Option<String>) -> (g: GitContext)
    ensures
        g.cwd@ == match cwd {
            Some(c) => c@,
            None => Seq::<char>::empty(),
        },
        g.repo@ == repo_name(g.cwd@),
        g.branch == branch,
        g.timestamp == timestamp,
{
    let cwd = match cwd {
        Some(c) => c,
        None => String::new(),
    };
    let repo = repo_name_from_cwd(cwd.as_str());
    GitContext { repo, cwd, branch, timestamp }
}

// ---------------------------------------------------------------------------
// Counts as maps
// ---------------------------------------------------------------------------

pub open spec fn counts_map(c: Seq<(String, u64)>) -> Map<Seq<char>, nat>
    decreases c.len(),
{
    if c.len() == 0 {
        Map::empty()
    } else {
        counts_map(c.drop_last()).insert(c.last().0@, c.last().1 as nat)
    }
}

pub open spec fn names_distinct(c: Seq<(String, u64)>) -> bool {
    forall|i: int, j: int| 0 <= i < j < c.len() ==> c[i].0@ != c[j].0@
}

/// `m` with `n` added to `k`'s count.
pub open spec fn add_to(m: Map<Seq<char>, nat>, k: Seq<char>, n: nat) -> Map<Seq<char>, nat> {
    m.insert(k, (if m.contains_key(k) { m[k] } else { 0 }) + n)
}

proof fn lemma_counts_map_lookup(c: Seq<(String, u64)>, i: int)
    requires
        names_distinct(c),
        0 <= i < c.len(),
    ensures
        counts_map(c).contains_key(c[i].0@),
        counts_map(c)[c[i].0@] == c[i].1 as nat,
    decreases c.len(),
{
    if i < c.len() - 1 {
        lemma_counts_map_lookup(c.drop_last(), i);
    }
}

proof fn lemma_counts_map_absent(c: Seq<(String, u64)>, k: Seq<char>)
    requires
        forall|i: int| 0 <= i < c.len() ==> c[i].0@ != k,
    ensures
        !counts_map(c).contains_key(k),
    decreases c.len(),
{
    if c.len() > 0 {
        lemma_counts_map_absent(c.drop_last(), k);
    }
}

proof fn lemma_counts_map_update(c: Seq<(String, u64)>, i: int, v: u64)
    requires
        names_distinct(c),
        0 <= i < c.len(),
    ensures
        counts_map(c.update(i, (c[i].0, v))) == counts_map(c).insert(c[i].0@, v as nat),
    decreases c.len(),
{
    let d = c.update(i, (c[i].0, v));
    if i == c.len() - 1 {
        assert(d.drop_last() == c.drop_last());
        lemma_counts_map_absent(c.drop_last(), c[i].0@);
        assert(counts_map(d) =~= counts_map(c).insert(c[i].0@, v as nat));
    } else {
        lemma_counts_map_update(c.drop_last(), i, v);
        assert(d.drop_last() == c.drop_last().update(i, (c[i].0, v)));
        assert(counts_map(d) =~= counts_map(c).insert(c[i].0@, v as nat));
    }
}

/// Add `n` to the count of `key`.
pub fn bump(c: &mut Counts, key: &String, n: u64)
    requires
        names_distinct(old(c)@),
        counts_map(old(c)@).contains_key(key@) ==> counts_map(old(c)@)[key@] + n <= u64::MAX,
    ensures
        names_distinct(final(c)@),
        counts_map(final(c)@) == add_to(counts_map(old(c)@), key@, n as nat),
{
    let mut i: usize = 0;
    while i < c.len()
        invariant
            c@ == old(c)@,
            names_distinct(c@),
            counts_map(c@).contains_key(key@) ==> counts_map(c@)[key@] + n <= u64::MAX,
            i <= c@.len(),
            forall|j: int| 0 <= j < i ==> c@[j].0@ != key@,
        decreases c.len() - i,
    {
        if str_eq(c[i].0.as_str(), key.as_str()) {
            proof { lemma_counts_map_lookup(c@, i as int); }
            let v = c[i].1 + n;
            let name = c[i].0.clone();
            let ghost before = c@;
            c.set(i, (name, v));
            proof {
                assert(c@ == before.update(i as int, (before[i as int].0, v)));
                lemma_counts_map_update(before, i as int, v);
                assert(names_distinct(c@));
            }
            return;
        }
        i += 1;
    }
    proof { lemma_counts_map_absent(c@, key@); }
    let ghost before = c@;
    c.push((key.clone(), n));
    proof {
        assert(c@.drop_last() == before);
        assert(names_distinct(c@));
    }
}

// ---------------------------------------------------------------------------
// Aggregation
// ---------------------------------------------------------------------------

/// How many of the values are `Some(k)`, per `k`.
pub open spec fn tally_opt(vals: Seq<Option<String>>) -> Map<Seq<char>, nat>
    decreases vals.len(),
{
    if vals.len() == 0 {
        Map::empty()
    } else {
        let m = tally_opt(vals.drop_last());
        match vals.last() {
            Some(k) => add_to(m, k@, 1),
            None => m,
        }
    }
}

/// The sum of the count lists, key by key.
pub open spec fn sum_counts(m: Map<Seq<char>, nat>, c: Seq<(String, u64)>) -> Map<Seq<char>, nat>
    decreases c.len(),
{
    if c.len() == 0 {
        m
    } else {
        add_to(sum_counts(m, c.drop_last()), c.last().0@, c.last().1 as nat)
    }
}

pub open spec fn sum_all(cs: Seq<Seq<(String, u64)>>) -> Map<Seq<char>, nat>
    decreases cs.len(),
{
    if cs.len() == 0 {
        Map::empty()
    } else {
        sum_counts(sum_all(cs.drop_last()), cs.last())
    }
}

pub open spec fn outcomes_of(f: Seq<EnrichedFacet>) -> Seq<Option<String>> {
    f.map_values(|e: EnrichedFacet| e.facet.outcome)
}

pub open spec fn helpfulness_of(f: Seq<EnrichedFacet>) -> Seq<Option<String>> {
    f.map_values(|e: EnrichedFacet| e.facet.claude_helpfulness)
}

pub open spec fn session_types_of(f: Seq<EnrichedFacet>) -> Seq<Option<String>> {
    f.map_values(|e: EnrichedFacet| e.facet.session_type)
}

pub open spec fn repos_of(f: Seq<EnrichedFacet>) -> Seq<Option<String>> {
    f.map_values(|e: EnrichedFacet| match e.git {
        Some(g) => Some(g.repo),
        None => None,
    })
}

pub open spec fn branches_of(f: Seq<EnrichedFacet>) -> Seq<Option<String>> {
    f.map_values(|e: EnrichedFacet| match e.git {
        Some(g) => g.branch,
        None => None,
    })
}

pub open spec fn friction_of(f: Seq<EnrichedFacet>) -> Seq<Seq<(String, u64)>> {
    f.map_values(|e: EnrichedFacet| e.facet.friction_counts@)
}

pub open spec fn goals_of(f: Seq<EnrichedFacet>) -> Seq<Seq<(String, u64)>> {
    f.map_values(|e: EnrichedFacet| e.facet.goal_categories@)
}

pub open spec fn enriched_count(f: Seq<EnrichedFacet>) -> nat
    decreases f.len(),
{
    if f.len() == 0 {
        0
    } else {
        enriched_count(f.drop_last()) + (if f.last().git is Some { 1nat } else { 0nat })
    }
}

/// Whether every per-key friction and goal sum fits in 64 bits.
pub open spec fn sums_fit(f: Seq<EnrichedFacet>) -> bool {
    &&& forall|n: int, k: Seq<char>| 0 <= n <= f.len() && sum_all(friction_of(f.take(n))).contains_key(k)
        ==> #[trigger] sum_all(friction_of(f.take(n)))[k] <= u64::MAX
    &&& forall|n: int, k: Seq<char>| 0 <= n <= f.len() && sum_all(goals_of(f.take(n))).contains_key(k)
        ==> #[trigger] sum_all(goals_of(f.take(n)))[k] <= u64::MAX
}

proof fn lemma_add_to_mono(m: Map<Seq<char>, nat>, k: Seq<char>, n: nat, q: Seq<char>)
    requires
        m.contains_key(q),
    ensures
        add_to(m, k, n).contains_key(q),
        m[q] <= add_to(m, k, n)[q],
{
}

/// Partial sums never exceed the whole: adding counts only grows them.
proof fn lemma_sum_counts_prefix(m: Map<Seq<char>, nat>, c: Seq<(String, u64)>, j: int, q: Seq<char>)
    requires
        0 <= j <= c.len(),
        sum_counts(m, c.take(j)).contains_key(q),
    ensures
        sum_counts(m, c).contains_key(q),
        sum_counts(m, c.take(j))[q] <= sum_counts(m, c)[q],
    decreases c.len() - j,
{
    if j < c.len() {
        let t = c.take(j + 1);
        assert(t.drop_last() == c.take(j));
        lemma_add_to_mono(sum_counts(m, c.take(j)), t.last().0@, t.last().1 as nat, q);
        lemma_sum_counts_prefix(m, c, j + 1, q);
    } else {
        assert(c.take(j) == c);
    }
}

/// Add every count of `src` into `target`.
fn add_all(target: &mut Counts, src: &Counts)
    requires
        names_distinct(old(target)@),
        forall|q: Seq<char>| #[trigger] sum_counts(counts_map(old(target)@), src@).contains_key(q)
            ==> sum_counts(counts_map(old(target)@), src@)[q] <= u64::MAX,
    ensures
        names_distinct(final(target)@),
        counts_map(final(target)@) == sum_counts(counts_map(old(target)@), src@),
{
    let ghost m0 = counts_map(target@);
    let mut j: usize = 0;
    proof { assert(src@.take(0) == Seq::<(String, u64)>::empty()); }
    while j < src.len()
        invariant
            j <= src@.len(),
            names_distinct(target@),
            counts_map(target@) == sum_counts(m0, src@.take(j as int)),
            forall|q: Seq<char>| #[trigger] sum_counts(m0, src@).contains_key(q) ==> sum_counts(m0, src@)[q] <= u64::MAX,
        decreases src.len() - j,
    {
        let ghost t = src@.take(j + 1);
        proof {
            assert(t.drop_last() == src@.take(j as int));
            assert(t.last() == src@[j as int]);
            let k = src@[j as int].0@;
            let cur = counts_map(target@);
            if cur.contains_key(k) {
                let after = add_to(cur, k, src@[j as int].1 as nat);
                assert(sum_counts(m0, t) == after);
                lemma_sum_counts_prefix(m0, src@, j + 1, k);
            }
        }
        bump(target, &src[j].0, src[j].1);
        j += 1;
    }
    proof { assert(src@.take(src@.len() as int) == src@); }
}

pub open spec fn sorted_desc(s: Seq<(String, u64)>) -> bool {
    forall|i: int, j: int| 0 <= i < j < s.len() ==> s[i].1 >= s[j].1
}

/// The counts ordered largest first; equal counts keep their order.
pub fn sort_by_count(all: Counts) -> (r: Counts)
    ensures
        r@.to_multiset() == all@.to_multiset(),
        sorted_desc(r@),
{
    broadcast use vstd::seq_lib::group_to_multiset_ensures;
    let mut out: Counts = Vec::new();
    let mut src = all;
    let ghost orig = src@;
    let ghost mut done: int = 0;
    proof { assert(orig.take(0) =~= Seq::<(String, u64)>::empty()); }
    while src.len() > 0
        invariant
            0 <= done <= orig.len(),
            src@ == orig.skip(done),
            out@.to_multiset() == orig.take(done).to_multiset(),
            sorted_desc(out@),
        decreases src.len(),
    {
        let e = src.remove(0);
        let mut p: usize = 0;
        while p < out.len() && out[p].1 >= e.1
            invariant
                p <= out@.len(),
                forall|i: int| 0 <= i < p ==> out@[i].1 >= e.1,
            decreases out.len() - p,
        {
            p += 1;
        }
        proof {
            assert(e == orig[done]);
            assert(orig.take(done + 1) == orig.take(done).push(e));
            vstd::seq_lib::to_multiset_insert(out@, p as int, e);
        }
        let ghost before = out@;
        out.insert(p, e);
        proof {
            assert(out@ == before.insert(p as int, e));
            assert forall|i: int, j: int| 0 <= i < j < out@.len() implies out@[i].1 >= out@[j].1 by {
                if j < p {
                } else if j == p {
                } else if i < p {
                    if p < before.len() {
                        assert(before[p as int].1 < e.1);
                    }
                } else if i == p {
                    assert(before[p as int].1 < e.1);
                    assert(before[p as int].1 >= before[j - 1].1);
                } else {
                }
            }
            assert(out@.to_multiset() == before.to_multiset().insert(e));
            vstd::seq_lib::to_multiset_build(orig.take(done), e);
            assert(out@.to_multiset() == orig.take(done + 1).to_multiset());
            done = done + 1;
            assert(src@ =~= orig.skip(done));
        }
    }
    proof { assert(orig.take(done) == orig); }
    out
}

/// The `limit` largest counts, largest first.
pub open spec fn top_list(top: Seq<(String, u64)>, all: Seq<(String, u64)>, limit: nat) -> bool {
    exists|s: Seq<(String, u64)>| s.to_multiset() == all.to_multiset() && sorted_desc(s)
        && top == s.take(if s.len() < limit { s.len() as int } else { limit as int })
}

pub fn sorted_top(all: Counts, limit: usize) -> (r: Counts)
    ensures
        top_list(r@, all@, limit as nat),
{
    let mut s = sort_by_count(all);
    let ghost full = s@;
    if s.len() > limit {
        s.truncate(limit);
    }
    proof {
        assert(s@ == full.take(if full.len() < limit { full.len() as int } else { limit as int }));
    }
    s
}

proof fn lemma_tally_bound(vals: Seq<Option<String>>, k: Seq<char>)
    ensures
        tally_opt(vals).contains_key(k) ==> tally_opt(vals)[k] <= vals.len(),
    decreases vals.len(),
{
    if vals.len() > 0 {
        lemma_tally_bound(vals.drop_last(), k);
    }
}

/// Count one more occurrence of `v` when it is present.
fn tally_one(c: &mut Counts, v: &Option<String>, Ghost(vals): Ghost<Seq<Option<String>>>)
    requires
        names_distinct(old(c)@),
        counts_map(old(c)@) == tally_opt(vals),
        vals.len() < u64::MAX,
    ensures
        names_distinct(final(c)@),
        counts_map(final(c)@) == tally_opt(vals.push(*v)),
{
    proof {
        assert(vals.push(*v).drop_last() == vals);
    }
    match v {
        Some(k) => {
            proof { lemma_tally_bound(vals, k@); }
            bump(c, k, 1);
        },
        None => {},
    }
}

/// Aggregate enriched facets into a report.
pub fn aggregate(facets: &[EnrichedFacet]) -> (r: InsightsReport)
    requires
        sums_fit(facets@),
    ensures
        r.total == facets@.len(),
        counts_map(r.outcomes@) == tally_opt(outcomes_of(facets@)),
        counts_map(r.helpfulness@) == tally_opt(helpfulness_of(facets@)),
        counts_map(r.session_types@) == tally_opt(session_types_of(facets@)),
        counts_map(r.friction@) == sum_all(friction_of(facets@)),
        counts_map(r.goal_categories@) == sum_all(goals_of(facets@)),
        r.git_enriched == enriched_count(facets@),
        exists|all: Seq<(String, u64)>| names_distinct(all) && counts_map(all) == tally_opt(repos_of(facets@))
            && #[trigger] top_list(r.top_repos@, all, 10),
        exists|all: Seq<(String, u64)>| names_distinct(all) && counts_map(all) == tally_opt(branches_of(facets@))
            && #[trigger] top_list(r.top_branches@, all, 10),
{
    let mut outcomes: Counts = Vec::new();
    let mut helpfulness: Counts = Vec::new();
    let mut session_types: Counts = Vec::new();
    let mut friction: Counts = Vec::new();
    let mut goals: Counts = Vec::new();
    let mut repos: Counts = Vec::new();
    let mut branches: Counts = Vec::new();
    let mut git_enriched: usize = 0;
    let ghost f = facets@;
    proof {
        assert(f.take(0) =~= Seq::<EnrichedFacet>::empty());
        assert(counts_map(outcomes@) =~= Map::<Seq<char>, nat>::empty());
    }
    let mut i: usize = 0;
    while i < facets.len()
        invariant
            f == facets@,
            sums_fit(f),
            i <= f.len(),
            names_distinct(outcomes@),
            names_distinct(helpfulness@),
            names_distinct(session_types@),
            names_distinct(friction@),
            names_distinct(goals@),
            names_distinct(repos@),
            names_distinct(branches@),
            counts_map(outcomes@) == tally_opt(outcomes_of(f.take(i as int))),
            counts_map(helpfulness@) == tally_opt(helpfulness_of(f.take(i as int))),
            counts_map(session_types@) == tally_opt(session_types_of(f.take(i as int))),
            counts_map(friction@) == sum_all(friction_of(f.take(i as int))),
            counts_map(goals@) == sum_all(goals_of(f.take(i as int))),
            counts_map(repos@) == tally_opt(repos_of(f.take(i as int))),
            counts_map(branches@) == tally_opt(branches_of(f.take(i as int))),
            git_enriched == enriched_count(f.take(i as int)),
            git_enriched <= i,
        decreases facets.len() - i,
    {
        let ef = &facets[i];
        let ghost t = f.take(i + 1);
        let ghost p = f.take(i as int);
        proof {
            assert(t.drop_last() == p);
            assert(t.last() == ef);
            assert(outcomes_of(t) == outcomes_of(p).push(ef.facet.outcome));
            assert(helpfulness_of(t) == helpfulness_of(p).push(ef.facet.claude_helpfulness));
            assert(session_types_of(t) == session_types_of(p).push(ef.facet.session_type));
            assert(friction_of(t).drop_last() == friction_of(p));
            assert(goals_of(t).drop_last() == goals_of(p));
            assert(friction_of(t).last() == ef.facet.friction_counts@);
            assert(goals_of(t).last() == ef.facet.goal_categories@);
            assert(repos_of(t).drop_last() == repos_of(p));
            assert(branches_of(t).drop_last() == branches_of(p));
        }
        tally_one(&mut outcomes, &ef.facet.outcome, Ghost(outcomes_of(p)));
        tally_one(&mut helpfulness, &ef.facet.claude_helpfulness, Ghost(helpfulness_of(p)));
        tally_one(&mut session_types, &ef.facet.session_type, Ghost(session_types_of(p)));
        proof {
            assert forall|q: Seq<char>| #[trigger] sum_counts(counts_map(friction@), ef.facet.friction_counts@).contains_key(q)
                implies sum_counts(counts_map(friction@), ef.facet.friction_counts@)[q] <= u64::MAX by {
                assert(sum_all(friction_of(f.take(i + 1))).contains_key(q));
            }
            assert forall|q: Seq<char>| #[trigger] sum_counts(counts_map(goals@), ef.facet.goal_categories@).contains_key(q)
                implies sum_counts(counts_map(goals@), ef.facet.goal_categories@)[q] <= u64::MAX by {
                assert(sum_all(goals_of(f.take(i + 1))).contains_key(q));
            }
        }
        add_all(&mut friction, &ef.facet.friction_counts);
        add_all(&mut goals, &ef.facet.goal_categories);
        match &ef.git {
            Some(g) => {
                git_enriched = git_enriched + 1;
                let some_repo = Some(g.repo.clone());
                proof {
                    assert(repos_of(t).last() == some_repo);
                    assert(repos_of(t) =~= repos_of(p).push(some_repo));
                    assert(branches_of(t).last() == g.branch);
                    assert(branches_of(t) =~= branches_of(p).push(g.branch));
                }
                tally_one(&mut repos, &some_repo, Ghost(repos_of(p)));
                tally_one(&mut branches, &g.branch, Ghost(branches_of(p)));
            },
            None => {
                let none: Option<String> = None;
                proof {
                    assert(repos_of(t).last() == none);
                    assert(branches_of(t).last() == none);
                    assert(repos_of(t) =~= repos_of(p).push(none));
                    assert(branches_of(t) =~= branches_of(p).push(none));
                }
                tally_one(&mut repos, &none, Ghost(repos_of(p)));
                tally_one(&mut branches, &none, Ghost(branches_of(p)));
            },
        }
        i += 1;
    }
    proof { assert(f.take(f.len() as int) == f); }
    let ghost repos_all = repos@;
    let ghost branches_all = branches@;
    let top_repos = sorted_top(repos, 10);
    let top_branches = sorted_top(branches, 10);
    proof {
        assert(top_list(top_repos@, repos_all, 10));
        assert(top_list(top_branches@, branches_all, 10));
        assert(names_distinct(repos_all) && counts_map(repos_all) == tally_opt(repos_of(facets@)));
        assert(names_distinct(branches_all) && counts_map(branches_all) == tally_opt(branches_of(facets@)));
    }
    let r = InsightsReport {
        total: facets.len(),
        outcomes,
        helpfulness,
        session_types,
        friction,
        goal_categories: goals,
        top_repos,
        top_branches,
        git_enriched,
    };
    proof {
        assert(top_list(r.top_repos@, repos_all, 10));
        assert(top_list(r.top_branches@, branches_all, 10));
    }
    r
}

/// The git context known for a session.
pub open spec fn context_for(contexts: Seq<(String, GitContext)>, session: Seq<char>) -> Option<GitContext>
    decreases contexts.len(),
{
    if contexts.len() == 0 {
        None
    } else if contexts[0].0@ == session {
        Some(contexts[0].1)
    } else {
        context_for(contexts.drop_first(), session)
    }
}

fn copy_context(g: &GitContext) -> (c: GitContext)
    ensures
        c == *g,
{
    GitContext {
        repo: g.repo.clone(),
        cwd: g.cwd.clone(),
        branch: crate::rules::copy_opt_string(&g.branch),
        timestamp: crate::rules::copy_opt_string(&g.timestamp),
    }
}

fn find_context(contexts: &Vec<(String, GitContext)>, session: &String) -> (r: Option<GitContext>)
    ensures
        r == context_for(contexts@, session@),
{
    let mut i: usize = 0;
    proof { assert(contexts@.skip(0) == contexts@); }
    while i < contexts.len()
        invariant
            i <= contexts@.len(),
            context_for(contexts@, session@) == context_for(contexts@.skip(i as int), session@),
        decreases contexts.len() - i,
    {
        proof {
            assert(contexts@.skip(i as int)[0] == contexts@[i as int]);
            assert(contexts@.skip(i as int).drop_first() == contexts@.skip(i + 1));
        }
        if str_eq(contexts[i].0.as_str(), session.as_str()) {
            return Some(copy_context(&contexts[i].1));
        }
        i += 1;
    }
    None
}

/// Attach to each facet the git context known for its session (the first
/// one listed for it), in order.
pub fn enrich(facets: Vec<FacetRecord>, contexts: &Vec<(String, GitContext)>) -> (r: Vec<EnrichedFacet>)
    ensures
        r@.len() == facets@.len(),
        forall|i: int| 0 <= i < r@.len() ==> (#[trigger] r@[i]).facet == facets@[i]
            && r@[i].git == context_for(contexts@, facets@[i].session_id@),
{
    let mut out: Vec<EnrichedFacet> = Vec::new();
    let mut src = facets;
    let ghost orig = src@;
    let ghost mut k: int = 0;
    while src.len() > 0
        invariant
            0 <= k <= orig.len(),
            src@ == orig.skip(k),
            out@.len() == k,
            forall|i: int| 0 <= i < k ==> (#[trigger] out@[i]).facet == orig[i]
                && out@[i].git == context_for(contexts@, orig[i].session_id@),
        decreases src.len(),
    {
        let f = src.remove(0);
        proof { assert(f == orig[k]); }
        let git = find_context(contexts, &f.session_id);
        out.push(EnrichedFacet { facet: f, git });
        proof {
            k = k + 1;
            assert(src@ =~= orig.skip(k));
        }
    }
    out
}

} // verus!
