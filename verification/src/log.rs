//! The hook execution log: entries built from pipeline results, and the
//! selection of entries that a query returns. The database itself is kept by
//! the application, which hands the rows over newest first.
use vstd::prelude::*;
use crate::clock::now_ns;
use crate::hooks::{HookContext, HookEvent, PipelineResult};
use crate::rules::{opt_view, seq_views};
use crate::text::{contains_str, owned, str_eq, has_substring, lowercase, to_lowercase};

verus! {

/// The final outcome of one pipeline evaluation.
#[derive(Debug, Clone, PartialEq, Eq)]
pub enum Outcome {
    Pass,
    Deny { message: String },
    Rewrite { to: String },
    SideEffect { commands_run: usize },
    Notify { count: usize },
}

/// One hook execution log entry.
#[derive(Debug, Clone)]
pub struct LogEntry {
    /// Nanoseconds since the epoch.
    pub timestamp: u64,
    pub event: String,
    pub tool_name: Option<String>,
    pub target: Option<String>,
    pub exit_code: Option<i64>,
    /// Rules that matched (by label or index).
    pub matched_rules: Vec<String>,
    pub outcome: Outcome,
}

/// The name an event is logged under (its variant name).
pub open spec fn event_name(e: HookEvent) -> Seq<char> {
    match e {
        HookEvent::PreToolUse => "PreToolUse"@,
        HookEvent::PostToolUse => "PostToolUse"@,
        HookEvent::SessionStart => "SessionStart"@,
        HookEvent::SessionEnd => "SessionEnd"@,
        HookEvent::PreCompact => "PreCompact"@,
        HookEvent::Stop => "Stop"@,
        HookEvent::SubagentStop => "SubagentStop"@,
    }
}

fn event_name_exec(e: HookEvent) -> (s: String)
    ensures
        s@ == event_name(e),
{
    proof {
        reveal_strlit("PreToolUse");
        reveal_strlit("PostToolUse");
        reveal_strlit("SessionStart");
        reveal_strlit("SessionEnd");
        reveal_strlit("PreCompact");
        reveal_strlit("Stop");
        reveal_strlit("SubagentStop");
    }
    match e {
        HookEvent::PreToolUse => owned("PreToolUse"),
        HookEvent::PostToolUse => owned("PostToolUse"),
        HookEvent::SessionStart => owned("SessionStart"),
        HookEvent::SessionEnd => owned("SessionEnd"),
        HookEvent::PreCompact => owned("PreCompact"),
        HookEvent::Stop => owned("Stop"),
        HookEvent::SubagentStop => owned("SubagentStop"),
    }
}

/// The outcome of a result: its deny, else its rewrite, else the number of
/// its messages when there are any, else a pass.
pub open spec fn outcome_of(o: Outcome, r: PipelineResult) -> bool {
    match r.deny {
        Some(m) => o matches Outcome::Deny { message } && message@ == m@,
        None => match r.rewrite {
            Some(t) => o matches Outcome::Rewrite { to } && to@ == t@,
            None => if r.messages@.len() > 0 {
                o == Outcome::Notify { count: r.messages@.len() as usize }
            } else {
                o == Outcome::Pass
            },
        },
    }
}

/// The entry logged for a pipeline evaluation at `timestamp`.
pub open spec fn entry_is(e: LogEntry, ctx: HookContext, r: PipelineResult, labels: Seq<Seq<char>>, timestamp: u64) -> bool {
    &&& e.timestamp == timestamp
    &&& e.event@ == match ctx.event {
        Some(ev) => event_name(ev),
        None => "unknown"@,
    }
    &&& opt_view(e.tool_name) == opt_view(ctx.tool_name)
    &&& opt_view(e.target) == opt_view(ctx.target)
    &&& e.exit_code == ctx.exit_code
    &&& seq_views(e.matched_rules@) == labels
    &&& outcome_of(e.outcome, r)
}

fn copy_opt(o: &Option<String>) -> (r: Option<String>)
    ensures
        r == *o,
{
    match o {
        Some(s) => Some(s.clone()),
        None => None,
    }
}

/// Build the log entry of a pipeline evaluation made at `timestamp` (ns).
pub fn entry_from_pipeline_at(ctx: &HookContext, result: &PipelineResult, matched_labels: Vec<String>, timestamp: u64) -> (e: LogEntry)
    ensures
        entry_is(e, *ctx, *result, seq_views(matched_labels@), timestamp),
{
    proof { reveal_strlit("unknown"); }
    let outcome = match &result.deny {
        Some(msg) => Outcome::Deny { message: msg.clone() },
        None => match &result.rewrite {
            Some(to) => Outcome::Rewrite { to: to.clone() },
            None => if result.messages.len() > 0 {
                Outcome::Notify { count: result.messages.len() }
            } else {
                Outcome::Pass
            },
        },
    };
    let event = match ctx.event {
        Some(e) => event_name_exec(e),
        None => owned("unknown"),
    };
    LogEntry {
        timestamp,
        event,
        tool_name: copy_opt(&ctx.tool_name),
        target: copy_opt(&ctx.target),
        exit_code: ctx.exit_code,
        matched_rules: matched_labels,
        outcome,
    }
}

/// Build the log entry of a pipeline evaluation made now.
pub fn entry_from_pipeline(ctx: &HookContext, result: &PipelineResult, matched_labels: Vec<String>) -> (e: LogEntry)
    ensures
        exists|t: u64| entry_is(e, *ctx, *result, seq_views(matched_labels@), t),
{
    entry_from_pipeline_at(ctx, result, matched_labels, now_ns())
}

/// Options for reading log entries.
#[derive(Debug, Clone)]
pub struct LogQuery {
    /// Only entries after this timestamp (ns).
    pub after: Option<u64>,
    /// Only entries before this timestamp (ns).
    pub before: Option<u64>,
    /// Only entries whose event contains this, ignoring case.
    pub event: Option<String>,
    /// Only entries with this outcome kind.
    pub outcome_kind: Option<String>,
    /// Most entries returned (0: 100).
    pub limit: usize,
}

impl Default for LogQuery {
    fn default() -> (q: Self)
        ensures
            q.after is None,
            q.before is None,
            q.event is None,
            q.outcome_kind is None,
            q.limit == 0,
    {
        LogQuery { after: None, before: None, event: None, outcome_kind: None, limit: 0 }
    }
}

/// The kind name of an outcome.
pub open spec fn kind_name(o: Outcome) -> Seq<char> {
    match o {
        Outcome::Pass => "pass"@,
        Outcome::Deny { .. } => "deny"@,
        Outcome::Rewrite { .. } => "rewrite"@,
        Outcome::SideEffect { .. } => "side-effect"@,
        Outcome::Notify { .. } => "notify"@,
    }
}

fn kind_name_exec(o: &Outcome) -> (s: &'static str)
    ensures
        s@ == kind_name(*o),
{
    proof {
        reveal_strlit("pass");
        reveal_strlit("deny");
        reveal_strlit("rewrite");
        reveal_strlit("side-effect");
        reveal_strlit("notify");
    }
    match o {
        Outcome::Pass => "pass",
        Outcome::Deny { .. } => "deny",
        Outcome::Rewrite { .. } => "rewrite",
        Outcome::SideEffect { .. } => "side-effect",
        Outcome::Notify { .. } => "notify",
    }
}

/// The number of entries a query returns at most.
pub open spec fn query_limit(q: LogQuery) -> nat {
    if q.limit == 0 { 100 } else { q.limit as nat }
}

/// Whether an entry passes the event and outcome-kind filters.
pub open spec fn entry_wanted(q: LogQuery, e: LogEntry) -> bool {
    &&& (q.event matches Some(ev) ==> has_substring(lowercase(e.event@), lowercase(ev@)))
    &&& (q.outcome_kind matches Some(k) ==> kind_name(e.outcome) == k@)
}

/// The entries a query selects from `rows` (newest first, each with its
/// entry when it decoded), after `acc`: rows at or before `after` and rows at
/// or after `before` are skipped, undecodable and unwanted rows are skipped,
/// and the scan stops at the limit.
pub open spec fn selection(q: LogQuery, rows: Seq<(u64, Option<LogEntry>)>, acc: Seq<LogEntry>) -> Seq<LogEntry>
    decreases rows.len(),
{
    if rows.len() == 0 || acc.len() >= query_limit(q) {
        acc
    } else {
        let (ts, e) = rows[0];
        if (q.after matches Some(a) && ts <= a) || (q.before matches Some(b) && ts >= b) {
            selection(q, rows.drop_first(), acc)
        } else {
            match e {
                None => selection(q, rows.drop_first(), acc),
                Some(x) => if entry_wanted(q, x) {
                    selection(q, rows.drop_first(), acc.push(x))
                } else {
                    selection(q, rows.drop_first(), acc)
                },
            }
        }
    }
}

/// A query in progress over rows handed in one at a time, newest first.
pub struct LogScan {
    pub limit: usize,
    pub entries: Vec<LogEntry>,
}

/// Begin scanning for `q`.
pub fn start_scan(q: &LogQuery) -> (s: LogScan)
    ensures
        s.limit == query_limit(*q),
        s.entries@.len() == 0,
{
    LogScan { limit: if q.limit == 0 { 100 } else { q.limit }, entries: Vec::new() }
}

fn event_matches(event: &String, filter: &String) -> (b: bool)
    ensures
        b == has_substring(lowercase(event@), lowercase(filter@)),
{
    let a = to_lowercase(event.as_str());
    let b = to_lowercase(filter.as_str());
    contains_str(a.as_str(), b.as_str())
}

/// Take the next row (its timestamp, and its entry when it decoded); whether
/// the scan goes on. Over all rows this selects exactly `selection`.
pub fn scan_row(scan: &mut LogScan, q: &LogQuery, ts: u64, entry: Option<LogEntry>) -> (more: bool)
    requires
        old(scan).limit == query_limit(*q),
        old(scan).entries@.len() < old(scan).limit,
    ensures
        final(scan).limit == old(scan).limit,
        forall|rest: Seq<(u64, Option<LogEntry>)>| #![trigger selection(*q, seq![(ts, entry)] + rest, old(scan).entries@)]
            selection(*q, seq![(ts, entry)] + rest, old(scan).entries@) == if more {
                selection(*q, rest, final(scan).entries@)
            } else {
                final(scan).entries@
            },
        more ==> final(scan).entries@.len() < final(scan).limit,
{
    let ghost before_entries = scan.entries@;
    proof {
        assert forall|rest: Seq<(u64, Option<LogEntry>)>| (seq![(ts, entry)] + rest).drop_first() == rest && (seq![(ts, entry)] + rest)[0] == (ts, entry) by {
            assert((seq![(ts, entry)] + rest).drop_first() =~= rest);
        }
    }
    match q.after {
        Some(a) => if ts <= a {
            return true;
        },
        None => {},
    }
    match q.before {
        Some(b) => if ts >= b {
            return true;
        },
        None => {},
    }
    let e = match entry {
        Some(e) => e,
        None => {
            return true;
        },
    };
    match &q.event {
        Some(ev) => if !event_matches(&e.event, ev) {
            return true;
        },
        None => {},
    }
    match &q.outcome_kind {
        Some(k) => if !str_eq(kind_name_exec(&e.outcome), k.as_str()) {
            return true;
        },
        None => {},
    }
    let ghost pushed = e;
    scan.entries.push(e);
    proof {
        assert forall|rest: Seq<(u64, Option<LogEntry>)>| #[trigger] selection(*q, seq![(ts, entry)] + rest, before_entries)
            == selection(*q, rest, scan.entries@) by {
            let rows = seq![(ts, entry)] + rest;
            assert(rows.drop_first() =~= rest);
            assert(rows[0] == (ts, entry));
            assert(entry == Some(pushed));
        }
    }
    scan.entries.len() < scan.limit
}

/// The entries a query selects from rows given newest first.
#[verifier::loop_isolation(false)]
pub fn select_entries(q: &LogQuery, rows: Vec<(u64, Option<LogEntry>)>) -> (r: Vec<LogEntry>)
    ensures
        r@ == selection(*q, rows@, seq![]),
{
    let mut scan = start_scan(q);
    let mut rows = rows;
    let ghost all = rows@;
    let ghost mut pos: int = 0;
    proof {
        assert(all.skip(0) == all);
        assert(scan.entries@ =~= Seq::<LogEntry>::empty());
    }
    while rows.len() > 0
        invariant
            scan.limit == query_limit(*q),
            scan.entries@.len() < scan.limit,
            0 <= pos <= all.len(),
            rows@ == all.skip(pos),
            selection(*q, all, seq![]) == selection(*q, all.skip(pos), scan.entries@),
        decreases rows.len(),
    {
        let (ts, entry) = rows.remove(0);
        let ghost e0 = entry;
        let ghost before = scan.entries@;
        proof {
            assert((ts, entry) == all[pos]);
            assert(all.skip(pos) =~= seq![(ts, entry)] + all.skip(pos + 1));
            assert(rows@ =~= all.skip(pos + 1));
        }
        let more = scan_row(&mut scan, q, ts, entry);
        proof {
            let rest = all.skip(pos + 1);
            assert(selection(*q, seq![(ts, e0)] + rest, before) == if more {
                selection(*q, rest, scan.entries@)
            } else {
                scan.entries@
            });
            pos = pos + 1;
        }
        if !more {
            return scan.entries;
        }
    }
    proof { assert(all.skip(pos) =~= Seq::<(u64, Option<LogEntry>)>::empty()); }
    scan.entries
}


/// A query never returns more entries than its limit, and returns them in
/// the order of the rows (newest first).
pub proof fn lemma_selection_bounded(q: LogQuery, rows: Seq<(u64, Option<LogEntry>)>, acc: Seq<LogEntry>)
    requires
        acc.len() <= query_limit(q),
    ensures
        acc.len() <= selection(q, rows, acc).len() <= query_limit(q),
        selection(q, rows, acc).take(acc.len() as int) == acc,
    decreases rows.len(),
{
    if rows.len() == 0 || acc.len() >= query_limit(q) {
        assert(acc.take(acc.len() as int) == acc);
    } else {
        let (ts, e) = rows[0];
        if (q.after matches Some(a) && ts <= a) || (q.before matches Some(b) && ts >= b) {
            lemma_selection_bounded(q, rows.drop_first(), acc);
        } else {
            match e {
                None => lemma_selection_bounded(q, rows.drop_first(), acc),
                Some(x) => if entry_wanted(q, x) {
                    lemma_selection_bounded(q, rows.drop_first(), acc.push(x));
                    let s = selection(q, rows.drop_first(), acc.push(x));
                    assert forall|i: int| 0 <= i < acc.len() implies s[i] == acc[i] by {
                        assert(s.take(acc.len() as int + 1)[i] == acc.push(x)[i]);
                    }
                    assert(s.take(acc.len() as int) =~= acc);
                } else {
                    lemma_selection_bounded(q, rows.drop_first(), acc);
                },
            }
        }
    }
}


/// The keys that pruning below `before_ns` removes: the leading run of `keys`
/// (in ascending order, as the table holds them) that are older than `before_ns`.
pub fn keys_to_prune(keys: &Vec<u64>, before_ns: u64) -> (r: Vec<u64>)
    ensures
        r@.len() <= keys@.len(),
        r@ == keys@.take(r@.len() as int),
        forall|j: int| 0 <= j < r@.len() ==> #[trigger] keys@[j] < before_ns,
        r@.len() < keys@.len() ==> keys@[r@.len() as int] >= before_ns,
{
    let mut r: Vec<u64> = Vec::new();
    let mut i: usize = 0;
    while i < keys.len() && keys[i] < before_ns
        invariant
            i <= keys@.len(),
            r@ == keys@.take(i as int),
            forall|j: int| 0 <= j < i ==> #[trigger] keys@[j] < before_ns,
        decreases keys.len() - i,
    {
        r.push(keys[i]);
        i += 1;
        proof { assert(r@ =~= keys@.take(i as int)); }
    }
    r
}


/// Whether row `(ts, e)` passes the query: inside the time bounds, decoded,
/// and wanted.
pub open spec fn row_selected(q: LogQuery, ts: u64, e: Option<LogEntry>) -> bool {
    &&& !(q.after matches Some(a) && ts <= a)
    &&& !(q.before matches Some(b) && ts >= b)
    &&& e matches Some(x) && entry_wanted(q, x)
}

/// Whether `x` is the entry of some row of `rows` that passes the query.
pub open spec fn from_passing_row(q: LogQuery, rows: Seq<(u64, Option<LogEntry>)>, x: LogEntry) -> bool {
    exists|j: int| 0 <= j < rows.len() && #[trigger] row_selected(q, rows[j].0, rows[j].1) && rows[j].1 == Some(x)
}

/// Every entry a query adds comes from a row that passes it: strictly after
/// `after`, strictly before `before`, and wanted by the event and outcome
/// filters; and rows are taken in order.
pub proof fn lemma_selection_rows_pass(q: LogQuery, rows: Seq<(u64, Option<LogEntry>)>, acc: Seq<LogEntry>)
    ensures
        forall|k: int| acc.len() <= k < selection(q, rows, acc).len() ==> from_passing_row(q, rows, #[trigger] selection(q, rows, acc)[k]),
        acc.len() <= selection(q, rows, acc).len(),
        selection(q, rows, acc).take(acc.len() as int) == acc,
    decreases rows.len(),
{
    let sel = selection(q, rows, acc);
    if rows.len() == 0 || acc.len() >= query_limit(q) {
        assert(acc.take(acc.len() as int) =~= acc);
    } else {
        let (ts, e) = rows[0];
        let rest = rows.drop_first();
        if (q.after matches Some(a) && ts <= a) || (q.before matches Some(b) && ts >= b) {
            lemma_selection_rows_pass(q, rest, acc);
            assert forall|k: int| acc.len() <= k < sel.len() implies from_passing_row(q, rows, #[trigger] sel[k]) by {
                assert(from_passing_row(q, rest, sel[k]));
                            let j = choose|j: int| 0 <= j < rest.len() && #[trigger] row_selected(q, rest[j].0, rest[j].1) && rest[j].1 == Some(sel[k]);
                assert(rows[j + 1] == rest[j]);
            }
        } else {
            match e {
                None => {
                    lemma_selection_rows_pass(q, rest, acc);
                    assert forall|k: int| acc.len() <= k < sel.len() implies from_passing_row(q, rows, #[trigger] sel[k]) by {
                        assert(from_passing_row(q, rest, sel[k]));
                            let j = choose|j: int| 0 <= j < rest.len() && #[trigger] row_selected(q, rest[j].0, rest[j].1) && rest[j].1 == Some(sel[k]);
                        assert(rows[j + 1] == rest[j]);
                    }
                },
                Some(x) => if entry_wanted(q, x) {
                    let acc2 = acc.push(x);
                    lemma_selection_rows_pass(q, rest, acc2);
                    assert forall|k: int| acc.len() <= k < sel.len() implies from_passing_row(q, rows, #[trigger] sel[k]) by {
                        if k == acc.len() {
                            assert(sel.take(acc2.len() as int)[k] == acc2[k]);
                            assert(row_selected(q, rows[0].0, rows[0].1));
                        } else {
                            assert(from_passing_row(q, rest, sel[k]));
                            let j = choose|j: int| 0 <= j < rest.len() && #[trigger] row_selected(q, rest[j].0, rest[j].1) && rest[j].1 == Some(sel[k]);
                            assert(rows[j + 1] == rest[j]);
                        }
                    }
                    assert forall|i: int| 0 <= i < acc.len() implies sel[i] == acc[i] by {
                        assert(sel.take(acc2.len() as int)[i] == acc2[i]);
                    }
                    assert(sel.take(acc.len() as int) =~= acc);
                } else {
                    lemma_selection_rows_pass(q, rest, acc);
                    assert forall|k: int| acc.len() <= k < sel.len() implies from_passing_row(q, rows, #[trigger] sel[k]) by {
                        assert(from_passing_row(q, rest, sel[k]));
                            let j = choose|j: int| 0 <= j < rest.len() && #[trigger] row_selected(q, rest[j].0, rest[j].1) && rest[j].1 == Some(sel[k]);
                        assert(rows[j + 1] == rest[j]);
                    }
                },
            }
        }
    }
}

} // verus!
