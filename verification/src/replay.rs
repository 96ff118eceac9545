//! Replaying a list of commands against the rules.
use vstd::prelude::*;
use crate::rules::{Rule, check, check_spec};
use crate::text::{decimal, decimal_string, owned, push_str};

verus! {

pub enum ReplayVerdict {
    Blocked { rule_id: String, message: String },
    Pass,
}

pub struct ReplayEntry {
    pub command: String,
    pub verdict: ReplayVerdict,
}

pub struct ReplayReport {
    pub entries: Vec<ReplayEntry>,
    pub blocked: usize,
    pub passed: usize,
}

pub open spec fn verdict_view(v: ReplayVerdict) -> Option<(Seq<char>, Seq<char>)> {
    match v {
        ReplayVerdict::Blocked { rule_id, message } => Some((rule_id@, message@)),
        ReplayVerdict::Pass => None,
    }
}

/// Number of commands among `cmds` that the rules block.
pub open spec fn blocked_count(cmds: Seq<String>, rules: Seq<Rule>) -> int
    decreases cmds.len(),
{
    if cmds.len() == 0 {
        0
    } else {
        blocked_count(cmds.drop_last(), rules) + if check_spec(cmds.last()@, rules) is Some {
            1int
        } else {
            0int
        }
    }
}

/// Runs every command through [`check`], recording the verdict and the tallies.
pub fn replay(commands: &[String], rules: &[Rule]) -> (r: ReplayReport)
    ensures
        r.entries@.len() == commands@.len(),
        forall|i: int|
            0 <= i < commands@.len() ==> (#[trigger] r.entries@[i]).command@ == commands@[i]@
                && verdict_view(r.entries@[i].verdict) == check_spec(commands@[i]@, rules@),
        r.blocked == blocked_count(commands@, rules@),
        r.blocked + r.passed == commands@.len(),
{
    let mut entries: Vec<ReplayEntry> = Vec::new();
    let mut blocked: usize = 0;
    let mut passed: usize = 0;
    let mut i: usize = 0;
    while i < commands.len()
        invariant
            i <= commands@.len(),
            entries@.len() == i,
            forall|j: int|
                0 <= j < i ==> (#[trigger] entries@[j]).command@ == commands@[j]@
                    && verdict_view(entries@[j].verdict) == check_spec(commands@[j]@, rules@),
            blocked == blocked_count(commands@.take(i as int), rules@),
            blocked + passed == i,
        decreases commands.len() - i,
    {
        proof {
            assert(commands@.take(i + 1).drop_last() == commands@.take(i as int));
            assert(commands@.take(i + 1).last() == commands@[i as int]);
        }
        let cmd = &commands[i];
        let verdict = match check(cmd.as_str(), rules) {
            Some((rule_id, message)) => {
                blocked += 1;
                ReplayVerdict::Blocked { rule_id, message }
            },
            None => {
                passed += 1;
                ReplayVerdict::Pass
            },
        };
        entries.push(ReplayEntry { command: cmd.clone(), verdict });
        i += 1;
    }
    proof { assert(commands@.take(commands@.len() as int) == commands@); }
    ReplayReport { entries, blocked, passed }
}

/// The summary line and one line per entry.
pub open spec fn report_text(entries: Seq<ReplayEntry>, blocked: usize, passed: usize) -> Seq<char> {
    "Replay: "@ + decimal(entries.len()) + " commands — "@ + decimal(blocked as nat) + " blocked, "@
        + decimal(passed as nat) + " passed\n\n"@ + entry_lines(entries)
}

pub open spec fn entry_lines(entries: Seq<ReplayEntry>) -> Seq<char>
    decreases entries.len(),
{
    if entries.len() == 0 {
        seq![]
    } else {
        let e = entries.last();
        entry_lines(entries.drop_last()) + match e.verdict {
            ReplayVerdict::Blocked { rule_id, .. } => "  BLOCK ["@ + rule_id@ + "]  "@ + e.command@ + "\n"@,
            ReplayVerdict::Pass => "  pass        "@ + e.command@ + "\n"@,
        }
    }
}

/// Renders a replay report as text.
pub fn format_text(report: &ReplayReport) -> (s: String)
    ensures
        s@ == report_text(report.entries@, report.blocked, report.passed),
{
    let mut out = owned("Replay: ");
    let n = decimal_string(report.entries.len() as u64);
    push_str(&mut out, n.as_str());
    push_str(&mut out, " commands — ");
    let b = decimal_string(report.blocked as u64);
    push_str(&mut out, b.as_str());
    push_str(&mut out, " blocked, ");
    let p = decimal_string(report.passed as u64);
    push_str(&mut out, p.as_str());
    push_str(&mut out, " passed\n\n");
    let ghost head = out@;
    let mut i: usize = 0;
    while i < report.entries.len()
        invariant
            i <= report.entries@.len(),
            out@ == head + entry_lines(report.entries@.take(i as int)),
        decreases report.entries.len() - i,
    {
        proof {
            assert(report.entries@.take(i + 1).drop_last() == report.entries@.take(i as int));
            assert(report.entries@.take(i + 1).last() == report.entries@[i as int]);
        }
        let e = &report.entries[i];
        match &e.verdict {
            ReplayVerdict::Blocked { rule_id, .. } => {
                push_str(&mut out, "  BLOCK [");
                push_str(&mut out, rule_id.as_str());
                push_str(&mut out, "]  ");
                push_str(&mut out, e.command.as_str());
                push_str(&mut out, "\n");
            },
            ReplayVerdict::Pass => {
                push_str(&mut out, "  pass        ");
                push_str(&mut out, e.command.as_str());
                push_str(&mut out, "\n");
            },
        }
        i += 1;
    }
    proof { assert(report.entries@.take(report.entries@.len() as int) == report.entries@); }
    out
}

} // verus!
