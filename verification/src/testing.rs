//! `MockWorkspace`: a builder of test fixtures (commands, rules, failure
//! state, working directory) for exercising the library.
use vstd::prelude::*;
use crate::history::{CommandRecord, CommandSource, DiscoverOpts};
use crate::rules::{copy_opt_string, is_default_failure_learning, same_rule, FailureLearning, Rule, RulesConfig};
use crate::state::State;
use crate::text::owned;

verus! {

/// Composable test fixture.
pub struct MockWorkspace {
    pub commands: Vec<CommandRecord>,
    pub rules: Vec<Rule>,
    pub failure_learning: FailureLearning,
    pub state: State,
    pub cwd: String,
}

/// A record of `cmd` in the test session.
pub open spec fn test_record(r: CommandRecord, cmd: Seq<char>, cwd: Seq<char>, ts: Option<Seq<char>>, bytes: Option<usize>) -> bool {
    &&& r.command@ == cmd
    &&& r.session_id@ == "test-session"@
    &&& r.cwd@ == cwd
    &&& crate::rules::opt_view(r.timestamp) == ts
    &&& r.output_bytes == bytes
}

/// A rule that blocks `pattern` with the given exceptions and nothing else.
pub open spec fn plain_rule(r: Rule, id: Seq<char>, pattern: Seq<char>, exceptions: Seq<Seq<char>>) -> bool {
    &&& r.id@ == id
    &&& r.enabled
    &&& r.pattern@ == pattern
    &&& r.pattern_flags@.len() == 0
    &&& crate::rules::seq_views(r.exceptions@) == exceptions
    &&& r.target_commands@.len() == 0
    &&& r.message is None
}

fn record(cmd: &str, cwd: &str, ts: Option<String>, bytes: Option<usize>) -> (r: CommandRecord)
    ensures
        test_record(r, cmd@, cwd@, crate::rules::opt_view(ts), bytes),
{
    proof { reveal_strlit("test-session"); }
    CommandRecord {
        command: owned(cmd),
        session_id: owned("test-session"),
        cwd: owned(cwd),
        timestamp: ts,
        output_bytes: bytes,
    }
}

impl MockWorkspace {
    /// An empty workspace whose working directory is `/project`.
    pub fn new() -> (w: Self)
        ensures
            w.commands@.len() == 0,
            w.rules@.len() == 0,
            is_default_failure_learning(w.failure_learning),
            w.state@.len() == 0,
            w.cwd@ == "/project"@,
    {
        proof { reveal_strlit("/project"); }
        MockWorkspace {
            commands: Vec::new(),
            rules: Vec::new(),
            failure_learning: FailureLearning::default(),
            state: State::new(),
            cwd: owned("/project"),
        }
    }

    /// Add a command run in the workspace's directory.
    pub fn with_command(self, cmd: &str) -> (w: Self)
        ensures
            w.commands@.len() == self.commands@.len() + 1,
            w.commands@.drop_last() == self.commands@,
            test_record(w.commands@.last(), cmd@, self.cwd@, None, None),
            w.cwd == self.cwd,
            w.rules == self.rules,
    {
        let mut w = self;
        let r = record(cmd, w.cwd.as_str(), None, None);
        w.commands.push(r);
        w
    }

    /// Add a command run in another directory.
    pub fn with_command_at(self, cmd: &str, cwd: &str) -> (w: Self)
        ensures
            w.commands@.len() == self.commands@.len() + 1,
            w.commands@.drop_last() == self.commands@,
            test_record(w.commands@.last(), cmd@, cwd@, None, None),
            w.cwd == self.cwd,
            w.rules == self.rules,
    {
        let mut w = self;
        let r = record(cmd, cwd, None, None);
        w.commands.push(r);
        w
    }

    /// Add a command with an ISO 8601 timestamp.
    pub fn with_command_ts(self, cmd: &str, ts: &str) -> (w: Self)
        ensures
            w.commands@.len() == self.commands@.len() + 1,
            w.commands@.drop_last() == self.commands@,
            test_record(w.commands@.last(), cmd@, self.cwd@, Some(ts@), None),
            w.cwd == self.cwd,
            w.rules == self.rules,
    {
        let mut w = self;
        let r = record(cmd, w.cwd.as_str(), Some(owned(ts)), None);
        w.commands.push(r);
        w
    }

    /// Add a command with a known output size in bytes.
    pub fn with_command_bytes(self, cmd: &str, output_bytes: usize) -> (w: Self)
        ensures
            w.commands@.len() == self.commands@.len() + 1,
            w.commands@.drop_last() == self.commands@,
            test_record(w.commands@.last(), cmd@, self.cwd@, None, Some(output_bytes)),
            w.cwd == self.cwd,
            w.rules == self.rules,
    {
        let mut w = self;
        let r = record(cmd, w.cwd.as_str(), None, Some(output_bytes));
        w.commands.push(r);
        w
    }

    /// Add a blocking rule without exceptions.
    pub fn with_rule(self, id: &str, pattern: &str) -> (w: Self)
        ensures
            w.rules@.len() == self.rules@.len() + 1,
            w.rules@.drop_last() == self.rules@,
            plain_rule(w.rules@.last(), id@, pattern@, seq![]),
            w.commands == self.commands,
            w.cwd == self.cwd,
    {
        let mut w = self;
        let r = Rule {
            id: owned(id),
            enabled: true,
            pattern: owned(pattern),
            pattern_flags: String::new(),
            exceptions: Vec::new(),
            target_commands: Vec::new(),
            message: None,
        };
        proof { assert(crate::rules::seq_views(r.exceptions@) =~= Seq::<Seq<char>>::empty()); }
        w.rules.push(r);
        w
    }

    /// Add a blocking rule with one exception pattern.
    pub fn with_rule_exception(self, id: &str, pattern: &str, exception: &str) -> (w: Self)
        ensures
            w.rules@.len() == self.rules@.len() + 1,
            w.rules@.drop_last() == self.rules@,
            plain_rule(w.rules@.last(), id@, pattern@, seq![exception@]),
            w.commands == self.commands,
            w.cwd == self.cwd,
    {
        let mut w = self;
        let mut exceptions: Vec<String> = Vec::new();
        exceptions.push(owned(exception));
        let r = Rule {
            id: owned(id),
            enabled: true,
            pattern: owned(pattern),
            pattern_flags: String::new(),
            exceptions,
            target_commands: Vec::new(),
            message: None,
        };
        proof { assert(crate::rules::seq_views(r.exceptions@) =~= seq![exception@]); }
        w.rules.push(r);
        w
    }

    /// Change the working directory of the commands added after this.
    pub fn with_cwd(self, cwd: &str) -> (w: Self)
        ensures
            w.cwd@ == cwd@,
            w.commands == self.commands,
            w.rules == self.rules,
    {
        let mut w = self;
        w.cwd = owned(cwd);
        w
    }

    /// Use other failure-learning settings.
    pub fn with_failure_learning(self, fl: FailureLearning) -> (w: Self)
        ensures
            w.failure_learning == fl,
            w.commands == self.commands,
            w.rules == self.rules,
            w.cwd == self.cwd,
    {
        let mut w = self;
        w.failure_learning = fl;
        w
    }

    /// Start from another failure state.
    pub fn with_state(self, state: State) -> (w: Self)
        ensures
            w.state == state,
            w.commands == self.commands,
            w.rules == self.rules,
            w.cwd == self.cwd,
    {
        let mut w = self;
        w.state = state;
        w
    }

    /// The rules and failure-learning settings as one configuration.
    pub fn rules_config(&self) -> (c: RulesConfig)
        ensures
            c.rules@.len() == self.rules@.len(),
            forall|i: int| 0 <= i < c.rules@.len() ==> same_rule(#[trigger] c.rules@[i], self.rules@[i]),
            c.failure_learning == self.failure_learning,
    {
        let cfg = RulesConfig { rules: Vec::new(), failure_learning: self.failure_learning.copy() };
        let mut rules: Vec<Rule> = Vec::new();
        let mut i: usize = 0;
        while i < self.rules.len()
            invariant
                i <= self.rules@.len(),
                rules@.len() == i,
                forall|j: int| 0 <= j < i ==> same_rule(#[trigger] rules@[j], self.rules@[j]),
            decreases self.rules.len() - i,
        {
            rules.push(self.rules[i].copy());
            i += 1;
        }
        RulesConfig { rules, failure_learning: cfg.failure_learning }
    }

    /// Options scoped to the workspace's directory.
    pub fn discover_opts(&self) -> (o: DiscoverOpts)
        ensures
            !o.all_projects,
            o.current_dir matches Some(d) && d@ == self.cwd@,
            o.limit == 15,
            o.since_days == Some(30u32),
            o.min_count == 1,
    {
        let mut o = DiscoverOpts::default();
        o.all_projects = false;
        o.current_dir = Some(self.cwd.clone());
        o
    }

    /// Options spanning all projects.
    pub fn discover_opts_all(&self) -> (o: DiscoverOpts)
        ensures
            o.all_projects,
            o.current_dir is None,
            o.limit == 15,
            o.since_days == Some(30u32),
            o.min_count == 1,
    {
        let mut o = DiscoverOpts::default();
        o.all_projects = true;
        o
    }

    /// A command source over the workspace's commands.
    pub fn command_source(&self) -> (s: MockCommandSource)
        ensures
            s.0@ == self.commands@,
    {
        MockCommandSource(copy_records(&self.commands))
    }
}

fn copy_records(v: &Vec<CommandRecord>) -> (r: Vec<CommandRecord>)
    ensures
        r@ == v@,
{
    let mut out: Vec<CommandRecord> = Vec::new();
    let mut i: usize = 0;
    while i < v.len()
        invariant
            i <= v@.len(),
            out@ == v@.take(i as int),
        decreases v.len() - i,
    {
        let c = &v[i];
        let copy = CommandRecord {
            command: c.command.clone(),
            session_id: c.session_id.clone(),
            cwd: c.cwd.clone(),
            timestamp: copy_opt_string(&c.timestamp),
            output_bytes: c.output_bytes,
        };
        out.push(copy);
        proof { assert(v@.take(i + 1) == v@.take(i as int).push(v@[i as int])); }
        i += 1;
    }
    proof { assert(v@.take(v@.len() as int) == v@); }
    out
}

/// A command source over an in-memory list.
pub struct MockCommandSource(pub Vec<CommandRecord>);

impl CommandSource for MockCommandSource {
    fn commands(&self) -> (r: Vec<CommandRecord>)
        ensures
            r@ == self.0@,
    {
        copy_records(&self.0)
    }
}

} // verus!
