//! Output filters for tool results, and redaction of secret-bearing lines.
use vstd::prelude::*;
use crate::matcher::{compile, is_match, pattern_finds, regex_compiles, regex_finds, CompiledRegex};
use crate::text::{
    chars_of, contains_str, decimal, decimal_string, has_substring, lowercase, owned, push_char, push_str,
    str_eq, string_of_range, to_lowercase,
};
use crate::tool_swap::ToolSwapConfig;

verus! {

/// How matched tool output is handled.
#[derive(Debug, Clone, Copy, PartialEq, Eq, Structural)]
pub enum FilterMode {
    /// Pass output unchanged.
    Passthrough,
    /// Suppress output on success (exit 0); pass it through on failure.
    FailuresOnly,
    /// Keep only lines containing "error" (case-insensitive).
    ErrorsOnly,
    /// Keep the first `max_lines` lines.
    Truncate,
    /// On success keep only the lines matching `match_pattern`.
    MatchLines,
}

impl Default for FilterMode {
    fn default() -> (m: Self)
        ensures
            m == FilterMode::Passthrough,
    {
        FilterMode::Passthrough
    }
}

/// A filter rule for the commands its pattern matches.
#[derive(Debug, Clone)]
pub struct FilterRule {
    /// Regex matched against the full command string.
    pub pattern: String,
    pub mode: FilterMode,
    /// For `Truncate`: the number of lines kept.
    pub max_lines: usize,
    /// For `MatchLines`: the regex a kept line matches.
    pub match_pattern: Option<String>,
}

/// The `max_lines` of a rule that gives none.
pub fn default_max_lines() -> (n: usize)
    ensures
        n == 50,
{
    50
}

/// The filters file.
#[derive(Debug, Clone)]
pub struct FiltersConfig {
    pub filters: Vec<FilterRule>,
    pub tool_swap: ToolSwapConfig,
}

impl Default for FiltersConfig {
    fn default() -> (c: Self)
        ensures
            c.filters@.len() == 0,
            c.tool_swap.cat_token_limit == 4000,
            c.tool_swap.tail_limit_max == 500,
            c.tool_swap.find_depth_max == 10,
    {
        FiltersConfig { filters: Vec::new(), tool_swap: ToolSwapConfig::default() }
    }
}

/// Interface: where the filters configuration comes from.
pub trait FiltersLoader {
    fn load(&self) -> FiltersConfig;
}

/// The index of the first rule whose pattern compiles and matches `command`.
pub open spec fn first_filter(command: Seq<char>, rules: Seq<FilterRule>, k: int) -> Option<int>
    decreases rules.len() - k,
{
    if k < 0 || k >= rules.len() {
        None
    } else if pattern_finds(rules[k].pattern@, command) {
        Some(k)
    } else {
        first_filter(command, rules, k + 1)
    }
}

/// The first filter rule matching `command`.
pub fn find_rule<'a>(command: &str, config: &'a FiltersConfig) -> (r: Option<&'a FilterRule>)
    ensures
        match first_filter(command@, config.filters@, 0) {
            Some(k) => r == Some(&config.filters@[k]),
            None => r is None,
        },
{
    let mut k: usize = 0;
    while k < config.filters.len()
        invariant
            k <= config.filters@.len(),
            first_filter(command@, config.filters@, 0) == first_filter(command@, config.filters@, k as int),
        decreases config.filters.len() - k,
    {
        if crate::matcher::find(config.filters[k].pattern.as_str(), command) {
            return Some(&config.filters[k]);
        }
        k += 1;
    }
    None
}

// ---------------------------------------------------------------------------
// Lines
// ---------------------------------------------------------------------------

/// `s` split at every `\n` (`str::split('\n')`).
pub open spec fn split_nl(s: Seq<char>) -> Seq<Seq<char>>
    decreases s.len(),
{
    if s.len() == 0 {
        seq![seq![]]
    } else if s.last() == '\n' {
        split_nl(s.drop_last()).push(seq![])
    } else {
        let p = split_nl(s.drop_last());
        p.update(p.len() - 1, p.last().push(s.last()))
    }
}

pub open spec fn strip_cr(l: Seq<char>) -> Seq<char> {
    if l.len() > 0 && l.last() == '\r' {
        l.drop_last()
    } else {
        l
    }
}

/// `str::lines`: the pieces ended by `\n` (without a `\r` before it), then
/// the rest when it is not empty.
pub open spec fn lines(s: Seq<char>) -> Seq<Seq<char>> {
    let p = split_nl(s);
    let ended = p.take(p.len() - 1).map_values(|l: Seq<char>| strip_cr(l));
    if p.last().len() > 0 {
        ended.push(p.last())
    } else {
        ended
    }
}

/// The lines joined with `\n` between them (`[&str]::join("\n")`).
pub open spec fn join_lines(v: Seq<Seq<char>>) -> Seq<char>
    decreases v.len(),
{
    if v.len() == 0 {
        seq![]
    } else if v.len() == 1 {
        v[0]
    } else {
        join_lines(v.drop_last()) + seq!['\n'] + v.last()
    }
}

proof fn lemma_split_nl_nonempty(s: Seq<char>)
    ensures
        split_nl(s).len() >= 1,
    decreases s.len(),
{
    if s.len() > 0 {
        lemma_split_nl_nonempty(s.drop_last());
    }
}

pub open spec fn str_views(v: Seq<String>) -> Seq<Seq<char>> {
    v.map_values(|w: String| w@)
}

fn piece(v: &Vec<char>, lo: usize, hi: usize, strip: bool) -> (r: String)
    requires
        lo <= hi <= v@.len(),
    ensures
        r@ == if strip { strip_cr(v@.subrange(lo as int, hi as int)) } else { v@.subrange(lo as int, hi as int) },
{
    let end = if strip && hi > lo && v[hi - 1] == '\r' { hi - 1 } else { hi };
    proof {
        if strip && hi > lo && v@[hi - 1] == '\r' {
            assert(v@.subrange(lo as int, hi as int).drop_last() == v@.subrange(lo as int, end as int));
        }
    }
    string_of_range(v, lo, end)
}

/// The lines of `s` (`s.lines()`).
pub fn lines_of(s: &str) -> (r: Vec<String>)
    ensures
        str_views(r@) == lines(s@),
{
    let v = chars_of(s);
    let mut done: Vec<String> = Vec::new();
    let mut cur_lo: usize = 0;
    let mut i: usize = 0;
    proof {
        assert(v@.subrange(0, 0) =~= Seq::<char>::empty());
        assert(str_views(done@) =~= seq![]);
    }
    while i < v.len()
        invariant
            v@ == s@,
            cur_lo <= i <= v@.len(),
            split_nl(v@.subrange(0, i as int)).len() == done@.len() + 1,
            split_nl(v@.subrange(0, i as int)).last() == v@.subrange(cur_lo as int, i as int),
            str_views(done@) == split_nl(v@.subrange(0, i as int)).take(done@.len() as int).map_values(
                |l: Seq<char>| strip_cr(l),
            ),
        decreases v.len() - i,
    {
        let ghost p = split_nl(v@.subrange(0, i as int));
        proof { assert(v@.subrange(0, i + 1).drop_last() == v@.subrange(0, i as int)); }
        if v[i] == '\n' {
            let line = piece(&v, cur_lo, i, true);
            let ghost old_views = str_views(done@);
            done.push(line);
            proof {
                let p2 = split_nl(v@.subrange(0, i + 1));
                assert(p2 == p.push(seq![]));
                assert(p2.take(done@.len() as int) == p);
                let n = p.len() - 1;
                assert forall|j: int| 0 <= j < done@.len() implies #[trigger] str_views(done@)[j] == p.map_values(|l: Seq<char>| strip_cr(l))[j] by {
                    if j < n {
                        assert(str_views(done@)[j] == done@[j]@);
                        assert(old_views[j] == p.take(n).map_values(|l: Seq<char>| strip_cr(l))[j]);
                    }
                }
                assert(str_views(done@) =~= p.map_values(|l: Seq<char>| strip_cr(l)));
                assert(v@.subrange(i + 1, i + 1) =~= Seq::<char>::empty());
            }
            cur_lo = i + 1;
        } else {
            proof {
                let p2 = split_nl(v@.subrange(0, i + 1));
                assert(p2 == p.update(p.len() - 1, p.last().push(v@[i as int])));
                assert(p2.take(done@.len() as int) =~= p.take(done@.len() as int));
                assert(v@.subrange(cur_lo as int, i + 1) == v@.subrange(cur_lo as int, i as int).push(v@[i as int]));
            }
        }
        i += 1;
    }
    proof {
        assert(v@.subrange(0, v@.len() as int) == v@);
        lemma_split_nl_nonempty(v@);
    }
    if cur_lo < v.len() {
        let last = piece(&v, cur_lo, v.len(), false);
        done.push(last);
        proof {
            let p = split_nl(s@);
            assert(str_views(done@) =~= p.take(p.len() - 1).map_values(|l: Seq<char>| strip_cr(l)).push(p.last()));
        }
    } else {
        proof {
            let p = split_nl(s@);
            assert(p.last().len() == 0);
        }
    }
    done
}

/// The lines joined with `\n`.
pub fn join_strings(v: &Vec<String>) -> (r: String)
    ensures
        r@ == join_lines(str_views(v@)),
{
    if v.len() == 0 {
        return String::new();
    }
    let mut out = v[0].clone();
    let mut k: usize = 1;
    proof { assert(str_views(v@).take(1) =~= seq![v@[0]@]); }
    while k < v.len()
        invariant
            1 <= k <= v@.len(),
            out@ == join_lines(str_views(v@).take(k as int)),
        decreases v.len() - k,
    {
        push_char(&mut out, '\n');
        push_str(&mut out, v[k].as_str());
        proof {
            let t = str_views(v@).take(k + 1);
            assert(t.drop_last() == str_views(v@).take(k as int));
            assert(t.last() == v@[k as int]@);
        }
        k += 1;
    }
    proof { assert(str_views(v@).take(v@.len() as int) == str_views(v@)); }
    out
}

/// The lines that contain "error" once lower-cased.
pub open spec fn error_lines(ls: Seq<Seq<char>>) -> Seq<Seq<char>>
    decreases ls.len(),
{
    if ls.len() == 0 {
        seq![]
    } else if has_substring(lowercase(ls.last()), "error"@) {
        error_lines(ls.drop_last()).push(ls.last())
    } else {
        error_lines(ls.drop_last())
    }
}

/// The lines that the regex `pattern` matches.
pub open spec fn matching_lines(pattern: Seq<char>, ls: Seq<Seq<char>>) -> Seq<Seq<char>>
    decreases ls.len(),
{
    if ls.len() == 0 {
        seq![]
    } else if regex_finds(pattern, ls.last()) {
        matching_lines(pattern, ls.drop_last()).push(ls.last())
    } else {
        matching_lines(pattern, ls.drop_last())
    }
}

/// The lines joined, or `None` when there are none.
pub open spec fn joined_or_none(ls: Seq<Seq<char>>) -> Option<Seq<char>> {
    if ls.len() == 0 {
        None
    } else {
        Some(join_lines(ls))
    }
}

/// What a rule does to a tool's output (`None`: suppress it).
pub open spec fn filtered(output: Seq<char>, exit_code: i64, rule: FilterRule) -> Option<Seq<char>> {
    let ls = lines(output);
    match rule.mode {
        FilterMode::Passthrough => Some(output),
        FilterMode::FailuresOnly => if exit_code != 0 { Some(output) } else { None },
        FilterMode::ErrorsOnly => joined_or_none(error_lines(ls)),
        FilterMode::Truncate => if ls.len() <= rule.max_lines {
            Some(output)
        } else {
            Some(
                join_lines(ls.take(rule.max_lines as int)) + "\n... ("@ + decimal((ls.len() - rule.max_lines) as nat)
                    + " lines omitted)"@,
            )
        },
        FilterMode::MatchLines => if exit_code != 0 {
            Some(output)
        } else {
            match rule.match_pattern {
                None => Some(output),
                Some(p) => if !regex_compiles(p@) {
                    Some(output)
                } else {
                    joined_or_none(matching_lines(p@, ls))
                },
            }
        },
    }
}

fn keep_error_lines(ls: &Vec<String>) -> (r: Vec<String>)
    ensures
        str_views(r@) == error_lines(str_views(ls@)),
{
    proof { reveal_strlit("error"); }
    let mut out: Vec<String> = Vec::new();
    let mut k: usize = 0;
    while k < ls.len()
        invariant
            k <= ls@.len(),
            str_views(out@) == error_lines(str_views(ls@).take(k as int)),
        decreases ls.len() - k,
    {
        let ghost t = str_views(ls@).take(k + 1);
        proof {
            assert(t.drop_last() == str_views(ls@).take(k as int));
            assert(t.last() == ls@[k as int]@);
        }
        let low = to_lowercase(ls[k].as_str());
        if contains_str(low.as_str(), "error") {
            let ghost before = str_views(out@);
            out.push(ls[k].clone());
            proof { assert(str_views(out@) =~= before.push(ls@[k as int]@)); }
        }
        k += 1;
    }
    proof { assert(str_views(ls@).take(ls@.len() as int) == str_views(ls@)); }
    out
}

fn keep_matching_lines(re: &CompiledRegex, ls: &Vec<String>) -> (r: Vec<String>)
    ensures
        str_views(r@) == matching_lines(re@, str_views(ls@)),
{
    let mut out: Vec<String> = Vec::new();
    let mut k: usize = 0;
    while k < ls.len()
        invariant
            k <= ls@.len(),
            str_views(out@) == matching_lines(re@, str_views(ls@).take(k as int)),
        decreases ls.len() - k,
    {
        let ghost t = str_views(ls@).take(k + 1);
        proof {
            assert(t.drop_last() == str_views(ls@).take(k as int));
            assert(t.last() == ls@[k as int]@);
        }
        if is_match(re, ls[k].as_str()) {
            let ghost before = str_views(out@);
            out.push(ls[k].clone());
            proof { assert(str_views(out@) =~= before.push(ls@[k as int]@)); }
        }
        k += 1;
    }
    proof { assert(str_views(ls@).take(ls@.len() as int) == str_views(ls@)); }
    out
}

fn join_or_none(v: Vec<String>) -> (r: Option<String>)
    ensures
        crate::rules::opt_view(r) == joined_or_none(str_views(v@)),
{
    if v.len() == 0 {
        None
    } else {
        Some(join_strings(&v))
    }
}

/// Apply a rule to a tool's output and exit code; `None` suppresses it.
pub fn apply_filter(output: &str, exit_code: i64, rule: &FilterRule) -> (r: Option<String>)
    ensures
        crate::rules::opt_view(r) == filtered(output@, exit_code, *rule),
{
    match rule.mode {
        FilterMode::Passthrough => Some(owned(output)),
        FilterMode::FailuresOnly => {
            if exit_code != 0 {
                Some(owned(output))
            } else {
                None
            }
        },
        FilterMode::ErrorsOnly => {
            let ls = lines_of(output);
            join_or_none(keep_error_lines(&ls))
        },
        FilterMode::Truncate => {
            let ls = lines_of(output);
            proof { assert(ls@.len() == lines(output@).len()); }
            if ls.len() <= rule.max_lines {
                Some(owned(output))
            } else {
                let mut kept_lines: Vec<String> = Vec::new();
                let mut k: usize = 0;
                while k < rule.max_lines
                    invariant
                        k <= rule.max_lines < ls@.len(),
                        kept_lines@ == ls@.take(k as int),
                    decreases rule.max_lines - k,
                {
                    kept_lines.push(ls[k].clone());
                    proof { assert(ls@.take(k + 1) == ls@.take(k as int).push(ls@[k as int])); }
                    k += 1;
                }
                let mut out = join_strings(&kept_lines);
                proof {
                    reveal_strlit("\n... (");
                    reveal_strlit(" lines omitted)");
                    assert(str_views(kept_lines@) =~= lines(output@).take(rule.max_lines as int));
                }
                push_str(&mut out, "\n... (");
                let omitted = decimal_string((ls.len() - rule.max_lines) as u64);
                push_str(&mut out, omitted.as_str());
                push_str(&mut out, " lines omitted)");
                Some(out)
            }
        },
        FilterMode::MatchLines => {
            if exit_code != 0 {
                return Some(owned(output));
            }
            match &rule.match_pattern {
                None => Some(owned(output)),
                Some(p) => match compile(p.as_str()) {
                    None => Some(owned(output)),
                    Some(re) => {
                        let ls = lines_of(output);
                        join_or_none(keep_matching_lines(&re, &ls))
                    },
                },
            }
        },
    }
}

/// The tool call a post-tool filter looks at.
#[derive(Debug, Clone)]
pub struct FilterPayload {
    pub command: String,
    pub output: String,
    pub exit_code: i64,
}

/// What the filter does with a tool's output.
#[derive(Debug, Clone, PartialEq, Eq)]
pub enum FilterResult {
    /// Leave the output as it is.
    Passthrough,
    /// Show this text instead.
    Replace(String),
    /// Hide the output.
    Suppress,
}

/// What the filter hook answers for a payload: pass through when no rule
/// matches the command or the rule leaves the output as it was, the rule's
/// text when it changed it, suppression when the rule suppresses it.
pub open spec fn result_is(r: FilterResult, payload: FilterPayload, rules: Seq<FilterRule>) -> bool {
    match first_filter(payload.command@, rules, 0) {
        None => r is Passthrough,
        Some(k) => match filtered(payload.output@, payload.exit_code, rules[k]) {
            Some(t) => if t == payload.output@ {
                r is Passthrough
            } else {
                r matches FilterResult::Replace(x) && x@ == t
            },
            None => r is Suppress,
        },
    }
}

/// Run the filter hook logic.
pub fn run_filter(payload: &FilterPayload, config: &FiltersConfig) -> (r: FilterResult)
    ensures
        result_is(r, *payload, config.filters@),
{
    let rule = match find_rule(payload.command.as_str(), config) {
        Some(rule) => rule,
        None => {
            return FilterResult::Passthrough;
        },
    };
    match apply_filter(payload.output.as_str(), payload.exit_code, rule) {
        Some(text) => {
            if str_eq(text.as_str(), payload.output.as_str()) {
                FilterResult::Passthrough
            } else {
                FilterResult::Replace(text)
            }
        },
        None => FilterResult::Suppress,
    }
}

// ---------------------------------------------------------------------------
// Redaction
// ---------------------------------------------------------------------------

/// A redaction rule: lines matching `pattern` are replaced by `[REDACTED]`.
#[derive(Debug, Clone)]
pub struct RedactRule {
    pub label: String,
    pub pattern: String,
}

/// The redaction filters file.
#[derive(Debug, Clone)]
pub struct ObfsckFilters {
    pub filters: Vec<RedactRule>,
}

impl Default for ObfsckFilters {
    fn default() -> (f: Self)
        ensures
            f.filters@.len() == 0,
    {
        ObfsckFilters { filters: Vec::new() }
    }
}

/// The patterns of the rules that compile, in order.
pub open spec fn compiling_patterns(rules: Seq<RedactRule>) -> Seq<Seq<char>>
    decreases rules.len(),
{
    if rules.len() == 0 {
        seq![]
    } else if regex_compiles(rules.last().pattern@) {
        compiling_patterns(rules.drop_last()).push(rules.last().pattern@)
    } else {
        compiling_patterns(rules.drop_last())
    }
}

/// Whether one of the patterns matches `line`.
pub open spec fn any_finds(patterns: Seq<Seq<char>>, line: Seq<char>) -> bool
    decreases patterns.len(),
{
    if patterns.len() == 0 {
        false
    } else {
        any_finds(patterns.drop_last(), line) || regex_finds(patterns.last(), line)
    }
}

pub open spec fn redact_line(patterns: Seq<Seq<char>>, line: Seq<char>) -> Seq<char> {
    if any_finds(patterns, line) { "[REDACTED]"@ } else { line }
}

/// The output with every line that a compiling rule matches replaced by
/// `[REDACTED]`, lines joined by `\n`, and a final newline kept; unchanged
/// when no rule compiles.
pub open spec fn redacted(output: Seq<char>, rules: Seq<RedactRule>) -> Seq<char> {
    let cps = compiling_patterns(rules);
    if cps.len() == 0 {
        output
    } else {
        join_lines(lines(output).map_values(|l: Seq<char>| redact_line(cps, l)))
            + (if output.len() > 0 && output.last() == '\n' { seq!['\n'] } else { seq![] })
    }
}

/// A line is hit when any one of the patterns matches it, wherever that pattern
/// stands in the list.
pub proof fn lemma_any_finds_some_pattern(patterns: Seq<Seq<char>>, line: Seq<char>)
    ensures
        any_finds(patterns, line) <==> exists|k: int| 0 <= k < patterns.len() && regex_finds(
            #[trigger] patterns[k],
            line,
        ),
    decreases patterns.len(),
{
    if patterns.len() > 0 {
        let prev = patterns.drop_last();
        lemma_any_finds_some_pattern(prev, line);
        if any_finds(prev, line) {
            let k = choose|k: int| 0 <= k < prev.len() && regex_finds(#[trigger] prev[k], line);
            assert(patterns[k] == prev[k]);
        }
        if exists|k: int| 0 <= k < patterns.len() && regex_finds(#[trigger] patterns[k], line) {
            let k = choose|k: int| 0 <= k < patterns.len() && regex_finds(#[trigger] patterns[k], line);
            if k < prev.len() {
                assert(prev[k] == patterns[k]);
            }
        }
    }
}

/// A line is redacted exactly when some rule's pattern compiles and matches it;
/// every other line is kept as it is.
pub proof fn lemma_redacted_line_iff_some_rule(rules: Seq<RedactRule>, line: Seq<char>)
    ensures
        redact_line(compiling_patterns(rules), line) == if exists|i: int|
            0 <= i < rules.len() && regex_compiles(#[trigger] rules[i].pattern@) && regex_finds(
                rules[i].pattern@,
                line,
            ) {
            "[REDACTED]"@
        } else {
            line
        },
{
    lemma_compiling_hit(rules, line);
}

proof fn lemma_compiling_hit(rules: Seq<RedactRule>, line: Seq<char>)
    ensures
        any_finds(compiling_patterns(rules), line) <==> exists|i: int|
            0 <= i < rules.len() && regex_compiles(#[trigger] rules[i].pattern@) && regex_finds(
                rules[i].pattern@,
                line,
            ),
    decreases rules.len(),
{
    if rules.len() > 0 {
        let prev = rules.drop_last();
        let p = rules.last().pattern@;
        lemma_compiling_hit(prev, line);
        if regex_compiles(p) {
            assert(compiling_patterns(rules).drop_last() == compiling_patterns(prev));
        }
        if any_finds(compiling_patterns(prev), line) {
            let i = choose|i: int|
                0 <= i < prev.len() && regex_compiles(#[trigger] prev[i].pattern@) && regex_finds(
                    prev[i].pattern@,
                    line,
                );
            assert(rules[i] == prev[i]);
        }
        if exists|i: int|
            0 <= i < rules.len() && regex_compiles(#[trigger] rules[i].pattern@) && regex_finds(
                rules[i].pattern@,
                line,
            ) {
            let i = choose|i: int|
                0 <= i < rules.len() && regex_compiles(#[trigger] rules[i].pattern@) && regex_finds(
                    rules[i].pattern@,
                    line,
                );
            if i < prev.len() {
                assert(prev[i] == rules[i]);
            } else {
                assert(rules[i] == rules.last());
            }
        }
    }
}

pub open spec fn regex_views(v: Seq<CompiledRegex>) -> Seq<Seq<char>> {
    v.map_values(|r: CompiledRegex| r@)
}

fn line_hit(compiled: &Vec<CompiledRegex>, line: &str) -> (b: bool)
    ensures
        b == any_finds(regex_views(compiled@), line@),
{
    let mut hit = false;
    let mut j: usize = 0;
    while j < compiled.len()
        invariant
            j <= compiled@.len(),
            hit == any_finds(regex_views(compiled@).take(j as int), line@),
        decreases compiled.len() - j,
    {
        proof {
            assert(regex_views(compiled@).take(j + 1).drop_last() == regex_views(compiled@).take(j as int));
            assert(regex_views(compiled@).take(j + 1).last() == compiled@[j as int]@);
        }
        if is_match(&compiled[j], line) {
            hit = true;
        }
        j += 1;
    }
    proof { assert(regex_views(compiled@).take(compiled@.len() as int) == regex_views(compiled@)); }
    hit
}

/// Replace the lines of `output` that a redaction pattern matches.
pub fn apply_redaction(output: &str, filters: &ObfsckFilters) -> (r: String)
    ensures
        r@ == redacted(output@, filters.filters@),
{
    let rules = &filters.filters;
    if rules.len() == 0 {
        return owned(output);
    }
    let mut compiled: Vec<CompiledRegex> = Vec::new();
    let mut i: usize = 0;
    while i < rules.len()
        invariant
            rules@ == filters.filters@,
            i <= rules@.len(),
            regex_views(compiled@) == compiling_patterns(rules@.take(i as int)),
        decreases rules.len() - i,
    {
        proof {
            assert(rules@.take(i + 1).drop_last() == rules@.take(i as int));
            assert(rules@.take(i + 1).last() == rules@[i as int]);
        }
        match compile(rules[i].pattern.as_str()) {
            Some(re) => {
                let ghost before = regex_views(compiled@);
                compiled.push(re);
                proof { assert(regex_views(compiled@) =~= before.push(rules@[i as int].pattern@)); }
            },
            None => {},
        }
        i += 1;
    }
    proof { assert(rules@.take(rules@.len() as int) == rules@); }
    if compiled.len() == 0 {
        return owned(output);
    }
    let ls = lines_of(output);
    let mut out_lines: Vec<String> = Vec::new();
    let mut k: usize = 0;
    proof { reveal_strlit("[REDACTED]"); }
    while k < ls.len()
        invariant
            k <= ls@.len(),
            regex_views(compiled@) == compiling_patterns(filters.filters@),
            str_views(ls@) == lines(output@),
            out_lines@.len() == k,
            forall|j: int| 0 <= j < k ==> (#[trigger] out_lines@[j])@ == redact_line(regex_views(compiled@), ls@[j]@),
        decreases ls.len() - k,
    {
        if line_hit(&compiled, ls[k].as_str()) {
            out_lines.push(owned("[REDACTED]"));
        } else {
            out_lines.push(owned(ls[k].as_str()));
        }
        k += 1;
    }
    proof {
        assert(str_views(out_lines@) =~= lines(output@).map_values(
            |l: Seq<char>| redact_line(compiling_patterns(filters.filters@), l),
        ));
    }
    let mut result = join_strings(&out_lines);
    let v = chars_of(output);
    if v.len() > 0 && v[v.len() - 1] == '\n' {
        push_char(&mut result, '\n');
    }
    result
}

} // verus!
