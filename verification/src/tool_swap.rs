//! Swapping simple file-reading shell commands (`cat`, `head`, `tail`,
//! `find`) for the agent's own Read and Glob tools.
//!
//! `apply` decides from the command alone; where the swap depends on the file
//! (its size, a sample of its lines, its line count), it says which file to
//! look at and `finish_read` completes the decision from those facts.
use vstd::prelude::*;
use crate::rules::seq_views;
use crate::shell::{parse, parsed_argv};
use crate::text::{chars_of, owned, push_str, str_eq, has_prefix, string_of_range};

verus! {

/// Default line count for head/tail without `-n` (as coreutils).
pub const DEFAULT_HEAD_TAIL_LINES: usize = 10;

/// Approximate bytes per token.
pub const SWAP_BYTES_PER_TOKEN: usize = 4;

/// Average bytes per line assumed when the file cannot be sampled.
pub const DEFAULT_AVG_BYTES_PER_LINE: usize = 80;

/// Number of lines sampled to estimate the average line length.
pub const LINE_SAMPLE_SIZE: usize = 20;

/// Tool-swap limits, from `[tool_swap]` in the filters file.
#[derive(Debug, Clone, Copy)]
pub struct ToolSwapConfig {
    /// Token budget for a bare `cat <file>`.
    pub cat_token_limit: usize,
    /// A `tail` asking for more lines than this is not swapped.
    pub tail_limit_max: usize,
    /// A `find` with a larger `-maxdepth` is not swapped.
    pub find_depth_max: usize,
}

impl Default for ToolSwapConfig {
    fn default() -> (c: Self)
        ensures
            c.cat_token_limit == 4000,
            c.tail_limit_max == 500,
            c.find_depth_max == 10,
    {
        ToolSwapConfig { cat_token_limit: 4000, tail_limit_max: 500, find_depth_max: 10 }
    }
}

/// The input of a swapped tool call.
#[derive(Debug, Clone, PartialEq, Eq)]
pub enum ToolInput {
    Read { file_path: String, offset: Option<usize>, limit: Option<usize> },
    Glob { pattern: String },
}

/// The result of attempting a tool swap.
#[derive(Debug, Clone, PartialEq, Eq)]
pub enum ToolAction {
    /// No swap: the command runs unchanged.
    Passthrough,
    /// Redirect to another tool.
    SwapTool { tool_name: String, tool_input: ToolInput },
}

/// Which lines of a file a swapped read asks for.
#[derive(Debug, Clone, Copy, PartialEq, Eq, Structural)]
pub enum ReadLines {
    /// `cat`: the whole file, unless it is over the token budget.
    Whole,
    /// `head -n N`.
    Head(usize),
    /// `tail -n N`.
    Tail(usize),
}

/// What `apply` decided from the command alone.
#[derive(Debug)]
pub enum SwapPlan {
    Decided(ToolAction),
    /// A read of `file` (as written in the command), to be completed by
    /// `finish_read` once the file has been looked at.
    ReadFile { file: String, lines: ReadLines },
}

// ---------------------------------------------------------------------------
// Integer parsing
// ---------------------------------------------------------------------------

pub open spec fn is_digit(c: char) -> bool {
    '0' <= c <= '9'
}

pub open spec fn all_digits(s: Seq<char>) -> bool {
    forall|k: int| 0 <= k < s.len() ==> is_digit(#[trigger] s[k])
}

/// The value of a string of decimal digits.
pub open spec fn digits_value(s: Seq<char>) -> nat
    decreases s.len(),
{
    if s.len() == 0 {
        0
    } else {
        digits_value(s.drop_last()) * 10 + ((s.last() as u32) - ('0' as u32)) as nat
    }
}

/// `usize::from_str`: an optional `+` and at least one decimal digit, nothing
/// else, with a value that fits.
pub open spec fn parsed_usize(s: Seq<char>) -> Option<nat> {
    let d = if s.len() > 0 && s[0] == '+' { s.drop_first() } else { s };
    if d.len() > 0 && all_digits(d) && digits_value(d) <= usize::MAX {
        Some(digits_value(d))
    } else {
        None
    }
}

proof fn lemma_digits_value_monotone(s: Seq<char>, k: int)
    requires
        0 <= k <= s.len(),
        all_digits(s),
    ensures
        digits_value(s.take(k)) <= digits_value(s),
    decreases s.len() - k,
{
    if k < s.len() {
        lemma_digits_value_monotone(s, k + 1);
        assert(s.take(k + 1).drop_last() == s.take(k));
        assert(s.take(k + 1).last() == s[k]);
        assert(is_digit(s[k]));
        assert(digits_value(s.take(k + 1)) == digits_value(s.take(k)) * 10 + ((s[k] as u32) - ('0' as u32)) as nat);
    } else {
        assert(s.take(k) == s);
    }
}

fn digits_only(v: &[char], lo: usize) -> (b: bool)
    requires
        lo <= v@.len(),
    ensures
        b == all_digits(v@.skip(lo as int)),
{
    let mut i = lo;
    while i < v.len()
        invariant
            lo <= i <= v@.len(),
            forall|k: int| lo <= k < i ==> is_digit(#[trigger] v@[k]),
        decreases v.len() - i,
    {
        if !('0' <= v[i] && v[i] <= '9') {
            proof { assert(!is_digit(v@.skip(lo as int)[i - lo])); }
            return false;
        }
        i += 1;
    }
    proof {
        assert forall|k: int| 0 <= k < v@.skip(lo as int).len() implies is_digit(#[trigger] v@.skip(lo as int)[k]) by {
            assert(v@.skip(lo as int)[k] == v@[lo + k]);
        }
    }
    true
}

/// The value of the digits `v[lo..]`, when it fits.
fn digits_to_usize(v: &[char], lo: usize) -> (r: Option<usize>)
    requires
        lo <= v@.len(),
        all_digits(v@.skip(lo as int)),
    ensures
        match r {
            Some(x) => x as nat == digits_value(v@.skip(lo as int)),
            None => digits_value(v@.skip(lo as int)) > usize::MAX,
        },
{
    let ghost d = v@.skip(lo as int);
    let mut acc: usize = 0;
    let mut i: usize = lo;
    while i < v.len()
        invariant
            lo <= i <= v@.len(),
            d == v@.skip(lo as int),
            all_digits(d),
            acc as nat == digits_value(d.take(i - lo)),
        decreases v.len() - i,
    {
        let c = v[i];
        proof {
            assert(d[i - lo] == c);
            assert(is_digit(c));
        }
        let digit: usize = ((c as u32) - ('0' as u32)) as usize;
        proof {
            assert(d.take(i + 1 - lo).drop_last() == d.take(i - lo));
            assert(d.take(i + 1 - lo).last() == c);
            assert(digits_value(d.take(i + 1 - lo)) == acc as nat * 10 + digit as nat);
        }
        let next = match acc.checked_mul(10) {
            Some(m) => m.checked_add(digit),
            None => None,
        };
        match next {
            Some(x) => {
                acc = x;
            },
            None => {
                proof { lemma_digits_value_monotone(d, i + 1 - lo); }
                return None;
            },
        }
        i += 1;
    }
    proof { assert(d.take(i - lo) == d); }
    Some(acc)
}

/// `s.parse::<usize>().ok()`.
pub fn parse_usize(s: &str) -> (r: Option<usize>)
    ensures
        match r {
            Some(v) => parsed_usize(s@) == Some(v as nat),
            None => parsed_usize(s@) is None,
        },
{
    let v = chars_of(s);
    let start: usize = if v.len() > 0 && v[0] == '+' { 1 } else { 0 };
    proof {
        let d = if s@.len() > 0 && s@[0] == '+' { s@.drop_first() } else { s@ };
        assert(d == v@.skip(start as int));
    }
    if start >= v.len() {
        return None;
    }
    if !digits_only(&v, start) {
        return None;
    }
    digits_to_usize(&v, start)
}

// ---------------------------------------------------------------------------
// Argument scanning
// ---------------------------------------------------------------------------

pub open spec fn is_flag(a: Seq<char>) -> bool {
    a.len() > 0 && a[0] == '-'
}

/// How `-n N`, `--lines N`, `-N` and a file argument set `(n, file)`; `None`
/// when a count does not parse, `-n` has no value, another flag appears, or
/// there is no file.
pub open spec fn scan_n_file(args: Seq<Seq<char>>, i: int, n: nat, file: Option<Seq<char>>) -> Option<(nat, Seq<char>)>
    decreases args.len() - i,
{
    if i < 0 || i >= args.len() {
        match file {
            Some(f) => Some((n, f)),
            None => None,
        }
    } else {
        let a = args[i];
        if a == "-n"@ || a == "--lines"@ {
            if i + 1 >= args.len() {
                None
            } else {
                match parsed_usize(args[i + 1]) {
                    Some(v) => scan_n_file(args, i + 2, v, file),
                    None => None,
                }
            }
        } else if is_flag(a) && parsed_usize(a.drop_first()) is Some {
            scan_n_file(args, i + 1, parsed_usize(a.drop_first())->0, file)
        } else if !is_flag(a) {
            scan_n_file(args, i + 1, n, Some(a))
        } else {
            None
        }
    }
}

fn flag_rest(a: &str) -> (r: String)
    requires
        a@.len() > 0,
    ensures
        r@ == a@.drop_first(),
{
    let v = chars_of(a);
    let r = string_of_range(&v, 1, v.len());
    proof { assert(v@.subrange(1, v@.len() as int) == a@.drop_first()); }
    r
}

fn starts_with_dash(a: &str) -> (b: bool)
    ensures
        b == is_flag(a@),
{
    let v = chars_of(a);
    v.len() > 0 && v[0] == '-'
}

/// Parse `-n N FILE`, `-N FILE` or `FILE`; the count defaults to `default_n`.
pub fn parse_n_file(args: &[String], default_n: usize) -> (r: Option<(usize, String)>)
    ensures
        match r {
            Some((n, f)) => scan_n_file(seq_views(args@), 0, default_n as nat, None) == Some((n as nat, f@)),
            None => scan_n_file(seq_views(args@), 0, default_n as nat, None) is None,
        },
{
    let ghost sv = seq_views(args@);
    let mut n = default_n;
    let mut file: Option<String> = None;
    let mut i: usize = 0;
    proof {
        reveal_strlit("-n");
        reveal_strlit("--lines");
    }
    while i < args.len()
        invariant
            sv == seq_views(args@),
            i <= args@.len(),
            scan_n_file(sv, 0, default_n as nat, None) == scan_n_file(sv, i as int, n as nat, crate::rules::opt_view(file)),
        decreases args.len() - i,
    {
        let a = &args[i];
        assert(sv[i as int] == a@);
        if str_eq(a.as_str(), "-n") || str_eq(a.as_str(), "--lines") {
            if i + 1 >= args.len() {
                return None;
            }
            assert(sv[i + 1] == args@[i + 1]@);
            match parse_usize(args[i + 1].as_str()) {
                Some(v) => {
                    n = v;
                    i += 2;
                },
                None => {
                    return None;
                },
            }
        } else if starts_with_dash(a.as_str()) && parse_usize(flag_rest(a.as_str()).as_str()).is_some() {
            let rest = flag_rest(a.as_str());
            match parse_usize(rest.as_str()) {
                Some(v) => {
                    n = v;
                },
                None => {},
            }
            i += 1;
        } else if !starts_with_dash(a.as_str()) {
            file = Some(a.clone());
            i += 1;
        } else {
            return None;
        }
    }
    match file {
        Some(f) => Some((n, f)),
        None => None,
    }
}

// ---------------------------------------------------------------------------
// find
// ---------------------------------------------------------------------------

/// Flags that make a `find` more than a name search.
pub open spec fn complex_find_flag(a: Seq<char>) -> bool {
    ||| a == "-exec"@
    ||| a == "-delete"@
    ||| a == "-newer"@
    ||| a == "-mtime"@
    ||| a == "-atime"@
    ||| a == "-ctime"@
    ||| a == "-size"@
    ||| a == "-perm"@
    ||| a == "-empty"@
    ||| a == "-L"@
}

/// The first index at or after `k` holding `x`.
pub open spec fn index_of(args: Seq<Seq<char>>, x: Seq<char>, k: int) -> Option<int>
    decreases args.len() - k,
{
    if k < 0 || k >= args.len() {
        None
    } else if args[k] == x {
        Some(k)
    } else {
        index_of(args, x, k + 1)
    }
}

/// The first argument at or after `k` that is not a flag.
pub open spec fn first_non_flag(args: Seq<Seq<char>>, k: int) -> Option<Seq<char>>
    decreases args.len() - k,
{
    if k < 0 || k >= args.len() {
        None
    } else if !is_flag(args[k]) {
        Some(args[k])
    } else {
        first_non_flag(args, k + 1)
    }
}

/// `s` without trailing `/` (`trim_end_matches('/')`).
pub open spec fn trim_slashes(s: Seq<char>) -> Seq<char>
    decreases s.len(),
{
    if s.len() > 0 && s.last() == '/' {
        trim_slashes(s.drop_last())
    } else {
        s
    }
}

/// The glob a `find <path> -name <glob>` becomes, or `None` to pass it through:
/// none for a complex flag, a `-maxdepth` above the limit, or no `-name` value.
pub open spec fn find_glob(args: Seq<Seq<char>>, depth_max: nat) -> Option<Seq<char>> {
    let too_deep = match index_of(args, "-maxdepth"@, 0) {
        Some(p) => p + 1 < args.len() && (parsed_usize(args[p + 1]) matches Some(d) && d > depth_max),
        None => false,
    };
    let path = match first_non_flag(args, 0) {
        Some(p) => p,
        None => "."@,
    };
    if exists|k: int| 0 <= k < args.len() && complex_find_flag(#[trigger] args[k]) {
        None
    } else if too_deep {
        None
    } else {
        match index_of(args, "-name"@, 0) {
            Some(i) if i + 1 < args.len() => Some(
                if path == "."@ {
                    "**/"@ + args[i + 1]
                } else {
                    trim_slashes(path) + "/**/"@ + args[i + 1]
                },
            ),
            _ => None,
        }
    }
}

fn is_complex_find_flag(a: &str) -> (b: bool)
    ensures
        b == complex_find_flag(a@),
{
    proof {
        reveal_strlit("-exec");
        reveal_strlit("-delete");
        reveal_strlit("-newer");
        reveal_strlit("-mtime");
        reveal_strlit("-atime");
        reveal_strlit("-ctime");
        reveal_strlit("-size");
        reveal_strlit("-perm");
        reveal_strlit("-empty");
        reveal_strlit("-L");
    }
    str_eq(a, "-exec") || str_eq(a, "-delete") || str_eq(a, "-newer") || str_eq(a, "-mtime") || str_eq(a, "-atime")
        || str_eq(a, "-ctime") || str_eq(a, "-size") || str_eq(a, "-perm") || str_eq(a, "-empty") || str_eq(a, "-L")
}

fn index_of_exec(args: &[String], x: &str) -> (r: Option<usize>)
    ensures
        match r {
            Some(k) => index_of(seq_views(args@), x@, 0) == Some(k as int) && k < args@.len(),
            None => index_of(seq_views(args@), x@, 0) is None,
        },
{
    let ghost sv = seq_views(args@);
    let mut k: usize = 0;
    while k < args.len()
        invariant
            sv == seq_views(args@),
            k <= args@.len(),
            index_of(sv, x@, 0) == index_of(sv, x@, k as int),
        decreases args.len() - k,
    {
        assert(sv[k as int] == args@[k as int]@);
        if str_eq(args[k].as_str(), x) {
            return Some(k);
        }
        k += 1;
    }
    None
}

fn first_non_flag_exec(args: &[String]) -> (r: Option<usize>)
    ensures
        match r {
            Some(k) => k < args@.len() && first_non_flag(seq_views(args@), 0) == Some(args@[k as int]@),
            None => first_non_flag(seq_views(args@), 0) is None,
        },
{
    let ghost sv = seq_views(args@);
    let mut k: usize = 0;
    while k < args.len()
        invariant
            sv == seq_views(args@),
            k <= args@.len(),
            first_non_flag(sv, 0) == first_non_flag(sv, k as int),
        decreases args.len() - k,
    {
        assert(sv[k as int] == args@[k as int]@);
        if !starts_with_dash(args[k].as_str()) {
            return Some(k);
        }
        k += 1;
    }
    None
}

fn trim_trailing_slashes(s: &str) -> (r: String)
    ensures
        r@ == trim_slashes(s@),
{
    let v = chars_of(s);
    let mut hi = v.len();
    proof { assert(v@.subrange(0, v@.len() as int) == v@); }
    while hi > 0 && v[hi - 1] == '/'
        invariant
            hi <= v@.len(),
            trim_slashes(v@) == trim_slashes(v@.subrange(0, hi as int)),
        decreases hi,
    {
        proof { assert(v@.subrange(0, hi as int).drop_last() == v@.subrange(0, hi - 1)); }
        hi -= 1;
    }
    proof {
        assert(v@.subrange(0, v@.len() as int) == v@);
    }
    string_of_range(&v, 0, hi)
}

/// The glob for a `find` command's arguments, or `None` to pass it through.
pub fn find_pattern(args: &[String], config: &ToolSwapConfig) -> (r: Option<String>)
    ensures
        crate::rules::opt_view(r) == find_glob(seq_views(args@), config.find_depth_max as nat),
{
    let ghost sv = seq_views(args@);
    let mut k: usize = 0;
    while k < args.len()
        invariant
            sv == seq_views(args@),
            k <= args@.len(),
            forall|j: int| 0 <= j < k ==> !complex_find_flag(#[trigger] sv[j]),
        decreases args.len() - k,
    {
        assert(sv[k as int] == args@[k as int]@);
        if is_complex_find_flag(args[k].as_str()) {
            return None;
        }
        k += 1;
    }
    proof {
        reveal_strlit("-maxdepth");
        reveal_strlit("-name");
        reveal_strlit(".");
        reveal_strlit("**/");
        reveal_strlit("/**/");
    }
    match index_of_exec(args, "-maxdepth") {
        Some(p) => {
            if p + 1 < args.len() {
                assert(sv[p + 1] == args@[p + 1]@);
                match parse_usize(args[p + 1].as_str()) {
                    Some(d) => {
                        if d > config.find_depth_max {
                            return None;
                        }
                    },
                    None => {},
                }
            }
        },
        None => {},
    }
    let path: String = match first_non_flag_exec(args) {
        Some(k) => args[k].clone(),
        None => owned("."),
    };
    match index_of_exec(args, "-name") {
        Some(i) => {
            if i + 1 < args.len() {
                assert(sv[i + 1] == args@[i + 1]@);
                let glob = args[i + 1].as_str();
                if str_eq(path.as_str(), ".") {
                    let mut p = owned("**/");
                    push_str(&mut p, glob);
                    Some(p)
                } else {
                    let mut p = trim_trailing_slashes(path.as_str());
                    push_str(&mut p, "/**/");
                    push_str(&mut p, glob);
                    Some(p)
                }
            } else {
                None
            }
        },
        None => None,
    }
}

// ---------------------------------------------------------------------------
// Dispatch
// ---------------------------------------------------------------------------

/// What `apply` decides for `cmd`: `cat FILE` (one argument, not a flag),
/// `head`/`tail` with a count and a file (a `tail` over `tail_limit_max`
/// lines passes through) become reads of that file; `find` becomes a Glob
/// search; anything else passes through.
pub open spec fn plan_is(plan: SwapPlan, cmd: Seq<char>, config: ToolSwapConfig) -> bool {
    match parsed_argv(cmd) {
        None => plan matches SwapPlan::Decided(ToolAction::Passthrough),
        Some(w) => {
            let name = w[0];
            let args = w.drop_first();
            if name == "cat"@ {
                if args.len() == 1 && !is_flag(args[0]) {
                    plan matches SwapPlan::ReadFile { file, lines } && file@ == args[0] && lines == ReadLines::Whole
                } else {
                    plan matches SwapPlan::Decided(ToolAction::Passthrough)
                }
            } else if name == "head"@ || name == "tail"@ {
                match scan_n_file(args, 0, DEFAULT_HEAD_TAIL_LINES as nat, None) {
                    Some((n, f)) => if name == "tail"@ && n > config.tail_limit_max {
                        plan matches SwapPlan::Decided(ToolAction::Passthrough)
                    } else {
                        plan matches SwapPlan::ReadFile { file, lines } && file@ == f
                            && lines == (if name == "head"@ { ReadLines::Head(n as usize) } else { ReadLines::Tail(n as usize) })
                    },
                    None => plan matches SwapPlan::Decided(ToolAction::Passthrough),
                }
            } else if name == "find"@ {
                match find_glob(args, config.find_depth_max as nat) {
                    Some(g) => plan matches SwapPlan::Decided(ToolAction::SwapTool { tool_name, tool_input })
                        && tool_name@ == "Glob"@ && (tool_input matches ToolInput::Glob { pattern } && pattern@ == g),
                    None => plan matches SwapPlan::Decided(ToolAction::Passthrough),
                }
            } else {
                plan matches SwapPlan::Decided(ToolAction::Passthrough)
            }
        },
    }
}

/// Attempt to swap `cmd` for a tool call.
pub fn apply(cmd: &str, config: &ToolSwapConfig) -> (plan: SwapPlan)
    ensures
        plan_is(plan, cmd@, *config),
{
    proof {
        reveal_strlit("cat");
        reveal_strlit("head");
        reveal_strlit("tail");
        reveal_strlit("find");
        reveal_strlit("Glob");
    }
    let parsed = match parse(cmd) {
        Some(p) => p,
        None => {
            return SwapPlan::Decided(ToolAction::Passthrough);
        },
    };
    let name = parsed.name();
    let args = parsed.args();
    proof {
        assert(seq_views(args@) == seq_views(parsed.argv@).drop_first());
    }
    if str_eq(name, "cat") {
        if args.len() == 1 && !starts_with_dash(args[0].as_str()) {
            assert(seq_views(args@)[0] == args@[0]@);
            return SwapPlan::ReadFile { file: args[0].clone(), lines: ReadLines::Whole };
        }
        return SwapPlan::Decided(ToolAction::Passthrough);
    }
    let is_head = str_eq(name, "head");
    let is_tail = str_eq(name, "tail");
    if is_head || is_tail {
        match parse_n_file(args, DEFAULT_HEAD_TAIL_LINES) {
            Some((n, file)) => {
                if is_tail && n > config.tail_limit_max {
                    return SwapPlan::Decided(ToolAction::Passthrough);
                }
                let lines = if is_head { ReadLines::Head(n) } else { ReadLines::Tail(n) };
                return SwapPlan::ReadFile { file, lines };
            },
            None => {
                return SwapPlan::Decided(ToolAction::Passthrough);
            },
        }
    }
    if str_eq(name, "find") {
        return match find_pattern(args, config) {
            Some(pattern) => SwapPlan::Decided(
                ToolAction::SwapTool { tool_name: owned("Glob"), tool_input: ToolInput::Glob { pattern } },
            ),
            None => SwapPlan::Decided(ToolAction::Passthrough),
        };
    }
    SwapPlan::Decided(ToolAction::Passthrough)
}

// ---------------------------------------------------------------------------
// Reads
// ---------------------------------------------------------------------------

/// What was found out about the file to read.
#[derive(Debug, Clone)]
pub struct FileFacts {
    /// Its size in bytes, when its metadata could be read.
    pub size: Option<u64>,
    /// The byte lengths of its first lines (without the newline), when they
    /// could all be read as text.
    pub line_lengths: Option<Vec<usize>>,
    /// Its number of newline bytes, when it could be read.
    pub newlines: Option<usize>,
}

pub open spec fn sample_bytes(s: Seq<usize>) -> nat
    decreases s.len(),
{
    if s.len() == 0 {
        0
    } else {
        sample_bytes(s.drop_last()) + s.last() as nat + 1
    }
}

/// Average bytes per line (newline included, rounded up) over the first
/// `LINE_SAMPLE_SIZE` lines.
pub open spec fn avg_line_bytes(lengths: Option<Seq<usize>>) -> Option<nat> {
    match lengths {
        None => None,
        Some(all) => {
            let s = if all.len() > LINE_SAMPLE_SIZE { all.take(LINE_SAMPLE_SIZE as int) } else { all };
            if s.len() == 0 {
                None
            } else {
                let total = sample_bytes(s);
                Some(total / s.len() + (if total % s.len() != 0 { 1nat } else { 0nat }))
            }
        },
    }
}

/// The line limit of a read over the token budget, `None` when the file's
/// size is unknown or its estimated tokens (size / 4) fit the budget.
pub open spec fn line_limit(facts: FileFacts, token_limit: usize) -> Option<nat> {
    match facts.size {
        None => None,
        Some(sz) => if ((sz / 4) as usize) <= token_limit {
            None
        } else {
            let avg: nat = match avg_line_bytes(crate::tool_swap::opt_seq(facts.line_lengths)) {
                Some(a) => a,
                None => DEFAULT_AVG_BYTES_PER_LINE as nat,
            };
            let lim = (token_limit * 4) as nat / (if avg >= 1 { avg } else { 1 });
            Some(if lim >= 1 { lim } else { 1 })
        },
    }
}

pub open spec fn opt_seq(v: Option<Vec<usize>>) -> Option<Seq<usize>> {
    match v {
        Some(x) => Some(x@),
        None => None,
    }
}

pub open spec fn fits_sample(v: Option<Vec<usize>>) -> bool {
    match v {
        Some(x) => sample_bytes(if x@.len() > LINE_SAMPLE_SIZE { x@.take(LINE_SAMPLE_SIZE as int) } else { x@ }) <= usize::MAX,
        None => true,
    }
}

fn avg_line_bytes_exec(lengths: &Option<Vec<usize>>) -> (r: Option<usize>)
    requires
        fits_sample(*lengths),
    ensures
        match r {
            Some(a) => avg_line_bytes(opt_seq(*lengths)) == Some(a as nat),
            None => avg_line_bytes(opt_seq(*lengths)) is None,
        },
{
    match lengths {
        None => None,
        Some(all) => {
            let count: usize = if all.len() > LINE_SAMPLE_SIZE { LINE_SAMPLE_SIZE } else { all.len() };
            let ghost s = if all@.len() > LINE_SAMPLE_SIZE { all@.take(LINE_SAMPLE_SIZE as int) } else { all@ };
            proof { assert(s == all@.take(count as int)); }
            if count == 0 {
                return None;
            }
            let mut total: usize = 0;
            let mut i: usize = 0;
            while i < count
                invariant
                    count <= all@.len(),
                    s == all@.take(count as int),
                    sample_bytes(s) <= usize::MAX,
                    i <= count,
                    total as nat == sample_bytes(all@.take(i as int)),
                decreases count - i,
            {
                proof {
                    assert(all@.take(i + 1).drop_last() == all@.take(i as int));
                    lemma_sample_prefix(s, i + 1);
                    assert(s.take(i + 1) == all@.take(i + 1));
                }
                total = total + all[i] + 1;
                i += 1;
            }
            proof { assert(all@.take(count as int) == s); }
            let extra: usize = if total % count != 0 { 1 } else { 0 };
            proof {
                if count == 1 {
                    assert(total % 1 == 0) by (nonlinear_arith);
                } else {
                    assert(total / count <= total / 2) by (nonlinear_arith)
                        requires count >= 2;
                }
            }
            Some(total / count + extra)
        },
    }
}

proof fn lemma_sample_prefix(s: Seq<usize>, k: int)
    requires
        0 <= k <= s.len(),
    ensures
        sample_bytes(s.take(k)) <= sample_bytes(s),
    decreases s.len() - k,
{
    if k < s.len() {
        lemma_sample_prefix(s, k + 1);
        assert(s.take(k + 1).drop_last() == s.take(k));
    } else {
        assert(s.take(k) == s);
    }
}

/// The line limit for a read of a file over the token budget.
pub fn compute_line_limit(facts: &FileFacts, token_limit: usize) -> (r: Option<usize>)
    requires
        token_limit * 4 <= usize::MAX,
        fits_sample(facts.line_lengths),
    ensures
        match r {
            Some(l) => line_limit(*facts, token_limit) == Some(l as nat),
            None => line_limit(*facts, token_limit) is None,
        },
{
    let size = match facts.size {
        Some(sz) => sz,
        None => {
            return None;
        },
    };
    let est: usize = (size / 4) as usize;
    if est <= token_limit {
        return None;
    }
    let avg = match avg_line_bytes_exec(&facts.line_lengths) {
        Some(a) => a,
        None => DEFAULT_AVG_BYTES_PER_LINE,
    };
    let divisor = if avg >= 1 { avg } else { 1 };
    let limit = (token_limit * SWAP_BYTES_PER_TOKEN) / divisor;
    Some(if limit >= 1 { limit } else { 1 })
}

/// `~` or `$HOME` at the start of a path replaced by the home directory.
pub open spec fn expanded_path(path: Seq<char>, home: Option<Seq<char>>) -> Seq<char> {
    match home {
        Some(h) => if path.len() > 0 && path[0] == '~' {
            h + path.skip(1)
        } else if has_prefix(path, "$HOME"@) {
            h + path.skip(5)
        } else {
            path
        },
        None => path,
    }
}

/// Expand a leading `~` or `$HOME` in a path.
pub fn expand_path(path: &str, home: &Option<String>) -> (r: String)
    ensures
        r@ == expanded_path(path@, crate::rules::opt_view(*home)),
{
    proof { reveal_strlit("$HOME"); }
    let v = chars_of(path);
    match home {
        Some(h) => {
            if v.len() > 0 && v[0] == '~' {
                let mut out = h.clone();
                let rest = string_of_range(&v, 1, v.len());
                push_str(&mut out, rest.as_str());
                proof { assert(v@.subrange(1, v@.len() as int) == path@.skip(1)); }
                return out;
            }
            let hv = chars_of("$HOME");
            if v.len() >= 5 && v[0] == '$' && v[1] == 'H' && v[2] == 'O' && v[3] == 'M' && v[4] == 'E' {
                proof { assert(path@.take(5) =~= "$HOME"@); }
                let mut out = h.clone();
                let rest = string_of_range(&v, 5, v.len());
                push_str(&mut out, rest.as_str());
                proof { assert(v@.subrange(5, v@.len() as int) == path@.skip(5)); }
                return out;
            }
            proof {
                if has_prefix(path@, "$HOME"@) {
                    assert(path@.take(5) == "$HOME"@);
                    assert(path@[0] == path@.take(5)[0]);
                    assert(path@[1] == path@.take(5)[1]);
                    assert(path@[2] == path@.take(5)[2]);
                    assert(path@[3] == path@.take(5)[3]);
                    assert(path@[4] == path@.take(5)[4]);
                }
            }
            owned(path)
        },
        None => owned(path),
    }
}

/// The read a planned swap becomes, given the expanded path and the facts
/// about that file: `cat` reads the whole file or, over budget, up to the line
/// limit; `head` reads `n` lines, clamped to the limit; `tail` reads the same
/// from `n` lines before the end (the newline count, 0 when unknown).
pub open spec fn read_action_is(a: ToolAction, path: Seq<char>, lines: ReadLines, facts: FileFacts, config: ToolSwapConfig) -> bool {
    let lim = line_limit(facts, config.cat_token_limit);
    &&& a matches ToolAction::SwapTool { tool_name, tool_input }
    &&& tool_name@ == "Read"@
    &&& tool_input matches ToolInput::Read { file_path, offset, limit }
    &&& file_path@ == path
    &&& match lines {
        ReadLines::Whole => offset is None && match lim {
            Some(l) => limit == Some(l as usize),
            None => limit is None,
        },
        ReadLines::Head(n) => offset is None && limit == Some(clamped(n as nat, lim) as usize),
        ReadLines::Tail(n) => {
            let total: nat = match facts.newlines {
                Some(t) => t as nat,
                None => 0,
            };
            &&& offset == Some((if total >= n { total - n } else { 0 }) as usize)
            &&& limit == Some(clamped(n as nat, lim) as usize)
        },
    }
}

pub open spec fn clamped(n: nat, lim: Option<nat>) -> nat {
    match lim {
        Some(l) => if n <= l { n } else { l },
        None => n,
    }
}

/// Complete a planned read once the file has been looked at.
pub fn finish_read(path: &str, lines: ReadLines, facts: &FileFacts, config: &ToolSwapConfig) -> (a: ToolAction)
    requires
        config.cat_token_limit * 4 <= usize::MAX,
        fits_sample(facts.line_lengths),
    ensures
        read_action_is(a, path@, lines, *facts, *config),
{
    proof { reveal_strlit("Read"); }
    let lim = compute_line_limit(facts, config.cat_token_limit);
    let input = match lines {
        ReadLines::Whole => ToolInput::Read { file_path: owned(path), offset: None, limit: lim },
        ReadLines::Head(n) => {
            let l = match lim {
                Some(m) => if n <= m { n } else { m },
                None => n,
            };
            ToolInput::Read { file_path: owned(path), offset: None, limit: Some(l) }
        },
        ReadLines::Tail(n) => {
            let total: usize = match facts.newlines {
                Some(t) => t,
                None => 0,
            };
            let offset = if total >= n { total - n } else { 0 };
            let l = match lim {
                Some(m) => if n <= m { n } else { m },
                None => n,
            };
            ToolInput::Read { file_path: owned(path), offset: Some(offset), limit: Some(l) }
        },
    };
    ToolAction::SwapTool { tool_name: owned("Read"), tool_input: input }
}


/// A larger file never estimates fewer tokens.
pub proof fn lemma_token_estimate_monotonic(a: u64, b: u64)
    requires
        a <= b,
    ensures
        a / 4 <= b / 4,
{
}

/// A plain file argument reads the default count of lines.
pub proof fn lemma_single_file_default_count(f: Seq<char>)
    requires
        !is_flag(f),
    ensures
        scan_n_file(seq![f], 0, DEFAULT_HEAD_TAIL_LINES as nat, None) == Some((DEFAULT_HEAD_TAIL_LINES as nat, f)),
{
    assert(scan_n_file(seq![f], 1, DEFAULT_HEAD_TAIL_LINES as nat, Some(f)) == Some((DEFAULT_HEAD_TAIL_LINES as nat, f)));
    reveal_strlit("-n");
    reveal_strlit("--lines");
    if f == "-n"@ {
        assert(f[0] == '-');
    }
    if f == "--lines"@ {
        assert(f[0] == '-');
    }
}

} // verus!
