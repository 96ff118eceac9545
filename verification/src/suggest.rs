//! Rule suggestions from unhandled command history.
use vstd::prelude::*;
use vstd::multiset::Multiset;
use crate::history::CommandFreq;
use crate::text::{
    char_views, chars_of, lowercase, owned, push_char, push_str, split_words, str_eq, string_of,
    string_of_range, to_lowercase, words,
};

verus! {

broadcast use vstd::seq_lib::group_to_multiset_ensures;

/// A candidate rule generated from an unhandled command stem.
pub struct SuggestedRule {
    pub id: String,
    pub pattern: String,
    pub target_commands: Vec<String>,
    pub message: String,
    pub example: String,
    pub count: u64,
    pub est_tokens: u64,
}

/// Characters escaped by [`regex_escape`].
pub open spec fn is_regex_special(c: char) -> bool {
    c == '\\' || c == '.' || c == '+' || c == '*' || c == '?' || c == '(' || c == ')' || c == '|'
        || c == '[' || c == ']' || c == '{' || c == '}' || c == '^' || c == '$' || c == '#' || c
        == '&' || c == '-' || c == '~'
}

pub open spec fn escaped(s: Seq<char>) -> Seq<char>
    decreases s.len(),
{
    if s.len() == 0 {
        seq![]
    } else {
        escaped(s.drop_last()) + if is_regex_special(s.last()) {
            seq!['\\', s.last()]
        } else {
            seq![s.last()]
        }
    }
}

/// Minimal regex escaping for literal string use in patterns.
pub fn regex_escape(s: &str) -> (r: String)
    ensures
        r@ == escaped(s@),
{
    let v = chars_of(s);
    let mut out = String::new();
    let mut i: usize = 0;
    while i < v.len()
        invariant
            i <= v@.len(),
            v@ == s@,
            out@ == escaped(v@.take(i as int)),
        decreases v.len() - i,
    {
        proof {
            assert(v@.take(i + 1).drop_last() == v@.take(i as int));
            assert(v@.take(i + 1).last() == v@[i as int]);
        }
        let c = v[i];
        if c == '\\' || c == '.' || c == '+' || c == '*' || c == '?' || c == '(' || c == ')' || c
            == '|' || c == '[' || c == ']' || c == '{' || c == '}' || c == '^' || c == '$' || c
            == '#' || c == '&' || c == '-' || c == '~' {
            push_char(&mut out, '\\');
        }
        push_char(&mut out, c);
        i += 1;
    }
    proof { assert(v@.take(v@.len() as int) == v@); }
    out
}

/// The first word of `stem`, or all of it when it has no words.
pub open spec fn first_word(stem: Seq<char>) -> Seq<char> {
    if words(stem).len() > 0 { words(stem)[0] } else { stem }
}

/// Known tool mappings: first word of a stem → (target commands, message).
pub open spec fn tool_mapping(first: Seq<char>) -> Option<(Seq<Seq<char>>, Seq<char>)> {
    if first == "grep"@ || first == "rg"@ {
        Some((seq!["grep"@, "rg"@], "Use the Grep tool instead."@))
    } else if first == "cat"@ {
        Some((seq!["cat"@], "Use the Read tool instead."@))
    } else if first == "head"@ || first == "tail"@ {
        Some((seq!["head"@, "tail"@], "Use the Read tool with offset/limit instead."@))
    } else if first == "find"@ {
        Some((seq!["find"@], "Use the Glob tool instead."@))
    } else if first == "ls"@ {
        Some((seq!["ls"@], "Use the Glob tool for file discovery."@))
    } else if first == "sed"@ {
        Some((seq!["sed"@], "Use the Edit tool for file modifications."@))
    } else if first == "sleep"@ {
        Some((seq!["sleep"@], "Do not sleep. Use run_in_background or find other work."@))
    } else if first == "cd"@ {
        Some((seq!["cd"@], "Use absolute paths or git -C instead of changing directory."@))
    } else if first == "npm"@ || first == "npx"@ {
        Some((seq!["npm"@, "npx"@], "Use bun/bunx instead."@))
    } else if first == "nvm"@ {
        Some((seq!["nvm"@], "Use mise use node@<version> instead."@))
    } else if first == "pip"@ || first == "pip3"@ {
        Some((seq!["pip"@, "pip3"@], "Use uv add or uv pip install instead."@))
    } else if first == "awk"@ {
        Some((seq!["awk"@], "Use the Grep tool or Edit tool instead of awk."@))
    } else if first == "curl"@ || first == "wget"@ {
        Some((seq!["curl"@, "wget"@], "Use the WebFetch tool for HTTP requests."@))
    } else {
        None
    }
}

fn strings2(a: &str, b: &str) -> (v: Vec<String>)
    ensures
        v@.map_values(|s: String| s@) == seq![a@, b@],
{
    let mut v = Vec::new();
    v.push(owned(a));
    v.push(owned(b));
    proof { assert(v@.map_values(|s: String| s@) == seq![a@, b@]); }
    v
}

fn strings1(a: &str) -> (v: Vec<String>)
    ensures
        v@.map_values(|s: String| s@) == seq![a@],
{
    let mut v = Vec::new();
    v.push(owned(a));
    proof { assert(v@.map_values(|s: String| s@) == seq![a@]); }
    v
}

/// Known tool mappings: command stem → (target_commands, suggested tool/message).
pub fn known_tool_mapping(stem: &str) -> (r: Option<(Vec<String>, String)>)
    ensures
        match r {
            Some(p) => tool_mapping(first_word(stem@)) == Some(
                (p.0@.map_values(|s: String| s@), p.1@),
            ),
            None => tool_mapping(first_word(stem@)) is None,
        },
{
    let ws = split_words(stem);
    let first = if ws.len() > 0 {
        string_of(ws[0].as_slice())
    } else {
        owned(stem)
    };
    proof {
        if ws@.len() > 0 {
            assert(words(stem@)[0] == ws@[0]@);
        }
    }
    let f = first.as_str();
    if str_eq(f, "grep") || str_eq(f, "rg") {
        Some((strings2("grep", "rg"), owned("Use the Grep tool instead.")))
    } else if str_eq(f, "cat") {
        Some((strings1("cat"), owned("Use the Read tool instead.")))
    } else if str_eq(f, "head") || str_eq(f, "tail") {
        Some((strings2("head", "tail"), owned("Use the Read tool with offset/limit instead.")))
    } else if str_eq(f, "find") {
        Some((strings1("find"), owned("Use the Glob tool instead.")))
    } else if str_eq(f, "ls") {
        Some((strings1("ls"), owned("Use the Glob tool for file discovery.")))
    } else if str_eq(f, "sed") {
        Some((strings1("sed"), owned("Use the Edit tool for file modifications.")))
    } else if str_eq(f, "sleep") {
        Some((strings1("sleep"), owned("Do not sleep. Use run_in_background or find other work.")))
    } else if str_eq(f, "cd") {
        Some((strings1("cd"), owned("Use absolute paths or git -C instead of changing directory.")))
    } else if str_eq(f, "npm") || str_eq(f, "npx") {
        Some((strings2("npm", "npx"), owned("Use bun/bunx instead.")))
    } else if str_eq(f, "nvm") {
        Some((strings1("nvm"), owned("Use mise use node@<version> instead.")))
    } else if str_eq(f, "pip") || str_eq(f, "pip3") {
        Some((strings2("pip", "pip3"), owned("Use uv add or uv pip install instead.")))
    } else if str_eq(f, "awk") {
        Some((strings1("awk"), owned("Use the Grep tool or Edit tool instead of awk.")))
    } else if str_eq(f, "curl") || str_eq(f, "wget") {
        Some((strings2("curl", "wget"), owned("Use the WebFetch tool for HTTP requests.")))
    } else {
        None
    }
}

pub open spec fn dash_for_space_slash(s: Seq<char>) -> Seq<char>
    decreases s.len(),
{
    if s.len() == 0 {
        seq![]
    } else {
        dash_for_space_slash(s.drop_last()).push(
            if s.last() == ' ' || s.last() == '/' {
                '-'
            } else {
                s.last()
            },
        )
    }
}

/// Position of the first space in `s`, if any.
pub open spec fn first_space_from(s: Seq<char>, k: int) -> Option<int>
    decreases s.len() - k,
{
    if k < 0 || k >= s.len() {
        None
    } else if s[k] == ' ' {
        Some(k)
    } else {
        first_space_from(s, k + 1)
    }
}

/// The rule derived from a stem: (id, pattern, target commands, message).
pub open spec fn rule_spec(stem: Seq<char>) -> (Seq<char>, Seq<char>, Seq<Seq<char>>, Seq<char>) {
    let id = "no-"@ + dash_for_space_slash(lowercase(stem));
    let first = first_word(stem);
    let pattern = match first_space_from(stem, 0) {
        Some(k) => "(?:^|\\s)"@ + escaped(stem.take(k)) + "(?:\\s+"@ + escaped(stem.skip(k + 1))
            + "\\b)"@,
        None => "\\b"@ + escaped(first) + "\\b"@,
    };
    match tool_mapping(first) {
        Some(m) => (id, pattern, m.0, m.1),
        None => (id, pattern, seq![first], "Consider using a dedicated tool instead of `"@ + stem
            + "`."@),
    }
}

fn dashes(s: &str) -> (r: String)
    ensures
        r@ == dash_for_space_slash(s@),
{
    let v = chars_of(s);
    let mut out = String::new();
    let mut i: usize = 0;
    while i < v.len()
        invariant
            i <= v@.len(),
            v@ == s@,
            out@ == dash_for_space_slash(v@.take(i as int)),
        decreases v.len() - i,
    {
        proof {
            assert(v@.take(i + 1).drop_last() == v@.take(i as int));
            assert(v@.take(i + 1).last() == v@[i as int]);
        }
        let c = v[i];
        push_char(&mut out, if c == ' ' || c == '/' { '-' } else { c });
        i += 1;
    }
    proof { assert(v@.take(v@.len() as int) == v@); }
    out
}

proof fn lemma_first_space(s: Seq<char>, k: int, j: int)
    requires
        0 <= k <= j <= s.len(),
        forall|m: int| k <= m < j ==> #[trigger] s[m] != ' ',
    ensures
        first_space_from(s, k) == first_space_from(s, j),
    decreases j - k,
{
    if k < j {
        lemma_first_space(s, k + 1, j);
    }
}

/// Text without regex-special characters escapes to itself.
pub proof fn lemma_escaped_plain(s: Seq<char>)
    requires
        forall|k: int| 0 <= k < s.len() ==> !is_regex_special(#[trigger] s[k]),
    ensures
        escaped(s) == s,
    decreases s.len(),
{
    if s.len() > 0 {
        lemma_escaped_plain(s.drop_last());
        assert(s.drop_last().push(s.last()) == s);
    }
}

/// The pattern for a stem of two words or more, `first rest`, matches the first
/// word and then, after whitespace, the rest, in that order: it is
/// `(?:^|\s)` + the escaped first word + `(?:\s+` + the escaped rest + `\b)`.
/// Where neither holds a regex-special character, the words stand in the
/// pattern as they are.
pub proof fn lemma_two_word_pattern(first: Seq<char>, rest: Seq<char>)
    requires
        forall|k: int| 0 <= k < first.len() ==> #[trigger] first[k] != ' ',
    ensures
        rule_spec(first + seq![' '] + rest).1 == "(?:^|\\s)"@ + escaped(first) + "(?:\\s+"@ + escaped(
            rest,
        ) + "\\b)"@,
        (forall|k: int| 0 <= k < first.len() ==> !is_regex_special(#[trigger] first[k])) && (forall|k: int|
            0 <= k < rest.len() ==> !is_regex_special(#[trigger] rest[k])) ==> rule_spec(
            first + seq![' '] + rest,
        ).1 == "(?:^|\\s)"@ + first + "(?:\\s+"@ + rest + "\\b)"@,
{
    let stem = first + seq![' '] + rest;
    let n = first.len() as int;
    assert forall|m: int| 0 <= m < n implies #[trigger] stem[m] != ' ' by {
        assert(stem[m] == first[m]);
    }
    lemma_first_space(stem, 0, n);
    assert(stem[n] == ' ');
    assert(first_space_from(stem, 0) == Some(n));
    assert(stem.take(n) == first);
    assert(stem.skip(n + 1) == rest);
    if (forall|k: int| 0 <= k < first.len() ==> !is_regex_special(#[trigger] first[k])) && (forall|k: int|
        0 <= k < rest.len() ==> !is_regex_special(#[trigger] rest[k])) {
        lemma_escaped_plain(first);
        lemma_escaped_plain(rest);
    }
}

/// The pattern for a one-word stem (no space) is that word, escaped, between
/// word boundaries.
pub proof fn lemma_one_word_pattern(stem: Seq<char>)
    requires
        forall|k: int| 0 <= k < stem.len() ==> #[trigger] stem[k] != ' ',
    ensures
        rule_spec(stem).1 == "\\b"@ + escaped(first_word(stem)) + "\\b"@,
{
    lemma_first_space(stem, 0, stem.len() as int);
}

/// Derive a rule id, regex pattern, target_commands, and message from a command stem.
pub fn rule_for_stem(stem: &str) -> (r: (String, String, Vec<String>, String))
    ensures
        (r.0@, r.1@, r.2@.map_values(|s: String| s@), r.3@) == rule_spec(stem@),
{
    let lower = to_lowercase(stem);
    let mut id = owned("no-");
    let d = dashes(lower.as_str());
    push_str(&mut id, d.as_str());
    let v = chars_of(stem);
    let ws = split_words(stem);
    let first = if ws.len() > 0 {
        string_of(ws[0].as_slice())
    } else {
        owned(stem)
    };
    proof {
        if ws@.len() > 0 {
            assert(words(stem@)[0] == ws@[0]@);
        }
    }
    let mut k: usize = 0;
    while k < v.len() && v[k] != ' '
        invariant
            k <= v@.len(),
            v@ == stem@,
            forall|m: int| 0 <= m < k ==> #[trigger] v@[m] != ' ',
        decreases v.len() - k,
    {
        k += 1;
    }
    proof { lemma_first_space(v@, 0, k as int); }
    let pattern = if k < v.len() {
        let a = string_of_range(v.as_slice(), 0, k);
        let b = string_of_range(v.as_slice(), k + 1, v.len());
        let mut p = owned("(?:^|\\s)");
        let ea = regex_escape(a.as_str());
        push_str(&mut p, ea.as_str());
        push_str(&mut p, "(?:\\s+");
        let eb = regex_escape(b.as_str());
        push_str(&mut p, eb.as_str());
        push_str(&mut p, "\\b)");
        proof {
            assert(v@.subrange(0, k as int) == stem@.take(k as int));
            assert(v@.subrange(k + 1, v@.len() as int) == stem@.skip(k + 1));
        }
        p
    } else {
        let mut p = owned("\\b");
        let e = regex_escape(first.as_str());
        push_str(&mut p, e.as_str());
        push_str(&mut p, "\\b");
        p
    };
    match known_tool_mapping(stem) {
        Some((targets, message)) => (id, pattern, targets, message),
        None => {
            let mut targets: Vec<String> = Vec::new();
            targets.push(first);
            let mut message = owned("Consider using a dedicated tool instead of `");
            push_str(&mut message, stem);
            push_str(&mut message, "`.");
            proof { assert(targets@.map_values(|s: String| s@) == seq![first@]); }
            (id, pattern, targets, message)
        },
    }
}

} // verus!

verus! {

pub type SuggestionView = (Seq<char>, Seq<char>, Seq<Seq<char>>, Seq<char>, Seq<char>, u64, u64);

pub open spec fn suggestion_view(r: SuggestedRule) -> SuggestionView {
    (r.id@, r.pattern@, r.target_commands@.map_values(|s: String| s@), r.message@, r.example@, r.count, r.est_tokens)
}

pub open spec fn suggestion_views(v: Seq<SuggestedRule>) -> Seq<SuggestionView> {
    v.map_values(|r: SuggestedRule| suggestion_view(r))
}

/// Impact score of a suggestion: frequency × token estimate (at least 1).
pub open spec fn score(v: SuggestionView) -> int {
    v.5 * (if v.6 >= 1 { v.6 as int } else { 1 })
}

/// The suggestion for each frequency entry with a non-empty stem, in input order.
pub open spec fn suggestions_for(fs: Seq<CommandFreq>) -> Seq<SuggestionView>
    decreases fs.len(),
{
    if fs.len() == 0 {
        seq![]
    } else {
        let f = fs.last();
        let r = rule_spec(f.stem@);
        suggestions_for(fs.drop_last()) + if f.stem@.len() > 0 {
            seq![(r.0, r.1, r.2, r.3, f.example@, f.count, f.est_tokens)]
        } else {
            seq![]
        }
    }
}

fn score_exec(r: &SuggestedRule) -> (s: u128)
    ensures
        s == score(suggestion_view(*r)),
{
    let est: u64 = if r.est_tokens >= 1 { r.est_tokens } else { 1 };
    proof {
        assert(r.count as int * est as int <= u64::MAX as int * u64::MAX as int) by (nonlinear_arith)
            requires r.count <= u64::MAX, est <= u64::MAX, r.count >= 0, est >= 0;
    }
    (r.count as u128) * (est as u128)
}

/// `r` is `base` reordered, equal scores keeping their order in `base`: some
/// one-to-one choice of positions of `base` gives each item of `r`, and of two
/// items with the same score the earlier comes from the earlier position.
pub open spec fn stably_ordered(r: Seq<SuggestionView>, base: Seq<SuggestionView>) -> bool {
    exists|p: Seq<int>| #[trigger] stable_witness(r, base, p)
}

pub open spec fn stable_witness(r: Seq<SuggestionView>, base: Seq<SuggestionView>, p: Seq<int>) -> bool {
    &&& p.len() == r.len() == base.len()
    &&& forall|i: int| 0 <= i < r.len() ==> 0 <= #[trigger] p[i] < base.len() && r[i] == base[p[i]]
    &&& forall|i: int, j: int| 0 <= i < j < r.len() ==> #[trigger] p[i] != #[trigger] p[j]
    &&& forall|i: int, j: int| 0 <= i < j < r.len() && score(#[trigger] r[i]) == score(#[trigger] r[j]) ==> p[i] < p[j]
}

/// Generate rule suggestions from unhandled command frequencies, highest
/// score (count × token estimate) first; equal scores keep their input order.
pub fn suggest(unhandled: &[CommandFreq]) -> (r: Vec<SuggestedRule>)
    ensures
        suggestion_views(r@).to_multiset() == suggestions_for(unhandled@).to_multiset(),
        forall|i: int, j: int|
            0 <= i < j < r@.len() ==> score(suggestion_view(r@[i])) >= score(suggestion_view(r@[j])),
        stably_ordered(suggestion_views(r@), suggestions_for(unhandled@)),
{
    let mut rules: Vec<SuggestedRule> = Vec::new();
    let mut i: usize = 0;
    while i < unhandled.len()
        invariant
            i <= unhandled@.len(),
            suggestion_views(rules@) == suggestions_for(unhandled@.take(i as int)),
        decreases unhandled.len() - i,
    {
        proof {
            assert(unhandled@.take(i + 1).drop_last() == unhandled@.take(i as int));
            assert(unhandled@.take(i + 1).last() == unhandled@[i as int]);
        }
        let f = &unhandled[i];
        if !f.stem.as_str().is_empty() {
            let (id, pattern, target_commands, message) = rule_for_stem(f.stem.as_str());
            let item = SuggestedRule {
                id,
                pattern,
                target_commands,
                message,
                example: f.example.clone(),
                count: f.count,
                est_tokens: f.est_tokens,
            };
            let ghost before = suggestion_views(rules@);
            rules.push(item);
            proof { assert(suggestion_views(rules@) == before.push(suggestion_view(item))); }
        }
        i += 1;
    }
    proof { assert(unhandled@.take(unhandled@.len() as int) == unhandled@); }
    let ghost base = suggestion_views(rules@);
    let mut rest = rules;
    let mut out: Vec<SuggestedRule> = Vec::new();
    let ghost mut idx_rest: Seq<int> = Seq::new(base.len(), |k: int| k);
    let ghost mut idx_out: Seq<int> = Seq::empty();
    while rest.len() > 0
        invariant
            suggestion_views(out@).to_multiset().add(suggestion_views(rest@).to_multiset()) == base.to_multiset(),
            forall|a: int, b: int| 0 <= a < b < out@.len() ==> score(suggestion_view(out@[a])) >= score(suggestion_view(out@[b])),
            forall|a: int, b: int|
                #![trigger out@[a], rest@[b]]
                0 <= a < out@.len() && 0 <= b < rest@.len() ==> score(suggestion_view(out@[a])) >= score(suggestion_view(rest@[b])),
            idx_rest.len() == rest@.len(),
            idx_out.len() == out@.len(),
            out@.len() + rest@.len() == base.len(),
            forall|b: int| 0 <= b < rest@.len() ==> 0 <= #[trigger] idx_rest[b] < base.len()
                && suggestion_view(rest@[b]) == base[idx_rest[b]],
            forall|b: int, c: int| 0 <= b < c < rest@.len() ==> #[trigger] idx_rest[b] < #[trigger] idx_rest[c],
            forall|a: int| 0 <= a < out@.len() ==> 0 <= #[trigger] idx_out[a] < base.len()
                && suggestion_view(out@[a]) == base[idx_out[a]],
            forall|a: int, c: int| 0 <= a < c < out@.len() ==> #[trigger] idx_out[a] != #[trigger] idx_out[c],
            forall|a: int, b: int| 0 <= a < out@.len() && 0 <= b < rest@.len() ==> #[trigger] idx_out[a] != #[trigger] idx_rest[b],
            forall|a: int, c: int| 0 <= a < c < out@.len() && score(suggestion_view(#[trigger] out@[a])) == score(suggestion_view(#[trigger] out@[c]))
                ==> idx_out[a] < idx_out[c],
            forall|a: int, b: int| 0 <= a < out@.len() && 0 <= b < rest@.len() && score(suggestion_view(#[trigger] out@[a])) == score(suggestion_view(#[trigger] rest@[b]))
                ==> idx_out[a] < idx_rest[b],
        decreases rest.len(),
    {
        let mut best: usize = 0;
        let mut best_score = score_exec(&rest[0]);
        let mut j: usize = 1;
        while j < rest.len()
            invariant
                best < rest@.len(),
                1 <= j <= rest@.len(),
                best < j,
                best_score == score(suggestion_view(rest@[best as int])),
                forall|m: int| 0 <= m < j ==> best_score >= #[trigger] score(suggestion_view(rest@[m])),
                forall|m: int| 0 <= m < best ==> best_score > #[trigger] score(suggestion_view(rest@[m])),
            decreases rest.len() - j,
        {
            let s = score_exec(&rest[j]);
            if s > best_score {
                best = j;
                best_score = s;
            }
            j += 1;
        }
        let ghost rv = suggestion_views(rest@);
        let ghost ov = suggestion_views(out@);
        let ghost old_rest = rest@;
        let ghost old_out = out@;
        let ghost old_ir = idx_rest;
        let ghost old_io = idx_out;
        let item = rest.remove(best);
        out.push(item);
        proof {
            idx_rest = old_ir.remove(best as int);
            idx_out = old_io.push(old_ir[best as int]);
            assert(suggestion_views(rest@) == rv.remove(best as int));
            assert(suggestion_views(out@) == ov.push(suggestion_view(item)));
            assert(rv[best as int] == suggestion_view(item));
            assert(suggestion_views(out@).to_multiset() == ov.to_multiset().insert(suggestion_view(item)));
            assert(suggestion_views(rest@).to_multiset() == rv.to_multiset().remove(suggestion_view(item)));
            assert(suggestion_views(out@).to_multiset().add(suggestion_views(rest@).to_multiset()) =~= ov.to_multiset().add(rv.to_multiset()));
            assert forall|a: int, b: int|
                #![trigger out@[a], rest@[b]]
                0 <= a < out@.len() && 0 <= b < rest@.len() implies score(suggestion_view(out@[a])) >= score(suggestion_view(rest@[b])) by {
                let b2 = if b < best { b } else { b + 1 };
                assert(rest@[b] == old_rest[b2]);
                if a < old_out.len() {
                    assert(out@[a] == old_out[a]);
                } else {
                    assert(out@[a] == old_rest[best as int]);
                    assert(best_score >= score(suggestion_view(old_rest[b2])));
                }
            }
            assert forall|a: int, b: int| 0 <= a < b < out@.len() implies score(suggestion_view(out@[a])) >= score(suggestion_view(out@[b])) by {
                if b < old_out.len() {
                    assert(out@[a] == old_out[a] && out@[b] == old_out[b]);
                } else {
                    assert(out@[a] == old_out[a]);
                    assert(out@[b] == old_rest[best as int]);
                }
            }
            assert forall|b: int| 0 <= b < rest@.len() implies 0 <= #[trigger] idx_rest[b] < base.len()
                && suggestion_view(rest@[b]) == base[idx_rest[b]] by {
                let b2 = if b < best { b } else { b + 1 };
                assert(rest@[b] == old_rest[b2]);
                assert(idx_rest[b] == old_ir[b2]);
            }
            assert forall|b: int, c: int| 0 <= b < c < rest@.len() implies #[trigger] idx_rest[b] < #[trigger] idx_rest[c] by {
                let b2 = if b < best { b } else { b + 1 };
                let c2 = if c < best { c } else { c + 1 };
                assert(idx_rest[b] == old_ir[b2]);
                assert(idx_rest[c] == old_ir[c2]);
            }
            assert forall|a: int| 0 <= a < out@.len() implies 0 <= #[trigger] idx_out[a] < base.len()
                && suggestion_view(out@[a]) == base[idx_out[a]] by {
                if a < old_out.len() {
                    assert(out@[a] == old_out[a]);
                    assert(idx_out[a] == old_io[a]);
                } else {
                    assert(out@[a] == old_rest[best as int]);
                }
            }
            assert forall|a: int, c: int| 0 <= a < c < out@.len() implies #[trigger] idx_out[a] != #[trigger] idx_out[c] by {
                assert(idx_out[a] == old_io[a]);
                if c < old_out.len() {
                    assert(idx_out[c] == old_io[c]);
                } else {
                    assert(idx_out[c] == old_ir[best as int]);
                }
            }
            assert forall|a: int, b: int| 0 <= a < out@.len() && 0 <= b < rest@.len() implies #[trigger] idx_out[a] != #[trigger] idx_rest[b] by {
                let b2 = if b < best { b } else { b + 1 };
                assert(idx_rest[b] == old_ir[b2]);
                if a < old_out.len() {
                    assert(idx_out[a] == old_io[a]);
                } else {
                    assert(idx_out[a] == old_ir[best as int]);
                }
            }
            assert forall|a: int, c: int| 0 <= a < c < out@.len() && score(suggestion_view(#[trigger] out@[a])) == score(suggestion_view(#[trigger] out@[c]))
                implies idx_out[a] < idx_out[c] by {
                assert(out@[a] == old_out[a]);
                assert(idx_out[a] == old_io[a]);
                if c < old_out.len() {
                    assert(out@[c] == old_out[c]);
                    assert(idx_out[c] == old_io[c]);
                } else {
                    assert(out@[c] == old_rest[best as int]);
                    assert(idx_out[c] == old_ir[best as int]);
                }
            }
            assert forall|a: int, b: int| 0 <= a < out@.len() && 0 <= b < rest@.len() && score(suggestion_view(#[trigger] out@[a])) == score(suggestion_view(#[trigger] rest@[b]))
                implies idx_out[a] < idx_rest[b] by {
                let b2 = if b < best { b } else { b + 1 };
                assert(rest@[b] == old_rest[b2]);
                assert(idx_rest[b] == old_ir[b2]);
                if a < old_out.len() {
                    assert(out@[a] == old_out[a]);
                    assert(idx_out[a] == old_io[a]);
                } else {
                    assert(out@[a] == old_rest[best as int]);
                    assert(idx_out[a] == old_ir[best as int]);
                    if b2 < best {
                        assert(best_score > score(suggestion_view(old_rest[b2])));
                    }
                }
            }
        }
    }
    proof {
        assert(suggestion_views(rest@).to_multiset() =~= Multiset::empty());
        assert(suggestion_views(out@).to_multiset().add(Multiset::empty()) =~= suggestion_views(out@).to_multiset());
        let r = suggestion_views(out@);
        assert(stable_witness(r, base, idx_out)) by {
            assert forall|i: int| 0 <= i < r.len() implies 0 <= #[trigger] idx_out[i] < base.len() && r[i] == base[idx_out[i]] by {}
            assert forall|i: int, j: int| 0 <= i < j < r.len() && score(#[trigger] r[i]) == score(#[trigger] r[j]) implies idx_out[i] < idx_out[j] by {
                assert(r[i] == suggestion_view(out@[i]));
                assert(r[j] == suggestion_view(out@[j]));
            }
        }
    }
    out
}

} // verus!
