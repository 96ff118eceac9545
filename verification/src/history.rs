//! Command-history analysis: grouping commands by stem and counting how many
//! would be intercepted by the rules.
use vstd::prelude::*;
use crate::rules::{Rule, first_firing, matched_rule_id, opt_view};
use crate::text::{
    char_views, chars_of, contains_char_in, push_char, split_words, starts_with_char, string_of,
    string_of_range, words,
};

verus! {

/// Approximate bytes per token, on average.
pub const BYTES_PER_TOKEN: usize = 4;

pub open spec fn is_assignment(t: Seq<char>) -> bool {
    t.contains('=') && !(t.len() > 0 && t[0] == '-')
}

/// Index of the first word at or after `k` that is not a `KEY=val` assignment.
pub open spec fn skip_assignments(ts: Seq<Seq<char>>, k: int) -> int
    decreases ts.len() - k,
{
    if 0 <= k < ts.len() && is_assignment(ts[k]) {
        skip_assignments(ts, k + 1)
    } else {
        k
    }
}

/// The part of `t` after its last `/` (all of `t` when it has none).
pub open spec fn base_name(t: Seq<char>) -> Seq<char>
    decreases t.len(),
{
    if t.len() == 0 {
        t
    } else if t.last() == '/' {
        seq![]
    } else {
        base_name(t.drop_last()).push(t.last())
    }
}

pub open spec fn is_flag(t: Seq<char>) -> bool {
    t.len() > 0 && t[0] == '-'
}

/// The stem of a command: its first word after any leading `KEY=val`
/// assignments, without path prefix, followed by the next word when that is
/// not a flag and a third word exists.
pub open spec fn stem(cmd: Seq<char>) -> Seq<char> {
    let ts = words(cmd);
    let rest = ts.skip(skip_assignments(ts, 0));
    if rest.len() == 0 {
        seq![]
    } else if rest.len() > 2 && !is_flag(rest[1]) {
        base_name(rest[0]) + seq![' '] + rest[1]
    } else {
        base_name(rest[0])
    }
}

proof fn lemma_skip_assignments(ts: Seq<Seq<char>>, k: int)
    requires
        0 <= k,
    ensures
        k <= skip_assignments(ts, k),
        skip_assignments(ts, k) <= ts.len() || skip_assignments(ts, k) == k,
    decreases ts.len() - k,
{
    if 0 <= k < ts.len() && is_assignment(ts[k]) {
        lemma_skip_assignments(ts, k + 1);
    }
}

fn base_name_start(t: &Vec<char>) -> (r: usize)
    ensures
        r <= t@.len(),
        t@.subrange(r as int, t@.len() as int) == base_name(t@),
{
    let mut k = t.len();
    proof {
        assert(t@.take(t@.len() as int) == t@);
        assert(t@.subrange(t@.len() as int, t@.len() as int) == Seq::<char>::empty());
    }
    while k > 0 && t[k - 1] != '/'
        invariant
            k <= t@.len(),
            base_name(t@) == base_name(t@.take(k as int)) + t@.subrange(k as int, t@.len() as int),
        decreases k,
    {
        proof {
            let tk = t@.take(k as int);
            assert(tk.drop_last() == t@.take(k - 1));
            assert(t@.subrange(k - 1, t@.len() as int) == seq![t@[k - 1]] + t@.subrange(k as int, t@.len() as int));
        }
        k -= 1;
    }
    proof {
        if k > 0 {
            assert(t@.take(k as int).last() == '/');
        }
        assert(base_name(t@.take(k as int)) == Seq::<char>::empty());
    }
    k
}

/// Extracts the command stem (1–2 word prefix) used for frequency grouping.
pub fn stem_of(command: &str) -> (r: String)
    ensures
        r@ == stem(command@),
{
    let ts = split_words(command);
    let mut start: usize = 0;
    while start < ts.len() && contains_char_in(&ts[start], '=') && !starts_with_char(&ts[start], '-')
        invariant
            start <= ts@.len(),
            char_views(ts@) == words(command@),
            skip_assignments(words(command@), 0) == skip_assignments(words(command@), start as int),
        decreases ts.len() - start,
    {
        proof { assert(words(command@)[start as int] == ts@[start as int]@); }
        start += 1;
    }
    let ghost wsq = words(command@);
    proof {
        if start < ts.len() {
            assert(wsq[start as int] == ts@[start as int]@);
        }
        assert(skip_assignments(wsq, start as int) == start);
        let rest = wsq.skip(start as int);
        assert(rest.len() == ts@.len() - start);
    }
    if start >= ts.len() {
        let e = String::new();
        return e;
    }
    let first = &ts[start];
    let b = base_name_start(first);
    let mut out = string_of_range(first.as_slice(), b, first.len());
    proof {
        let rest = wsq.skip(start as int);
        assert(rest[0] == ts@[start as int]@);
    }
    if ts.len() - start > 2 && !starts_with_char(&ts[start + 1], '-') {
        push_char(&mut out, ' ');
        let second = string_of(ts[start + 1].as_slice());
        crate::text::push_str(&mut out, second.as_str());
        proof {
            let rest = wsq.skip(start as int);
            assert(rest[1] == ts@[start + 1]@);
        }
    } else {
        proof {
            let rest = wsq.skip(start as int);
            if ts.len() - start > 2 {
                assert(rest[1] == ts@[start + 1]@);
            }
        }
    }
    out
}

} // verus!

verus! {

pub struct CommandRecord {
    pub command: String,
    pub session_id: String,
    pub cwd: String,
    pub timestamp: Option<String>,
    /// Actual output byte count from the tool_result record, if available.
    pub output_bytes: Option<usize>,
}

/// Interface: where recorded commands come from.
pub trait CommandSource {
    fn commands(&self) -> Vec<CommandRecord>;
}

pub struct CommandFreq {
    pub stem: String,
    pub count: u64,
    pub example: String,
    pub est_tokens: u64,
    pub rule_id: Option<String>,
}

pub struct DiscoverReport {
    pub intercepted: Vec<CommandFreq>,
    pub unhandled: Vec<CommandFreq>,
    pub scanned_sessions: usize,
    pub scanned_commands: usize,
}

/// A frequency entry as plain values: (stem, count, example, est_tokens, rule_id).
pub type FreqView = (Seq<char>, u64, Seq<char>, u64, Option<Seq<char>>);

pub open spec fn freq_view(f: CommandFreq) -> FreqView {
    (f.stem@, f.count, f.example@, f.est_tokens, opt_view(f.rule_id))
}

pub open spec fn freq_views(v: Seq<CommandFreq>) -> Seq<FreqView> {
    v.map_values(|f: CommandFreq| freq_view(f))
}

pub open spec fn stems_distinct(s: Seq<FreqView>) -> bool {
    forall|i: int, j: int| 0 <= i < s.len() && 0 <= j < s.len() && i != j ==> s[i].0 != s[j].0
}

pub open spec fn sat_add(a: u64, b: int) -> u64 {
    if a + b > u64::MAX { u64::MAX } else { (a + b) as u64 }
}

pub open spec fn find_stem_from(s: Seq<FreqView>, stem: Seq<char>, k: int) -> Option<int>
    decreases s.len() - k,
{
    if k < 0 || k >= s.len() {
        None
    } else if s[k].0 == stem {
        Some(k)
    } else {
        find_stem_from(s, stem, k + 1)
    }
}

pub open spec fn token_estimate(bytes: Option<usize>) -> int {
    match bytes {
        Some(b) => b as int / 4,
        None => 0,
    }
}

/// `groups` after counting one more command with `stem`.
pub open spec fn tally(
    groups: Seq<FreqView>,
    stem: Seq<char>,
    command: Seq<char>,
    bytes: Option<usize>,
    rule_id: Option<Seq<char>>,
) -> Seq<FreqView> {
    match find_stem_from(groups, stem, 0) {
        Some(i) => groups.update(
            i,
            (stem, sat_add(groups[i].1, 1), groups[i].2, sat_add(groups[i].3, token_estimate(bytes)), groups[i].4),
        ),
        None => groups.push((stem, 1, command, sat_add(0, token_estimate(bytes)), rule_id)),
    }
}

/// `a` comes strictly before `b` in lexicographic order of character codes.
pub open spec fn seq_lt(a: Seq<char>, b: Seq<char>) -> bool
    decreases a.len(),
{
    if b.len() == 0 {
        false
    } else if a.len() == 0 {
        true
    } else if a[0] != b[0] {
        (a[0] as u32) < (b[0] as u32)
    } else {
        seq_lt(a.drop_first(), b.drop_first())
    }
}

/// Whether a record passes the project filter and the since-date filter.
pub open spec fn record_accepted(
    r: CommandRecord,
    all_projects: bool,
    cwd: Option<Seq<char>>,
    cutoff: Option<Seq<char>>,
) -> bool {
    &&& (all_projects || cwd is None || r.cwd@ == cwd.unwrap())
    &&& !(cutoff is Some && r.timestamp is Some && seq_lt(
        r.timestamp.unwrap()@.take(if r.timestamp.unwrap()@.len() < 10 { r.timestamp.unwrap()@.len() as int } else { 10 }),
        cutoff.unwrap(),
    ))
}

pub open spec fn rule_id_of(cmd: Seq<char>, rules: Seq<Rule>) -> Option<Seq<char>> {
    match first_firing(cmd, rules) {
        Some(k) => Some(rules[k].id@),
        None => None,
    }
}

/// The frequency groups built from `records`, for commands some rule intercepts
/// (`intercepted`) or for those none does.
pub open spec fn tally_all(
    records: Seq<CommandRecord>,
    rules: Seq<Rule>,
    all_projects: bool,
    cwd: Option<Seq<char>>,
    cutoff: Option<Seq<char>>,
    intercepted: bool,
) -> Seq<FreqView>
    decreases records.len(),
{
    if records.len() == 0 {
        seq![]
    } else {
        let prev = tally_all(records.drop_last(), rules, all_projects, cwd, cutoff, intercepted);
        let r = records.last();
        let st = stem(r.command@);
        let rid = rule_id_of(r.command@, rules);
        if record_accepted(r, all_projects, cwd, cutoff) && st.len() > 0 && (rid is Some)
            == intercepted {
            tally(prev, st, r.command@, r.output_bytes, rid)
        } else {
            prev
        }
    }
}

/// Number of accepted records.
pub open spec fn accepted_count(
    records: Seq<CommandRecord>,
    all_projects: bool,
    cwd: Option<Seq<char>>,
    cutoff: Option<Seq<char>>,
) -> int
    decreases records.len(),
{
    if records.len() == 0 {
        0
    } else {
        accepted_count(records.drop_last(), all_projects, cwd, cutoff) + if record_accepted(
            records.last(),
            all_projects,
            cwd,
            cutoff,
        ) {
            1int
        } else {
            0int
        }
    }
}

/// Session ids of accepted records.
pub open spec fn accepted_sessions(
    records: Seq<CommandRecord>,
    all_projects: bool,
    cwd: Option<Seq<char>>,
    cutoff: Option<Seq<char>>,
) -> Set<Seq<char>>
    decreases records.len(),
{
    if records.len() == 0 {
        Set::empty()
    } else {
        let prev = accepted_sessions(records.drop_last(), all_projects, cwd, cutoff);
        if record_accepted(records.last(), all_projects, cwd, cutoff) {
            prev.insert(records.last().session_id@)
        } else {
            prev
        }
    }
}

/// Groups with at least `threshold` occurrences, in their original order.
pub open spec fn frequent(groups: Seq<FreqView>, threshold: u64) -> Seq<FreqView>
    decreases groups.len(),
{
    if groups.len() == 0 {
        seq![]
    } else {
        frequent(groups.drop_last(), threshold) + if groups.last().1 >= threshold {
            seq![groups.last()]
        } else {
            seq![]
        }
    }
}

/// `out` holds the `limit` most frequent of `all` (all of them when `limit` is 0
/// or large enough), by descending count, each once; anything left out occurs
/// no more often than anything kept.
pub open spec fn top_by_count(all: Seq<FreqView>, out: Seq<FreqView>, limit: usize) -> bool {
    &&& out.len() == if 0 < limit && limit < all.len() { limit as int } else { all.len() as int }
    &&& forall|i: int, j: int| 0 <= i < j < out.len() ==> out[i].1 >= out[j].1
    &&& stems_distinct(out)
    &&& forall|i: int| 0 <= i < out.len() ==> all.contains(#[trigger] out[i])
    &&& forall|e: FreqView, i: int|
        #![trigger all.contains(e), out[i]]
        all.contains(e) && !out.contains(e) && 0 <= i < out.len() ==> e.1 <= out[i].1
}

} // verus!

verus! {

proof fn lemma_find_stem_from(s: Seq<FreqView>, stem: Seq<char>, k: int)
    requires
        0 <= k,
    ensures
        find_stem_from(s, stem, k) matches Some(i) ==> k <= i < s.len() && s[i].0 == stem,
        find_stem_from(s, stem, k) is None ==> forall|j: int| k <= j < s.len() ==> s[j].0 != stem,
    decreases s.len() - k,
{
    if k < s.len() {
        lemma_find_stem_from(s, stem, k + 1);
    }
}

fn find_stem(groups: &Vec<CommandFreq>, stem: &str) -> (r: Option<usize>)
    ensures
        match r {
            Some(i) => find_stem_from(freq_views(groups@), stem@, 0) == Some(i as int) && i < groups@.len(),
            None => find_stem_from(freq_views(groups@), stem@, 0) is None,
        },
{
    proof { lemma_find_stem_from(freq_views(groups@), stem@, 0); }
    let mut i: usize = 0;
    while i < groups.len()
        invariant
            i <= groups@.len(),
            find_stem_from(freq_views(groups@), stem@, 0) == find_stem_from(freq_views(groups@), stem@, i as int),
        decreases groups.len() - i,
    {
        if crate::text::str_eq(groups[i].stem.as_str(), stem) {
            return Some(i);
        }
        i += 1;
    }
    None
}

fn add_sat(a: u64, b: u64) -> (r: u64)
    ensures
        r == sat_add(a, b as int),
{
    if a > u64::MAX - b {
        u64::MAX
    } else {
        a + b
    }
}

fn tally_exec(
    groups: &mut Vec<CommandFreq>,
    stem: String,
    command: &String,
    bytes: Option<usize>,
    rule_id: Option<String>,
)
    requires
        stems_distinct(freq_views(old(groups)@)),
    ensures
        freq_views(final(groups)@) == tally(freq_views(old(groups)@), stem@, command@, bytes, opt_view(rule_id)),
        stems_distinct(freq_views(final(groups)@)),
{
    let ghost before = freq_views(groups@);
    let est: u64 = match bytes {
        Some(b) => (b / BYTES_PER_TOKEN) as u64,
        None => 0,
    };
    proof { lemma_find_stem_from(before, stem@, 0); }
    match find_stem(groups, stem.as_str()) {
        Some(i) => {
            let mut f = groups.remove(i);
            f.count = add_sat(f.count, 1);
            f.est_tokens = add_sat(f.est_tokens, est);
            groups.insert(i, f);
            proof {
                assert(freq_views(groups@) == before.update(i as int, freq_view(f)));
                assert forall|a: int, b: int| 0 <= a < groups@.len() && 0 <= b < groups@.len() && a != b implies freq_views(groups@)[a].0 != freq_views(groups@)[b].0 by {
                    assert(freq_views(groups@)[a].0 == before[a].0);
                    assert(freq_views(groups@)[b].0 == before[b].0);
                }
            }
        },
        None => {
            let f = CommandFreq { stem, count: 1, example: command.clone(), est_tokens: add_sat(0, est), rule_id };
            groups.push(f);
            proof {
                assert(freq_views(groups@) == before.push(freq_view(f)));
            }
        },
    }
}

fn lt_chars(a: &[char], b: &[char]) -> (r: bool)
    ensures
        r == seq_lt(a@, b@),
{
    let mut i: usize = 0;
    proof {
        assert(a@.skip(0) == a@);
        assert(b@.skip(0) == b@);
    }
    while i < a.len() && i < b.len() && a[i] == b[i]
        invariant
            i <= a@.len(),
            i <= b@.len(),
            seq_lt(a@, b@) == seq_lt(a@.skip(i as int), b@.skip(i as int)),
        decreases a.len() - i,
    {
        proof {
            assert(a@.skip(i as int).drop_first() == a@.skip(i + 1));
            assert(b@.skip(i as int).drop_first() == b@.skip(i + 1));
        }
        i += 1;
    }
    proof {
        if i < a.len() {
            assert(a@.skip(i as int)[0] == a@[i as int]);
        }
        if i < b.len() {
            assert(b@.skip(i as int)[0] == b@[i as int]);
        }
    }
    if i >= b.len() {
        false
    } else if i >= a.len() {
        true
    } else {
        (a[i] as u32) < (b[i] as u32)
    }
}

fn keep_frequent(groups: Vec<CommandFreq>, threshold: u64) -> (r: Vec<CommandFreq>)
    requires
        stems_distinct(freq_views(groups@)),
    ensures
        freq_views(r@) == frequent(freq_views(groups@), threshold),
        stems_distinct(freq_views(r@)),
{
    let ghost g = freq_views(groups@);
    let mut src = groups;
    let mut out: Vec<CommandFreq> = Vec::new();
    let ghost mut taken: Seq<FreqView> = seq![];
    // Move entries out from the back, then restore order.
    let mut rev: Vec<CommandFreq> = Vec::new();
    while src.len() > 0
        invariant
            freq_views(src@) + freq_views(rev@).reverse() == g,
            stems_distinct(g),
        decreases src.len(),
    {
        let f = src.pop().unwrap();
        proof {
            assert(freq_views(rev@.push(f)).reverse() == seq![freq_view(f)] + freq_views(rev@).reverse());
        }
        rev.push(f);
    }
    proof { assert(freq_views(rev@).reverse() == g); }
    let n = rev.len();
    while rev.len() > 0
        invariant
            freq_views(rev@).reverse() == g.skip((n - rev@.len()) as int),
            rev@.len() <= n == g.len(),
            freq_views(out@) == frequent(g.take((n - rev@.len()) as int), threshold),
            stems_distinct(g),
            forall|j: int| 0 <= j < out@.len() ==> exists|k: int| 0 <= k < n - rev@.len() && #[trigger] freq_views(out@)[j].0 == g[k].0,
            stems_distinct(freq_views(out@)),
        decreases rev.len(),
    {
        let ghost m = (n - rev@.len()) as int;
        let f = rev.pop().unwrap();
        proof {
            assert(freq_views(rev@.push(f)).reverse()[0] == freq_view(f));
            assert(g.skip(m)[0] == g[m]);
            assert(freq_view(f) == g[m]);
            assert(g.take(m + 1).drop_last() == g.take(m));
            assert(g.take(m + 1).last() == g[m]);
            assert(freq_views(rev@).reverse() == g.skip(m + 1)) by {
                assert(freq_views(rev@.push(f)).reverse().drop_first() == freq_views(rev@).reverse());
                assert(g.skip(m).drop_first() == g.skip(m + 1));
            }
        }
        if f.count >= threshold {
            let ghost before = freq_views(out@);
            out.push(f);
            proof {
                assert(freq_views(out@) == before.push(g[m]));
                assert forall|a: int, b: int| 0 <= a < out@.len() && 0 <= b < out@.len() && a != b implies freq_views(out@)[a].0 != freq_views(out@)[b].0 by {
                    if a < before.len() && b < before.len() {
                        assert(freq_views(out@)[a] == before[a] && freq_views(out@)[b] == before[b]);
                    } else if a < before.len() {
                        let k = choose|k: int| 0 <= k < m && #[trigger] before[a].0 == g[k].0;
                        assert(freq_views(out@)[a] == before[a]);
                    } else if b < before.len() {
                        let k = choose|k: int| 0 <= k < m && #[trigger] before[b].0 == g[k].0;
                        assert(freq_views(out@)[b] == before[b]);
                    }
                }
                assert forall|j: int| 0 <= j < out@.len() implies exists|k: int| 0 <= k < m + 1 && #[trigger] freq_views(out@)[j].0 == g[k].0 by {
                    if j < before.len() {
                        let k = choose|k: int| 0 <= k < m && #[trigger] before[j].0 == g[k].0;
                        assert(freq_views(out@)[j] == before[j]);
                    } else {
                        assert(freq_views(out@)[j].0 == g[m].0);
                    }
                }
            }
        }
    }
    proof { assert(g.take(n as int) == g); }
    out
}

} // verus!

verus! {

/// Picks the most frequent entries, highest count first (earlier entries win ties).
fn select_top(v: Vec<CommandFreq>, limit: usize) -> (r: Vec<CommandFreq>)
    requires
        stems_distinct(freq_views(v@)),
    ensures
        top_by_count(freq_views(v@), freq_views(r@), limit),
{
    let ghost all = freq_views(v@);
    let n = v.len();
    let k = if 0 < limit && limit < n { limit } else { n };
    let mut rest = v;
    let mut out: Vec<CommandFreq> = Vec::new();
    while out.len() < k
        invariant
            k <= n == all.len(),
            out@.len() + rest@.len() == n,
            out@.len() <= k,
            forall|i: int| 0 <= i < out@.len() ==> all.contains(#[trigger] freq_views(out@)[i]),
            forall|i: int| 0 <= i < rest@.len() ==> all.contains(#[trigger] freq_views(rest@)[i]),
            forall|e: FreqView| all.contains(e) ==> freq_views(out@).contains(e) || freq_views(rest@).contains(e),
            forall|i: int, j: int| 0 <= i < j < out@.len() ==> out@[i].count >= out@[j].count,
            forall|i: int, j: int|
                #![trigger out@[i], rest@[j]]
                0 <= i < out@.len() && 0 <= j < rest@.len() ==> out@[i].count >= rest@[j].count,
            stems_distinct(freq_views(out@)),
            stems_distinct(freq_views(rest@)),
            forall|i: int, j: int|
                #![trigger out@[i], rest@[j]]
                0 <= i < out@.len() && 0 <= j < rest@.len() ==> out@[i].stem@ != rest@[j].stem@,
        decreases k - out@.len(),
    {
        let mut best: usize = 0;
        let mut j: usize = 1;
        while j < rest.len()
            invariant
                best < rest@.len(),
                1 <= j <= rest@.len(),
                forall|m: int| 0 <= m < j ==> rest@[best as int].count >= #[trigger] rest@[m].count,
            decreases rest.len() - j,
        {
            if rest[j].count > rest[best].count {
                best = j;
            }
            j += 1;
        }
        let ghost rv = freq_views(rest@);
        let ghost ov = freq_views(out@);
        let ghost old_rest = rest@;
        let ghost old_out = out@;
        let f = rest.remove(best);
        out.push(f);
        proof {
            assert(freq_views(rest@) == rv.remove(best as int));
            assert(freq_views(out@) == ov.push(freq_view(f)));
            assert(freq_view(f) == rv[best as int]);
            assert forall|i: int| 0 <= i < rest@.len() implies rest@[i] == old_rest[if i < best { i } else { i + 1 }] by {}
            assert forall|e: FreqView| all.contains(e) implies freq_views(out@).contains(e) || freq_views(rest@).contains(e) by {
                if ov.contains(e) {
                    let p = choose|p: int| 0 <= p < ov.len() && ov[p] == e;
                    assert(freq_views(out@)[p] == e);
                } else {
                    let p = choose|p: int| 0 <= p < rv.len() && rv[p] == e;
                    if p < best {
                        assert(freq_views(rest@)[p] == e);
                    } else if p > best {
                        assert(freq_views(rest@)[p - 1] == e);
                    } else {
                        assert(freq_views(out@)[ov.len() as int] == e);
                    }
                }
            }
            assert forall|i: int| 0 <= i < out@.len() implies all.contains(#[trigger] freq_views(out@)[i]) by {
                if i < ov.len() {
                    assert(freq_views(out@)[i] == ov[i]);
                } else {
                    assert(freq_views(out@)[i] == rv[best as int]);
                    assert(rv[best as int] == freq_views(old_rest)[best as int]);
                }
            }
            assert forall|i: int| 0 <= i < rest@.len() implies all.contains(#[trigger] freq_views(rest@)[i]) by {
                assert(freq_views(rest@)[i] == rv[if i < best { i } else { i + 1 }]);
            }
            assert forall|a: int, b: int| 0 <= a < out@.len() && 0 <= b < out@.len() && a != b implies freq_views(out@)[a].0 != freq_views(out@)[b].0 by {
                if a < ov.len() && b < ov.len() {
                    assert(out@[a] == old_out[a] && out@[b] == old_out[b]);
                } else if a < ov.len() {
                    assert(out@[a] == old_out[a]);
                    assert(out@[b] == old_rest[best as int]);
                } else if b < ov.len() {
                    assert(out@[b] == old_out[b]);
                    assert(out@[a] == old_rest[best as int]);
                }
            }
            assert forall|a: int, b: int| 0 <= a < rest@.len() && 0 <= b < rest@.len() && a != b implies freq_views(rest@)[a].0 != freq_views(rest@)[b].0 by {
                assert(rest@[a] == old_rest[if a < best { a } else { a + 1 }]);
                assert(rest@[b] == old_rest[if b < best { b } else { b + 1 }]);
            }
            assert forall|i: int, j2: int|
                #![trigger out@[i], rest@[j2]]
                0 <= i < out@.len() && 0 <= j2 < rest@.len() implies out@[i].stem@ != rest@[j2].stem@ && out@[i].count >= rest@[j2].count by {
                let j3 = if j2 < best { j2 } else { j2 + 1 };
                assert(rest@[j2] == old_rest[j3]);
                if i < ov.len() {
                    assert(out@[i] == old_out[i]);
                } else {
                    assert(out@[i] == old_rest[best as int]);
                    assert(old_rest[best as int].count >= old_rest[j3].count);
                    assert(freq_views(old_rest)[best as int].0 != freq_views(old_rest)[j3].0);
                }
            }
            assert forall|a: int, b: int| 0 <= a < b < out@.len() implies out@[a].count >= out@[b].count by {
                if b == out@.len() - 1 && a < ov.len() {
                    assert(out@[a] == old_out[a]);
                    assert(out@[b] == old_rest[best as int]);
                } else if b < ov.len() {
                    assert(out@[a] == old_out[a] && out@[b] == old_out[b]);
                }
            }
        }
    }
    proof {
        let ov = freq_views(out@);
        assert forall|e: FreqView, i: int|
            #![trigger all.contains(e), ov[i]]
            all.contains(e) && !ov.contains(e) && 0 <= i < ov.len() implies e.1 <= ov[i].1 by {
            let p = choose|p: int| 0 <= p < freq_views(rest@).len() && freq_views(rest@)[p] == e;
            assert(out@[i].count >= rest@[p].count);
        }
    }
    out
}

} // verus!

verus! {

pub struct DiscoverOpts {
    pub limit: usize,
    pub since_days: Option<u32>,
    pub all_projects: bool,
    /// The project directory whose commands are counted, as text.
    pub current_dir: Option<String>,
    /// Filter out entries with count below this threshold. 0 or 1 means show all.
    pub min_count: u64,
}

impl Default for DiscoverOpts {
    fn default() -> (o: Self)
        ensures
            o.limit == 15,
            o.since_days == Some(30u32),
            !o.all_projects,
            o.current_dir is None,
            o.min_count == 1,
    {
        DiscoverOpts { limit: 15, since_days: Some(30), all_projects: false, current_dir: None, min_count: 1 }
    }
}

pub open spec fn threshold_of(min_count: u64) -> u64 {
    if min_count >= 1 { min_count } else { 1 }
}

fn accepted_exec(r: &CommandRecord, all_projects: bool, cwd: &Option<String>, cutoff: &Option<String>) -> (b: bool)
    ensures
        b == record_accepted(*r, all_projects, opt_view(*cwd), opt_view(*cutoff)),
{
    if !all_projects {
        match cwd {
            Some(c) => {
                if !crate::text::str_eq(r.cwd.as_str(), c.as_str()) {
                    return false;
                }
            },
            None => {},
        }
    }
    match (cutoff, &r.timestamp) {
        (Some(c), Some(ts)) => {
            let tv = chars_of(ts.as_str());
            let cv = chars_of(c.as_str());
            let m = if tv.len() < 10 { tv.len() } else { 10 };
            let prefix = crate::text::slice_chars(&tv, 0, m);
            proof { assert(prefix@ == tv@.take(m as int)); }
            !lt_chars(&prefix, &cv)
        },
        _ => true,
    }
}

fn contains_session(ids: &Vec<String>, id: &str) -> (b: bool)
    ensures
        b == ids@.map_values(|s: String| s@).contains(id@),
{
    let mut i: usize = 0;
    while i < ids.len()
        invariant
            i <= ids@.len(),
            forall|j: int| 0 <= j < i ==> ids@[j]@ != id@,
        decreases ids.len() - i,
    {
        if crate::text::str_eq(ids[i].as_str(), id) {
            proof { assert(ids@.map_values(|s: String| s@)[i as int] == id@); }
            return true;
        }
        i += 1;
    }
    proof {
        if ids@.map_values(|s: String| s@).contains(id@) {
            let sv = ids@.map_values(|s: String| s@);
            let j = choose|j: int| 0 <= j < sv.len() && #[trigger] sv[j] == id@;
            assert(ids@[j]@ == id@);
        }
    }
    false
}

/// Groups the accepted records by stem, separately for intercepted and
/// unhandled commands, and keeps the most frequent of each.
///
/// `cwd` is the text of the current directory that the project filter compares
/// against; `cutoff` is the `YYYY-MM-DD` date before which records are skipped.
pub fn discover_records(
    records: &Vec<CommandRecord>,
    rules: &[Rule],
    opts: &DiscoverOpts,
    cwd: Option<String>,
    cutoff: Option<String>,
) -> (r: DiscoverReport)
    ensures
        r.scanned_commands == accepted_count(records@, opts.all_projects, opt_view(cwd), opt_view(cutoff)),
        r.scanned_sessions == accepted_sessions(records@, opts.all_projects, opt_view(cwd), opt_view(cutoff)).len(),
        top_by_count(
            frequent(tally_all(records@, rules@, opts.all_projects, opt_view(cwd), opt_view(cutoff), true), threshold_of(opts.min_count)),
            freq_views(r.intercepted@),
            opts.limit,
        ),
        top_by_count(
            frequent(tally_all(records@, rules@, opts.all_projects, opt_view(cwd), opt_view(cutoff), false), threshold_of(opts.min_count)),
            freq_views(r.unhandled@),
            opts.limit,
        ),
{
    let ghost cw = opt_view(cwd);
    let ghost co = opt_view(cutoff);
    let ap = opts.all_projects;
    let mut intercepted: Vec<CommandFreq> = Vec::new();
    let mut unhandled: Vec<CommandFreq> = Vec::new();
    let mut sessions: Vec<String> = Vec::new();
    let mut scanned: usize = 0;
    let mut i: usize = 0;
    while i < records.len()
        invariant
            i <= records@.len(),
            ap == opts.all_projects,
            cw == opt_view(cwd),
            co == opt_view(cutoff),
            scanned == accepted_count(records@.take(i as int), ap, cw, co),
            scanned <= i,
            freq_views(intercepted@) == tally_all(records@.take(i as int), rules@, ap, cw, co, true),
            freq_views(unhandled@) == tally_all(records@.take(i as int), rules@, ap, cw, co, false),
            stems_distinct(freq_views(intercepted@)),
            stems_distinct(freq_views(unhandled@)),
            sessions@.map_values(|s: String| s@).to_set() == accepted_sessions(records@.take(i as int), ap, cw, co),
            sessions@.map_values(|s: String| s@).no_duplicates(),
        decreases records.len() - i,
    {
        let rec = &records[i];
        proof {
            let t = records@.take(i + 1);
            assert(t.drop_last() == records@.take(i as int));
            assert(t.last() == records@[i as int]);
        }
        if accepted_exec(rec, ap, &cwd, &cutoff) {
            scanned += 1;
            let ghost sv = sessions@.map_values(|s: String| s@);
            if !contains_session(&sessions, rec.session_id.as_str()) {
                sessions.push(rec.session_id.clone());
                proof {
                    assert(sessions@.map_values(|s: String| s@) == sv.push(rec.session_id@));
                    sv.lemma_push_to_set_commute(rec.session_id@);
                }
            } else {
                proof {
                    assert(sv.to_set().contains(rec.session_id@));
                    assert(sv.to_set().insert(rec.session_id@) == sv.to_set());
                }
            }
            let st = stem_of(rec.command.as_str());
            if !st.as_str().is_empty() {
                let rid = matched_rule_id(rec.command.as_str(), rules);
                proof {
                    assert(opt_view(rid) == rule_id_of(rec.command@, rules@));
                    assert(st@.len() > 0);
                }
                if rid.is_some() {
                    tally_exec(&mut intercepted, st, &rec.command, rec.output_bytes, rid);
                } else {
                    tally_exec(&mut unhandled, st, &rec.command, rec.output_bytes, rid);
                }
            } else {
                proof { assert(st@.len() == 0); }
            }
        }
        i += 1;
    }
    proof { assert(records@.take(records@.len() as int) == records@); }
    let threshold = if opts.min_count >= 1 { opts.min_count } else { 1 };
    let intercepted = keep_frequent(intercepted, threshold);
    let unhandled = keep_frequent(unhandled, threshold);
    let intercepted = select_top(intercepted, opts.limit);
    let unhandled = select_top(unhandled, opts.limit);
    proof {
        sessions@.map_values(|s: String| s@).unique_seq_to_set();
    }
    DiscoverReport { intercepted, unhandled, scanned_sessions: sessions.len(), scanned_commands: scanned }
}

/// The instant `days` days before `now`, never before the epoch.
pub open spec fn cutoff_secs(days: u32, now: u64) -> u64 {
    if now >= days as int * 86400 { (now - days as int * 86400) as u64 } else { 0 }
}

/// The `YYYY-MM-DD` text of the day `days` days before `now`.
pub open spec fn days_ago_text(days: u32, now: u64) -> Seq<char> {
    let d = crate::date::ymd_of_secs(cutoff_secs(days, now));
    crate::date::date_text(d.0, d.1, d.2)
}

/// The `YYYY-MM-DD` date `days` days before `now` (never before the epoch).
pub fn days_ago_at(days: u32, now: u64) -> (s: String)
    ensures
        s@ == days_ago_text(days, now),
{
    let span = days as u64 * crate::date::SECS_PER_DAY;
    let cutoff_secs = if now >= span { now - span } else { 0 };
    crate::date::unix_secs_to_date_str(cutoff_secs)
}

/// The `YYYY-MM-DD` date `days` days before the current time.
pub fn days_ago(days: u32) -> (s: String)
    ensures
        exists|now: u64| s@ == days_ago_text(days, now),
{
    let now = crate::clock::now_secs();
    days_ago_at(days, now)
}

/// Scans the commands of `source`, counts them, and groups them by stem into
/// intercepted and unhandled frequencies.
pub fn discover<S: CommandSource>(source: &S, rules: &[Rule], opts: &DiscoverOpts) -> (r: DiscoverReport)
    ensures
        exists|records: Seq<CommandRecord>, cutoff: Option<Seq<char>>|
            (match opts.since_days {
                None => cutoff is None,
                Some(d) => exists|t: u64| cutoff == Some(#[trigger] days_ago_text(d, t)),
            })
            && r.scanned_commands == accepted_count(records, opts.all_projects, opt_view(opts.current_dir), cutoff)
            && r.scanned_sessions == accepted_sessions(records, opts.all_projects, opt_view(opts.current_dir), cutoff).len()
            && #[trigger] top_by_count(
                frequent(tally_all(records, rules@, opts.all_projects, opt_view(opts.current_dir), cutoff, true), threshold_of(opts.min_count)),
                freq_views(r.intercepted@),
                opts.limit,
            ) && top_by_count(
                frequent(tally_all(records, rules@, opts.all_projects, opt_view(opts.current_dir), cutoff, false), threshold_of(opts.min_count)),
                freq_views(r.unhandled@),
                opts.limit,
            ),
{
    let records = source.commands();
    let cwd = match &opts.current_dir {
        Some(p) => Some(p.clone()),
        None => None,
    };
    let cutoff = match opts.since_days {
        Some(d) => Some(days_ago(d)),
        None => None,
    };
    discover_records(&records, rules, opts, cwd, cutoff)
}


/// A token estimate never exceeds the byte count it comes from, and grows
/// with it.
pub proof fn lemma_token_estimate_bounded(a: usize, b: usize)
    requires
        a <= b,
    ensures
        token_estimate(Some(a)) <= a,
        token_estimate(Some(a)) <= token_estimate(Some(b)),
        BYTES_PER_TOKEN > 0,
{
}


/// A discovered group is well made: its stem is non-empty and is the stem of
/// its example, its rule id is the id of the rule that blocks the example
/// (present exactly for intercepted groups), and it counts at least once.
pub open spec fn group_ok(g: FreqView, rules: Seq<Rule>, intercepted: bool) -> bool {
    &&& g.0.len() > 0
    &&& stem(g.2) == g.0
    &&& g.4 == rule_id_of(g.2, rules)
    &&& (g.4 is Some) == intercepted
    &&& g.1 >= 1
}

proof fn lemma_tally_all_ok(
    records: Seq<CommandRecord>,
    rules: Seq<Rule>,
    all_projects: bool,
    cwd: Option<Seq<char>>,
    cutoff: Option<Seq<char>>,
    intercepted: bool,
)
    ensures
        forall|i: int| 0 <= i < tally_all(records, rules, all_projects, cwd, cutoff, intercepted).len()
            ==> group_ok(#[trigger] tally_all(records, rules, all_projects, cwd, cutoff, intercepted)[i], rules, intercepted),
    decreases records.len(),
{
    if records.len() > 0 {
        let prev = tally_all(records.drop_last(), rules, all_projects, cwd, cutoff, intercepted);
        lemma_tally_all_ok(records.drop_last(), rules, all_projects, cwd, cutoff, intercepted);
        let r = records.last();
        let st = stem(r.command@);
        lemma_find_stem_from(prev, st, 0);
        let all = tally_all(records, rules, all_projects, cwd, cutoff, intercepted);
        assert forall|i: int| 0 <= i < all.len() implies group_ok(#[trigger] all[i], rules, intercepted) by {
            if i < prev.len() {
                assert(group_ok(prev[i], rules, intercepted));
            }
        }
    }
}

proof fn lemma_frequent_members(groups: Seq<FreqView>, threshold: u64)
    ensures
        forall|i: int| 0 <= i < frequent(groups, threshold).len() ==> groups.contains(#[trigger] frequent(groups, threshold)[i])
            && frequent(groups, threshold)[i].1 >= threshold,
    decreases groups.len(),
{
    if groups.len() > 0 {
        let d = groups.drop_last();
        lemma_frequent_members(d, threshold);
        let f = frequent(groups, threshold);
        let fd = frequent(d, threshold);
        assert forall|i: int| 0 <= i < f.len() implies groups.contains(#[trigger] f[i]) && f[i].1 >= threshold by {
            if i < fd.len() {
                assert(f[i] == fd[i]);
                let k = choose|k: int| 0 <= k < d.len() && d[k] == fd[i];
                assert(groups[k] == d[k]);
            } else {
                assert(f[i] == groups.last());
                assert(groups[groups.len() - 1] == groups.last());
            }
        }
    }
}

/// What discovery lists: in either list counts do not increase, stems are
/// distinct, there are at most `limit` entries (when `limit` is not 0), and
/// each entry is a well-made group counted at least `min_count` times (and
/// at least once): its stem is that of its example, and its rule id is the
/// blocking rule's (present exactly in the intercepted list).
pub proof fn lemma_discovered_lists(
    records: Seq<CommandRecord>,
    rules: Seq<Rule>,
    all_projects: bool,
    cwd: Option<Seq<char>>,
    cutoff: Option<Seq<char>>,
    intercepted: bool,
    min_count: u64,
    limit: usize,
    out: Seq<FreqView>,
)
    requires
        top_by_count(frequent(tally_all(records, rules, all_projects, cwd, cutoff, intercepted), threshold_of(min_count)), out, limit),
    ensures
        forall|i: int, j: int| 0 <= i < j < out.len() ==> out[i].1 >= out[j].1,
        stems_distinct(out),
        limit > 0 ==> out.len() <= limit,
        forall|i: int| 0 <= i < out.len() ==> group_ok(#[trigger] out[i], rules, intercepted)
            && out[i].1 >= threshold_of(min_count),
{
    let groups = tally_all(records, rules, all_projects, cwd, cutoff, intercepted);
    let all = frequent(groups, threshold_of(min_count));
    lemma_tally_all_ok(records, rules, all_projects, cwd, cutoff, intercepted);
    lemma_frequent_members(groups, threshold_of(min_count));
    assert forall|i: int| 0 <= i < out.len() implies group_ok(#[trigger] out[i], rules, intercepted)
        && out[i].1 >= threshold_of(min_count) by {
        assert(all.contains(out[i]));
        let k = choose|k: int| 0 <= k < all.len() && all[k] == out[i];
        assert(groups.contains(all[k]));
        let m = choose|m: int| 0 <= m < groups.len() && groups[m] == all[k];
        assert(group_ok(groups[m], rules, intercepted));
    }
}


/// Whether record `r` is counted in the group of stem `s`.
pub open spec fn counted_in(
    r: CommandRecord,
    rules: Seq<Rule>,
    all_projects: bool,
    cwd: Option<Seq<char>>,
    cutoff: Option<Seq<char>>,
    intercepted: bool,
    s: Seq<char>,
) -> bool {
    &&& record_accepted(r, all_projects, cwd, cutoff)
    &&& s.len() > 0
    &&& stem(r.command@) == s
    &&& (rule_id_of(r.command@, rules) is Some) == intercepted
}

/// How many records are counted in the group of stem `s`.
pub open spec fn group_count(
    records: Seq<CommandRecord>,
    rules: Seq<Rule>,
    all_projects: bool,
    cwd: Option<Seq<char>>,
    cutoff: Option<Seq<char>>,
    intercepted: bool,
    s: Seq<char>,
) -> nat
    decreases records.len(),
{
    if records.len() == 0 {
        0
    } else {
        group_count(records.drop_last(), rules, all_projects, cwd, cutoff, intercepted, s)
            + if counted_in(records.last(), rules, all_projects, cwd, cutoff, intercepted, s) { 1nat } else { 0nat }
    }
}

/// The token estimates summed over the records counted in the group of stem `s`.
pub open spec fn group_tokens(
    records: Seq<CommandRecord>,
    rules: Seq<Rule>,
    all_projects: bool,
    cwd: Option<Seq<char>>,
    cutoff: Option<Seq<char>>,
    intercepted: bool,
    s: Seq<char>,
) -> int
    decreases records.len(),
{
    if records.len() == 0 {
        0
    } else {
        group_tokens(records.drop_last(), rules, all_projects, cwd, cutoff, intercepted, s)
            + if counted_in(records.last(), rules, all_projects, cwd, cutoff, intercepted, s) {
                token_estimate(records.last().output_bytes)
            } else {
                0
            }
    }
}

/// `n` capped at the largest `u64`.
pub open spec fn capped(n: int) -> int {
    if n > u64::MAX { u64::MAX as int } else { n }
}

proof fn lemma_group_tokens_nonneg(
    records: Seq<CommandRecord>,
    rules: Seq<Rule>,
    all_projects: bool,
    cwd: Option<Seq<char>>,
    cutoff: Option<Seq<char>>,
    intercepted: bool,
    s: Seq<char>,
)
    ensures
        group_tokens(records, rules, all_projects, cwd, cutoff, intercepted, s) >= 0,
    decreases records.len(),
{
    if records.len() > 0 {
        lemma_group_tokens_nonneg(records.drop_last(), rules, all_projects, cwd, cutoff, intercepted, s);
    }
}

proof fn lemma_group_tokens_zero(
    records: Seq<CommandRecord>,
    rules: Seq<Rule>,
    all_projects: bool,
    cwd: Option<Seq<char>>,
    cutoff: Option<Seq<char>>,
    intercepted: bool,
    s: Seq<char>,
)
    requires
        group_count(records, rules, all_projects, cwd, cutoff, intercepted, s) == 0,
    ensures
        group_tokens(records, rules, all_projects, cwd, cutoff, intercepted, s) == 0,
    decreases records.len(),
{
    if records.len() > 0 {
        lemma_group_tokens_zero(records.drop_last(), rules, all_projects, cwd, cutoff, intercepted, s);
    }
}

proof fn lemma_find_stem_same_stems(a: Seq<FreqView>, b: Seq<FreqView>, stem: Seq<char>, k: int)
    requires
        a.len() == b.len(),
        forall|i: int| 0 <= i < a.len() ==> a[i].0 == b[i].0,
    ensures
        find_stem_from(a, stem, k) == find_stem_from(b, stem, k),
    decreases a.len() - k,
{
    if 0 <= k < a.len() {
        lemma_find_stem_same_stems(a, b, stem, k + 1);
    }
}

proof fn lemma_find_stem_push_other(a: Seq<FreqView>, x: FreqView, stem: Seq<char>, k: int)
    requires
        x.0 != stem,
    ensures
        find_stem_from(a.push(x), stem, k) == find_stem_from(a, stem, k),
    decreases a.len() + 1 - k,
{
    if 0 <= k <= a.len() {
        lemma_find_stem_push_other(a, x, stem, k + 1);
    }
}

proof fn lemma_find_stem_push_new(a: Seq<FreqView>, x: FreqView, k: int)
    requires
        0 <= k <= a.len(),
        forall|j: int| k <= j < a.len() ==> a[j].0 != x.0,
    ensures
        find_stem_from(a.push(x), x.0, k) == Some(a.len() as int),
    decreases a.len() - k,
{
    if k < a.len() {
        lemma_find_stem_push_new(a, x, k + 1);
    }
}

/// Discovery's counting: each list's groups have distinct stems, a group with
/// stem `s` exists exactly when some record is counted under `s`, and it holds
/// how many records are counted under `s` and the sum of their token
/// estimates, each capped at the largest `u64`.
pub proof fn lemma_group_counts(
    records: Seq<CommandRecord>,
    rules: Seq<Rule>,
    all_projects: bool,
    cwd: Option<Seq<char>>,
    cutoff: Option<Seq<char>>,
    intercepted: bool,
    s: Seq<char>,
)
    ensures
        stems_distinct(tally_all(records, rules, all_projects, cwd, cutoff, intercepted)),
        s.len() > 0 ==> (find_stem_from(tally_all(records, rules, all_projects, cwd, cutoff, intercepted), s, 0) is Some
            <==> group_count(records, rules, all_projects, cwd, cutoff, intercepted, s) > 0),
        find_stem_from(tally_all(records, rules, all_projects, cwd, cutoff, intercepted), s, 0) matches Some(i) ==> {
            let g = tally_all(records, rules, all_projects, cwd, cutoff, intercepted)[i];
            &&& g.1 == capped(group_count(records, rules, all_projects, cwd, cutoff, intercepted, s) as int)
            &&& g.3 == capped(group_tokens(records, rules, all_projects, cwd, cutoff, intercepted, s))
        },
    decreases records.len(),
{
    let t = tally_all(records, rules, all_projects, cwd, cutoff, intercepted);
    lemma_find_stem_from(t, s, 0);
    if records.len() > 0 {
        let d = records.drop_last();
        let prev = tally_all(d, rules, all_projects, cwd, cutoff, intercepted);
        lemma_group_counts(d, rules, all_projects, cwd, cutoff, intercepted, s);
        lemma_group_tokens_nonneg(d, rules, all_projects, cwd, cutoff, intercepted, s);
        lemma_find_stem_from(prev, s, 0);
        let r = records.last();
        let st = stem(r.command@);
        let rid = rule_id_of(r.command@, rules);
        let passes = record_accepted(r, all_projects, cwd, cutoff) && st.len() > 0 && (rid is Some) == intercepted;
        assert(counted_in(r, rules, all_projects, cwd, cutoff, intercepted, s) <==> passes && st == s);
        if passes {
            lemma_find_stem_from(prev, st, 0);
            lemma_group_counts(d, rules, all_projects, cwd, cutoff, intercepted, st);
            match find_stem_from(prev, st, 0) {
                Some(i) => {
                    let x = (st, sat_add(prev[i].1, 1), prev[i].2, sat_add(prev[i].3, token_estimate(r.output_bytes)), prev[i].4);
                    assert(t == prev.update(i, x));
                    assert forall|a: int, b: int| 0 <= a < t.len() && 0 <= b < t.len() && a != b implies t[a].0 != t[b].0 by {
                        assert(t[a].0 == prev[a].0 && t[b].0 == prev[b].0);
                    }
                    lemma_find_stem_same_stems(t, prev, s, 0);
                    if s == st {
                        assert(token_estimate(r.output_bytes) >= 0);
                        assert(find_stem_from(t, s, 0) == Some(i));
                        assert(t[i] == x);
                        assert(prev[i].1 == capped(group_count(d, rules, all_projects, cwd, cutoff, intercepted, s) as int));
                        assert(prev[i].3 == capped(group_tokens(d, rules, all_projects, cwd, cutoff, intercepted, s)));
                        assert(group_count(records, rules, all_projects, cwd, cutoff, intercepted, s)
                            == group_count(d, rules, all_projects, cwd, cutoff, intercepted, s) + 1);
                        assert(group_tokens(records, rules, all_projects, cwd, cutoff, intercepted, s)
                            == group_tokens(d, rules, all_projects, cwd, cutoff, intercepted, s) + token_estimate(r.output_bytes));
                    } else {
                        match find_stem_from(t, s, 0) {
                            Some(j) => {
                                assert(t[j].0 == s);
                                assert(j != i);
                                assert(t[j] == prev[j]);
                            },
                            None => {},
                        }
                    }
                },
                None => {
                    let x = (st, 1u64, r.command@, sat_add(0, token_estimate(r.output_bytes)), rid);
                    assert(t == prev.push(x));
                    assert forall|a: int, b: int| 0 <= a < t.len() && 0 <= b < t.len() && a != b implies t[a].0 != t[b].0 by {
                        if a < prev.len() && b < prev.len() {
                            assert(t[a] == prev[a] && t[b] == prev[b]);
                        } else if a == prev.len() {
                            assert(t[b] == prev[b]);
                        } else {
                            assert(t[a] == prev[a]);
                        }
                    }
                    if s == st {
                        lemma_find_stem_push_new(prev, x, 0);
                        assert(token_estimate(r.output_bytes) >= 0);
                        assert(t[prev.len() as int] == x);
                        assert(group_count(d, rules, all_projects, cwd, cutoff, intercepted, s) == 0);
                        lemma_group_tokens_zero(d, rules, all_projects, cwd, cutoff, intercepted, s);
                    } else {
                        lemma_find_stem_push_other(prev, x, s, 0);
                        match find_stem_from(t, s, 0) {
                            Some(j) => {
                                assert(t[j] == prev[j]);
                            },
                            None => {},
                        }
                    }
                },
            }
        }
    }
}


proof fn lemma_frequent_all(groups: Seq<FreqView>, threshold: u64)
    requires
        forall|i: int| 0 <= i < groups.len() ==> #[trigger] groups[i].1 >= threshold,
    ensures
        frequent(groups, threshold) == groups,
    decreases groups.len(),
{
    if groups.len() > 0 {
        let d = groups.drop_last();
        assert forall|i: int| 0 <= i < d.len() implies #[trigger] d[i].1 >= threshold by {
            assert(d[i] == groups[i]);
        }
        lemma_frequent_all(d, threshold);
        assert(groups.last() == groups[groups.len() - 1]);
        assert(d + seq![groups.last()] =~= groups);
    }
}

proof fn lemma_stems_distinct_no_dup(s: Seq<FreqView>)
    requires
        stems_distinct(s),
    ensures
        s.no_duplicates(),
{
    assert forall|i: int, j: int| 0 <= i < s.len() && 0 <= j < s.len() && i != j implies s[i] != s[j] by {
        assert(s[i].0 != s[j].0);
    }
}

/// A full ranking (no limit, or one no smaller than the list) holds every group.
proof fn lemma_full_ranking(all: Seq<FreqView>, out: Seq<FreqView>, limit: usize)
    requires
        top_by_count(all, out, limit),
        limit == 0 || limit >= all.len(),
        stems_distinct(all),
    ensures
        forall|e: FreqView| all.contains(e) ==> out.contains(e),
{
    lemma_stems_distinct_no_dup(all);
    lemma_stems_distinct_no_dup(out);
    all.unique_seq_to_set();
    out.unique_seq_to_set();
    assert(out.to_set().subset_of(all.to_set())) by {
        assert forall|e: FreqView| out.to_set().contains(e) implies all.to_set().contains(e) by {
            let i = choose|i: int| 0 <= i < out.len() && out[i] == e;
            assert(all.contains(out[i]));
        }
    }
    vstd::set_lib::lemma_subset_equality(out.to_set(), all.to_set());
    assert forall|e: FreqView| all.contains(e) implies out.contains(e) by {
        assert(all.to_set().contains(e));
        assert(out.to_set().contains(e));
    }
}

proof fn lemma_find_distinct_stem(s: Seq<FreqView>, m: int)
    requires
        stems_distinct(s),
        0 <= m < s.len(),
    ensures
        find_stem_from(s, s[m].0, 0) == Some(m),
{
    lemma_find_stem_from(s, s[m].0, 0);
    if find_stem_from(s, s[m].0, 0) is None {
        assert(s[m].0 != s[m].0);
    }
}

/// What discovery counts, with no limit and no minimum count beyond one: each
/// list has exactly one entry for each non-empty stem under which some record
/// is counted, and that entry holds how many records are counted under its
/// stem and the sum of their token estimates (each capped at the largest
/// `u64`).
pub proof fn lemma_discover_counts(
    records: Seq<CommandRecord>,
    rules: Seq<Rule>,
    all_projects: bool,
    cwd: Option<Seq<char>>,
    cutoff: Option<Seq<char>>,
    intercepted: bool,
    min_count: u64,
    out: Seq<FreqView>,
    s: Seq<char>,
)
    requires
        min_count <= 1,
        top_by_count(frequent(tally_all(records, rules, all_projects, cwd, cutoff, intercepted), threshold_of(min_count)), out, 0),
    ensures
        stems_distinct(out),
        s.len() > 0 ==> ((exists|i: int| 0 <= i < out.len() && #[trigger] out[i].0 == s)
            <==> group_count(records, rules, all_projects, cwd, cutoff, intercepted, s) > 0),
        forall|i: int| 0 <= i < out.len() ==>
            #[trigger] out[i].1 == capped(group_count(records, rules, all_projects, cwd, cutoff, intercepted, out[i].0) as int)
            && out[i].3 == capped(group_tokens(records, rules, all_projects, cwd, cutoff, intercepted, out[i].0)),
{
    let groups = tally_all(records, rules, all_projects, cwd, cutoff, intercepted);
    lemma_tally_all_ok(records, rules, all_projects, cwd, cutoff, intercepted);
    lemma_group_counts(records, rules, all_projects, cwd, cutoff, intercepted, s);
    assert forall|i: int| 0 <= i < groups.len() implies #[trigger] groups[i].1 >= threshold_of(min_count) by {
        assert(group_ok(groups[i], rules, intercepted));
    }
    lemma_frequent_all(groups, threshold_of(min_count));
    lemma_full_ranking(groups, out, 0);
    assert forall|i: int| 0 <= i < out.len() implies
        #[trigger] out[i].1 == capped(group_count(records, rules, all_projects, cwd, cutoff, intercepted, out[i].0) as int)
        && out[i].3 == capped(group_tokens(records, rules, all_projects, cwd, cutoff, intercepted, out[i].0)) by {
        assert(groups.contains(out[i]));
        let m = choose|m: int| 0 <= m < groups.len() && groups[m] == out[i];
        lemma_find_distinct_stem(groups, m);
        lemma_group_counts(records, rules, all_projects, cwd, cutoff, intercepted, out[i].0);
    }
    if s.len() > 0 {
        lemma_find_stem_from(groups, s, 0);
        if group_count(records, rules, all_projects, cwd, cutoff, intercepted, s) > 0 {
            let m = find_stem_from(groups, s, 0)->0;
            assert(groups.contains(groups[m]));
            assert(out.contains(groups[m]));
            let i = choose|i: int| 0 <= i < out.len() && out[i] == groups[m];
            assert(out[i].0 == s);
        }
        if exists|i: int| 0 <= i < out.len() && #[trigger] out[i].0 == s {
            let i = choose|i: int| 0 <= i < out.len() && #[trigger] out[i].0 == s;
            assert(groups.contains(out[i]));
            let m = choose|m: int| 0 <= m < groups.len() && groups[m] == out[i];
            lemma_find_distinct_stem(groups, m);
        }
    }
}

} // verus!
