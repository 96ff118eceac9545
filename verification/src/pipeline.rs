//! Splitting shell command lines into sequential segments and pipe stages.
use vstd::prelude::*;
use crate::text::{chars_of, trim, trim_bounds, trim_end, trim_start};
use crate::shell::{parsed_argv, parse};

verus! {

/// Length of the sequential operator (`&&`, `||` or `;`) starting at `i`, or 0.
pub open spec fn op_len(s: Seq<char>, i: int) -> int {
    if 0 <= i && i + 1 < s.len() && ((s[i] == '&' && s[i + 1] == '&') || (s[i] == '|' && s[i
        + 1] == '|')) {
        2
    } else if 0 <= i < s.len() && s[i] == ';' {
        1
    } else {
        0
    }
}

/// The pieces of `s[start..]` between sequential operators, scanning left to right from `i`
/// (no operator starts in `s[start..i]`).
pub open spec fn split_scan(s: Seq<char>, start: int, i: int) -> Seq<Seq<char>>
    decreases s.len() - i,
{
    if i >= s.len() {
        seq![s.subrange(start, s.len() as int)]
    } else if op_len(s, i) > 0 {
        seq![s.subrange(start, i)] + split_scan(s, i + op_len(s, i), i + op_len(s, i))
    } else {
        split_scan(s, start, i + 1)
    }
}

/// The pieces, each trimmed, with empty ones left out.
pub open spec fn tidy(ps: Seq<Seq<char>>) -> Seq<Seq<char>>
    decreases ps.len(),
{
    if ps.len() == 0 {
        seq![]
    } else {
        let t = trim(ps.last());
        tidy(ps.drop_last()) + if t.len() > 0 {
            seq![t]
        } else {
            seq![]
        }
    }
}

/// The segments of a command line separated by `&&`, `||` and `;`.
pub open spec fn segments(s: Seq<char>) -> Seq<Seq<char>> {
    tidy(split_scan(s, 0, 0))
}

pub open spec fn views<'a>(v: Seq<&'a str>) -> Seq<Seq<char>> {
    v.map_values(|x: &'a str| x@)
}

/// Split a shell command on sequential operators: `&&`, `||`, `;`.
///
/// Pipe (`|`) is intentionally excluded — piped commands form a single logical
/// unit. Each segment is trimmed and empty segments are dropped. Operators inside
/// quoted strings are not recognised.
pub fn sequential_segments<'a>(cmd: &'a str) -> (r: Vec<&'a str>)
    ensures
        views(r@) == segments(cmd@),
{
    let v = chars_of(cmd);
    let n = v.len();
    let mut segs: Vec<&'a str> = Vec::new();
    let mut start: usize = 0;
    let mut i: usize = 0;
    let ghost mut pieces: Seq<Seq<char>> = seq![];
    while i < n
        invariant
            n == v@.len(),
            v@ == cmd@,
            start <= i <= n,
            split_scan(v@, 0, 0) == pieces + split_scan(v@, start as int, i as int),
            views(segs@) == tidy(pieces),
        decreases n - i,
    {
        let two = i + 1 < n && ((v[i] == '&' && v[i + 1] == '&') || (v[i] == '|' && v[i + 1] == '|'));
        if two || v[i] == ';' {
            let w: usize = if two { 2 } else { 1 };
            assert(op_len(v@, i as int) == w);
            let (lo, hi) = trim_bounds(&v, start, i);
            proof {
                let p = v@.subrange(start as int, i as int);
                assert(split_scan(v@, start as int, i as int) == seq![p] + split_scan(
                    v@,
                    (i + w) as int,
                    (i + w) as int,
                ));
                assert(pieces.push(p).drop_last() == pieces);
                assert(pieces + (seq![p] + split_scan(v@, (i + w) as int, (i + w) as int))
                    == pieces.push(p) + split_scan(v@, (i + w) as int, (i + w) as int));
                pieces = pieces.push(p);
            }
            if lo < hi {
                let seg = cmd.substring_char(lo, hi);
                segs.push(seg);
                proof { assert(views(segs@) == views(segs@.drop_last()).push(seg@)); }
            }
            i = i + w;
            start = i;
        } else {
            assert(op_len(v@, i as int) == 0);
            i += 1;
        }
    }
    let (lo, hi) = trim_bounds(&v, start, n);
    proof {
        let p = v@.subrange(start as int, n as int);
        assert(split_scan(v@, start as int, n as int) == seq![p]);
        assert(pieces.push(p).drop_last() == pieces);
        pieces = pieces.push(p);
    }
    if lo < hi {
        let seg = cmd.substring_char(lo, hi);
        segs.push(seg);
        proof { assert(views(segs@) == views(segs@.drop_last()).push(seg@)); }
    }
    proof { assert(pieces == split_scan(v@, 0, 0)); }
    segs
}

/// The pieces of `s[start..]` between `|` characters, scanning from `i`.
pub open spec fn pipe_scan(s: Seq<char>, start: int, i: int) -> Seq<Seq<char>>
    decreases s.len() - i,
{
    if i >= s.len() {
        seq![s.subrange(start, s.len() as int)]
    } else if s[i] == '|' {
        seq![s.subrange(start, i)] + pipe_scan(s, i + 1, i + 1)
    } else {
        pipe_scan(s, start, i + 1)
    }
}

/// The stages of a pipeline: the text between `|` characters, trimmed, empty ones left out.
pub open spec fn stages(s: Seq<char>) -> Seq<Seq<char>> {
    tidy(pipe_scan(s, 0, 0))
}

/// Split a command into its pipe stages (`a | b` gives `a` and `b`).
pub fn pipe_stages<'a>(cmd: &'a str) -> (r: Vec<&'a str>)
    ensures
        views(r@) == stages(cmd@),
{
    let v = chars_of(cmd);
    let n = v.len();
    let mut out: Vec<&'a str> = Vec::new();
    let mut start: usize = 0;
    let mut i: usize = 0;
    let ghost mut pieces: Seq<Seq<char>> = seq![];
    while i < n
        invariant
            n == v@.len(),
            v@ == cmd@,
            start <= i <= n,
            pipe_scan(v@, 0, 0) == pieces + pipe_scan(v@, start as int, i as int),
            views(out@) == tidy(pieces),
        decreases n - i,
    {
        if v[i] == '|' {
            let (lo, hi) = trim_bounds(&v, start, i);
            proof {
                let p = v@.subrange(start as int, i as int);
                assert(pipe_scan(v@, start as int, i as int) == seq![p] + pipe_scan(
                    v@,
                    (i + 1) as int,
                    (i + 1) as int,
                ));
                assert(pieces.push(p).drop_last() == pieces);
                assert(pieces + (seq![p] + pipe_scan(v@, (i + 1) as int, (i + 1) as int))
                    == pieces.push(p) + pipe_scan(v@, (i + 1) as int, (i + 1) as int));
                pieces = pieces.push(p);
            }
            if lo < hi {
                let seg = cmd.substring_char(lo, hi);
                out.push(seg);
                proof { assert(views(out@) == views(out@.drop_last()).push(seg@)); }
            }
            i = i + 1;
            start = i;
        } else {
            i += 1;
        }
    }
    let (lo, hi) = trim_bounds(&v, start, n);
    proof {
        let p = v@.subrange(start as int, n as int);
        assert(pipe_scan(v@, start as int, n as int) == seq![p]);
        assert(pieces.push(p).drop_last() == pieces);
        pieces = pieces.push(p);
    }
    if lo < hi {
        let seg = cmd.substring_char(lo, hi);
        out.push(seg);
        proof { assert(views(out@) == views(out@.drop_last()).push(seg@)); }
    }
    proof { assert(pieces == pipe_scan(v@, 0, 0)); }
    out
}

/// The command name (first shell word) of each stage that has one, in order.
pub open spec fn stage_heads(st: Seq<Seq<char>>) -> Seq<Seq<char>>
    decreases st.len(),
{
    if st.len() == 0 {
        seq![]
    } else {
        stage_heads(st.drop_last()) + match parsed_argv(st.last()) {
            Some(w) => seq![w[0]],
            None => seq![],
        }
    }
}

/// The command names (argv[0]) of the pipe stages of `s`.
pub open spec fn stage_commands(s: Seq<char>) -> Seq<Seq<char>> {
    stage_heads(stages(s))
}

/// The argv[0] of each pipe stage of `cmd` that parses into at least one word.
pub fn pipe_stage_commands(cmd: &str) -> (r: Vec<String>)
    ensures
        r@.map_values(|w: String| w@) == stage_commands(cmd@),
{
    let st = pipe_stages(cmd);
    let mut out: Vec<String> = Vec::new();
    let mut i: usize = 0;
    while i < st.len()
        invariant
            i <= st@.len(),
            views(st@) == stages(cmd@),
            out@.map_values(|w: String| w@) == stage_heads(views(st@).take(i as int)),
        decreases st.len() - i,
    {
        let parsed = parse(st[i]);
        proof {
            assert(views(st@).take(i + 1).drop_last() == views(st@).take(i as int));
            assert(views(st@).take(i + 1).last() == st@[i as int]@);
        }
        match parsed {
            Some(c) => {
                let name = c.argv[0].clone();
                out.push(name);
                proof {
                    assert(out@.map_values(|w: String| w@) == out@.drop_last().map_values(|w: String| w@).push(name@));
                }
            },
            None => {},
        }
        i += 1;
    }
    proof { assert(views(st@).take(st@.len() as int) == views(st@)); }
    out
}

// ---------------------------------------------------------------------------
// Laws of the segments
// ---------------------------------------------------------------------------

/// No `;`, `&&` or `||` occurs in `p`.
pub open spec fn op_free(p: Seq<char>) -> bool {
    forall|j: int| 0 <= j < p.len() ==> #[trigger] p[j] != ';' && !(j + 1 < p.len() && ((p[j] == '&' && p[j + 1]
        == '&') || (p[j] == '|' && p[j + 1] == '|')))
}

proof fn lemma_op_free_subrange(p: Seq<char>, a: int, b: int)
    requires
        op_free(p),
        0 <= a <= b <= p.len(),
    ensures
        op_free(p.subrange(a, b)),
{
    let q = p.subrange(a, b);
    assert forall|j: int| 0 <= j < q.len() implies #[trigger] q[j] != ';' && !(j + 1 < q.len() && ((q[j] == '&'
        && q[j + 1] == '&') || (q[j] == '|' && q[j + 1] == '|'))) by {
        assert(q[j] == p[a + j]);
        if j + 1 < q.len() {
            assert(q[j + 1] == p[a + j + 1]);
        }
    }
}

proof fn lemma_trim_start_suffix(s: Seq<char>)
    ensures
        exists|k: int| 0 <= k <= s.len() && trim_start(s) == s.subrange(k, s.len() as int),
        trim_start(s).len() > 0 ==> !crate::text::is_ws(trim_start(s)[0]),
    decreases s.len(),
{
    if s.len() > 0 && crate::text::is_ws(s[0]) {
        lemma_trim_start_suffix(s.drop_first());
        let k = choose|k: int| 0 <= k <= s.drop_first().len() && trim_start(s.drop_first()) == s.drop_first().subrange(k, s.drop_first().len() as int);
        assert(s.drop_first().subrange(k, s.drop_first().len() as int) == s.subrange(k + 1, s.len() as int));
    } else {
        assert(s.subrange(0, s.len() as int) == s);
    }
}

proof fn lemma_trim_end_prefix(s: Seq<char>)
    ensures
        exists|k: int| 0 <= k <= s.len() && trim_end(s) == s.subrange(0, k),
        trim_end(s).len() > 0 ==> !crate::text::is_ws(trim_end(s).last()),
    decreases s.len(),
{
    if s.len() > 0 && crate::text::is_ws(s.last()) {
        lemma_trim_end_prefix(s.drop_last());
        let k = choose|k: int| 0 <= k <= s.drop_last().len() && trim_end(s.drop_last()) == s.drop_last().subrange(0, k);
        assert(s.drop_last().subrange(0, k) == s.subrange(0, k));
    } else {
        assert(s.subrange(0, s.len() as int) == s);
    }
}

/// `trim(s)` is a stretch of `s` that neither starts nor ends with whitespace.
proof fn lemma_trim_shape(s: Seq<char>)
    ensures
        exists|a: int, b: int| 0 <= a <= b <= s.len() && trim(s) == s.subrange(a, b),
        trim(s).len() > 0 ==> !crate::text::is_ws(trim(s)[0]) && !crate::text::is_ws(trim(s).last()),
{
    let t = trim_start(s);
    lemma_trim_start_suffix(s);
    lemma_trim_end_prefix(t);
    let k = choose|k: int| 0 <= k <= s.len() && t == s.subrange(k, s.len() as int);
    let m = choose|m: int| 0 <= m <= t.len() && trim_end(t) == t.subrange(0, m);
    assert(t.subrange(0, m) == s.subrange(k, k + m));
    if trim(s).len() > 0 {
        assert(trim(s)[0] == t[0]);
    }
}

proof fn lemma_split_scan_op_free(s: Seq<char>, start: int, i: int)
    requires
        0 <= start <= i <= s.len(),
        forall|j: int| start <= j < i ==> op_len(s, j) == 0,
    ensures
        forall|k: int| 0 <= k < split_scan(s, start, i).len() ==> op_free(#[trigger] split_scan(s, start, i)[k]),
    decreases s.len() - i,
{
    if i >= s.len() {
        lemma_piece_op_free(s, start, s.len() as int);
        assert(split_scan(s, start, i) == seq![s.subrange(start, s.len() as int)]);
        assert forall|k: int| 0 <= k < split_scan(s, start, i).len() implies op_free(#[trigger] split_scan(s, start, i)[k]) by {
            assert(k == 0);
        }
    } else if op_len(s, i) > 0 {
        lemma_piece_op_free(s, start, i);
        let n = i + op_len(s, i);
        lemma_split_scan_op_free(s, n, n);
        let rest = split_scan(s, n, n);
        assert forall|k: int| 0 <= k < split_scan(s, start, i).len() implies op_free(#[trigger] split_scan(s, start, i)[k]) by {
            if k > 0 {
                assert(split_scan(s, start, i)[k] == rest[k - 1]);
            } else {
                assert(split_scan(s, start, i)[0] == s.subrange(start, i));
            }
        }
    } else {
        lemma_split_scan_op_free(s, start, i + 1);
        assert(split_scan(s, start, i) == split_scan(s, start, i + 1));
    }
}

proof fn lemma_piece_op_free(s: Seq<char>, a: int, b: int)
    requires
        0 <= a <= b <= s.len(),
        forall|j: int| a <= j < b ==> op_len(s, j) == 0,
    ensures
        op_free(s.subrange(a, b)),
{
    let p = s.subrange(a, b);
    assert forall|j: int| 0 <= j < p.len() implies #[trigger] p[j] != ';' && !(j + 1 < p.len() && ((p[j] == '&'
        && p[j + 1] == '&') || (p[j] == '|' && p[j + 1] == '|'))) by {
        assert(op_len(s, a + j) == 0);
        assert(p[j] == s[a + j]);
        if j + 1 < p.len() {
            assert(p[j + 1] == s[a + j + 1]);
        }
    }
}

proof fn lemma_tidy_shape(ps: Seq<Seq<char>>)
    requires
        forall|k: int| 0 <= k < ps.len() ==> op_free(#[trigger] ps[k]),
    ensures
        forall|k: int| 0 <= k < tidy(ps).len() ==> op_free(#[trigger] tidy(ps)[k]) && tidy(ps)[k].len() > 0
            && !crate::text::is_ws(tidy(ps)[k][0]) && !crate::text::is_ws(tidy(ps)[k].last()),
    decreases ps.len(),
{
    if ps.len() > 0 {
        lemma_tidy_shape(ps.drop_last());
        let t = trim(ps.last());
        lemma_trim_shape(ps.last());
        let (a, b) = choose|a: int, b: int| 0 <= a <= b <= ps.last().len() && t == ps.last().subrange(a, b);
        assert(op_free(ps[ps.len() - 1]));
        lemma_op_free_subrange(ps.last(), a, b);
        let prev = tidy(ps.drop_last());
        assert forall|k: int| 0 <= k < tidy(ps).len() implies op_free(#[trigger] tidy(ps)[k]) && tidy(ps)[k].len() > 0
            && !crate::text::is_ws(tidy(ps)[k][0]) && !crate::text::is_ws(tidy(ps)[k].last()) by {
            if k < prev.len() {
                assert(tidy(ps)[k] == prev[k]);
            } else {
                assert(tidy(ps)[k] == t);
            }
        }
    }
}

/// Every segment is non-empty, neither starts nor ends with whitespace, and
/// holds no sequential operator (`;`, `&&`, `||`).
pub proof fn lemma_segments_clean(s: Seq<char>)
    ensures
        forall|k: int| 0 <= k < segments(s).len() ==> {
            let g = #[trigger] segments(s)[k];
            &&& g.len() > 0
            &&& !crate::text::is_ws(g[0])
            &&& !crate::text::is_ws(g.last())
            &&& op_free(g)
        },
{
    lemma_split_scan_op_free(s, 0, 0);
    lemma_tidy_shape(split_scan(s, 0, 0));
}

proof fn lemma_split_scan_whole(s: Seq<char>, i: int)
    requires
        0 <= i <= s.len(),
        forall|j: int| 0 <= j < s.len() ==> op_len(s, j) == 0,
    ensures
        split_scan(s, 0, i) == seq![s],
    decreases s.len() - i,
{
    if i < s.len() {
        lemma_split_scan_whole(s, i + 1);
    } else {
        assert(s.subrange(0, s.len() as int) == s);
    }
}

/// A command without `&&`, `||` or `;` (a pipe included) is one segment,
/// itself trimmed, unless it is blank.
pub proof fn lemma_no_operator_one_segment(s: Seq<char>)
    requires
        forall|j: int| 0 <= j < s.len() ==> op_len(s, j) == 0,
    ensures
        segments(s) == if trim(s).len() > 0 { seq![trim(s)] } else { Seq::<Seq<char>>::empty() },
{
    lemma_split_scan_whole(s, 0);
    let ps = seq![s];
    assert(ps.drop_last() == Seq::<Seq<char>>::empty());
    assert(tidy(ps.drop_last()) == Seq::<Seq<char>>::empty());
}

// ---------------------------------------------------------------------------
// Laws of the pipe stages
// ---------------------------------------------------------------------------

proof fn lemma_pipe_scan_whole(s: Seq<char>, i: int)
    requires
        0 <= i <= s.len(),
        forall|j: int| 0 <= j < s.len() ==> s[j] != '|',
    ensures
        pipe_scan(s, 0, i) == seq![s],
    decreases s.len() - i,
{
    if i < s.len() {
        lemma_pipe_scan_whole(s, i + 1);
    } else {
        assert(s.subrange(0, s.len() as int) == s);
    }
}

/// A command without `|` is one stage, itself trimmed, unless it is blank.
pub proof fn lemma_no_pipe_one_stage(s: Seq<char>)
    requires
        forall|j: int| 0 <= j < s.len() ==> s[j] != '|',
    ensures
        stages(s) == if trim(s).len() > 0 { seq![trim(s)] } else { Seq::<Seq<char>>::empty() },
{
    lemma_pipe_scan_whole(s, 0);
    let ps = seq![s];
    assert(ps.drop_last() == Seq::<Seq<char>>::empty());
    assert(tidy(ps.drop_last()) == Seq::<Seq<char>>::empty());
}

proof fn lemma_pipe_scan_shift(p: Seq<char>, b: Seq<char>, st: int, i: int)
    requires
        0 <= st <= i <= b.len(),
    ensures
        pipe_scan(p + b, p.len() + st, p.len() + i) == pipe_scan(b, st, i),
    decreases b.len() - i,
{
    let s = p + b;
    let o = p.len() as int;
    if i >= b.len() {
        assert(s.subrange(o + st, s.len() as int) == b.subrange(st, b.len() as int));
    } else {
        assert(s[o + i] == b[i]);
        if b[i] == '|' {
            lemma_pipe_scan_shift(p, b, i + 1, i + 1);
            assert(s.subrange(o + st, o + i) == b.subrange(st, i));
        } else {
            lemma_pipe_scan_shift(p, b, st, i + 1);
        }
    }
}

proof fn lemma_pipe_scan_join(a: Seq<char>, b: Seq<char>, start: int, i: int)
    requires
        0 <= start <= i <= a.len(),
    ensures
        pipe_scan(a + seq!['|'] + b, start, i) == pipe_scan(a, start, i) + pipe_scan(b, 0, 0),
    decreases a.len() - i,
{
    let p = a + seq!['|'];
    let s = p + b;
    if i == a.len() {
        assert(s[i] == '|');
        lemma_pipe_scan_shift(p, b, 0, 0);
        assert(s.subrange(start, i) == a.subrange(start, a.len() as int));
    } else {
        assert(s[i] == a[i]);
        if a[i] == '|' {
            lemma_pipe_scan_join(a, b, i + 1, i + 1);
            assert(s.subrange(start, i) == a.subrange(start, i));
            let l = seq![a.subrange(start, i)];
            assert(l + pipe_scan(a, i + 1, i + 1) + pipe_scan(b, 0, 0) == l + (pipe_scan(a, i + 1, i + 1)
                + pipe_scan(b, 0, 0)));
        } else {
            lemma_pipe_scan_join(a, b, start, i + 1);
        }
    }
}

proof fn lemma_tidy_append(x: Seq<Seq<char>>, y: Seq<Seq<char>>)
    ensures
        tidy(x + y) == tidy(x) + tidy(y),
    decreases y.len(),
{
    if y.len() == 0 {
        assert(x + y == x);
        assert(tidy(x) + tidy(y) == tidy(x));
    } else {
        assert((x + y).drop_last() == x + y.drop_last());
        assert((x + y).last() == y.last());
        lemma_tidy_append(x, y.drop_last());
        let t = trim(y.last());
        let e: Seq<Seq<char>> = if t.len() > 0 { seq![t] } else { seq![] };
        assert(tidy(x) + tidy(y.drop_last()) + e == tidy(x) + (tidy(y.drop_last()) + e));
    }
}

/// `|` splits a command into stages at every occurrence: the stages of
/// `a | b` are those of `a` followed by those of `b`.
pub proof fn lemma_pipe_splits_stages(a: Seq<char>, b: Seq<char>)
    ensures
        stages(a + seq!['|'] + b) == stages(a) + stages(b),
{
    lemma_pipe_scan_join(a, b, 0, 0);
    lemma_tidy_append(pipe_scan(a, 0, 0), pipe_scan(b, 0, 0));
}

proof fn lemma_stage_heads_append(x: Seq<Seq<char>>, y: Seq<Seq<char>>)
    ensures
        stage_heads(x + y) == stage_heads(x) + stage_heads(y),
    decreases y.len(),
{
    if y.len() == 0 {
        assert(x + y == x);
        assert(stage_heads(x) + stage_heads(y) == stage_heads(x));
    } else {
        assert((x + y).drop_last() == x + y.drop_last());
        assert((x + y).last() == y.last());
        lemma_stage_heads_append(x, y.drop_last());
        let e: Seq<Seq<char>> = match parsed_argv(y.last()) {
            Some(w) => seq![w[0]],
            None => seq![],
        };
        assert(stage_heads(x) + stage_heads(y.drop_last()) + e == stage_heads(x) + (stage_heads(
            y.drop_last(),
        ) + e));
    }
}

/// The command names of `a | b` are those of `a`'s stages followed by those of `b`'s:
/// the command name of every stage after a `|` counts.
pub proof fn lemma_pipe_joins_commands(a: Seq<char>, b: Seq<char>)
    ensures
        stage_commands(a + seq!['|'] + b) == stage_commands(a) + stage_commands(b),
{
    lemma_pipe_splits_stages(a, b);
    lemma_stage_heads_append(stages(a), stages(b));
}

} // verus!
