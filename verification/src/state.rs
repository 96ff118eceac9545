//! Failure learning: commands that keep failing are remembered and, past a
//! threshold within a sliding window, blocked.
use vstd::prelude::*;
use vstd::utf8::encode_utf8;
use crate::clock;
use crate::digest::{hex_encode, lower_hex, sha256, sha256_digest};
use crate::rules::FailureLearning;
use crate::text::{decimal, decimal_string, owned, replace_all, replace_str, str_eq, take_chars};

verus! {

/// Max characters kept in the command preview field.
pub const PREVIEW_MAX_CHARS: usize = 80;

/// Minimum window in minutes shown in messages.
pub const MIN_WINDOW_MINUTES: u64 = 1;

#[derive(Debug, Clone)]
pub struct FailureEntry {
    pub command_preview: String,
    pub timestamps: Vec<u64>,
    /// Unix seconds of the most recent failure.
    pub last_seen: u64,
}

/// Failure records keyed by command key; no key occurs twice.
#[derive(Debug, Clone)]
pub struct State {
    pub failures: Vec<(String, FailureEntry)>,
}

/// An entry as plain values: (key, preview, timestamps, last_seen).
pub type EntryView = (Seq<char>, Seq<char>, Seq<u64>, u64);

pub open spec fn entry_view(e: (String, FailureEntry)) -> EntryView {
    (e.0@, e.1.command_preview@, e.1.timestamps@, e.1.last_seen)
}

impl View for State {
    type V = Seq<EntryView>;

    open spec fn view(&self) -> Seq<EntryView> {
        self.failures@.map_values(|e: (String, FailureEntry)| entry_view(e))
    }
}

pub open spec fn keys_distinct(s: Seq<EntryView>) -> bool {
    forall|i: int, j: int| 0 <= i < s.len() && 0 <= j < s.len() && i != j ==> s[i].0 != s[j].0
}

impl State {
    pub open spec fn wf(&self) -> bool {
        keys_distinct(self@)
    }

    pub fn new() -> (s: Self)
        ensures
            s@.len() == 0,
            s.wf(),
    {
        State { failures: Vec::new() }
    }

    pub fn len(&self) -> (n: usize)
        ensures
            n == self@.len(),
    {
        self.failures.len()
    }

    /// Position of `key`, if present.
    pub fn position(&self, key: &str) -> (r: Option<usize>)
        ensures
            match r {
                Some(i) => find_key(self@, key@) == Some(i as int) && i < self@.len(),
                None => find_key(self@, key@) is None,
            },
    {
        proof { lemma_find_key_from(self@, key@, 0); }
        let mut i: usize = 0;
        while i < self.failures.len()
            invariant
                i <= self@.len(),
                find_key(self@, key@) == find_key_from(self@, key@, i as int),
            decreases self.failures.len() - i,
        {
            if str_eq(self.failures[i].0.as_str(), key) {
                return Some(i);
            }
            i += 1;
        }
        None
    }

    pub fn get(&self, key: &str) -> (r: Option<&FailureEntry>)
        ensures
            match find_key(self@, key@) {
                Some(i) => r matches Some(e) && entry_view((self.failures@[i].0, *e)) == self@[i],
                None => r is None,
            },
    {
        match self.position(key) {
            Some(i) => Some(&self.failures[i].1),
            None => None,
        }
    }

    pub fn contains_key(&self, key: &str) -> (b: bool)
        ensures
            b == (find_key(self@, key@) is Some),
    {
        self.position(key).is_some()
    }

    /// Sets the entry for `key`, replacing an existing one in place.
    pub fn insert(&mut self, key: String, entry: FailureEntry)
        requires
            old(self).wf(),
        ensures
            final(self).wf(),
            final(self)@ == put(old(self)@, entry_view((key, entry))),
    {
        let ghost ev = entry_view((key, entry));
        match self.position(key.as_str()) {
            Some(i) => {
                let _ = self.failures.remove(i);
                self.failures.insert(i, (key, entry));
                proof {
                    lemma_put_distinct(old(self)@, ev);
                    assert(self@ == old(self)@.update(i as int, ev));
                    assert(self@ == put(old(self)@, ev));
                }
            },
            None => {
                self.failures.push((key, entry));
                proof {
                    lemma_put_distinct(old(self)@, ev);
                    assert(self@ == old(self)@.push(ev));
                }
            },
        }
    }
}

pub open spec fn find_key_from(s: Seq<EntryView>, key: Seq<char>, k: int) -> Option<int>
    decreases s.len() - k,
{
    if k < 0 || k >= s.len() {
        None
    } else if s[k].0 == key {
        Some(k)
    } else {
        find_key_from(s, key, k + 1)
    }
}

/// Position of `key` in `s`.
pub open spec fn find_key(s: Seq<EntryView>, key: Seq<char>) -> Option<int> {
    find_key_from(s, key, 0)
}

/// `s` with the entry for `e.0` replaced by `e`, or `e` appended.
pub open spec fn put(s: Seq<EntryView>, e: EntryView) -> Seq<EntryView> {
    match find_key(s, e.0) {
        Some(i) => s.update(i, e),
        None => s.push(e),
    }
}

proof fn lemma_find_key_from(s: Seq<EntryView>, key: Seq<char>, k: int)
    requires
        0 <= k,
    ensures
        find_key_from(s, key, k) matches Some(i) ==> k <= i < s.len() && s[i].0 == key,
        find_key_from(s, key, k) is None ==> forall|j: int| k <= j < s.len() ==> s[j].0 != key,
    decreases s.len() - k,
{
    if k < s.len() {
        lemma_find_key_from(s, key, k + 1);
    }
}

proof fn lemma_put_distinct(s: Seq<EntryView>, e: EntryView)
    requires
        keys_distinct(s),
    ensures
        keys_distinct(put(s, e)),
        put(s, e).len() == if find_key(s, e.0) is Some { s.len() } else { s.len() + 1 },
{
    lemma_find_key_from(s, e.0, 0);
}

// ---------------------------------------------------------------------------
// Keys and previews
// ---------------------------------------------------------------------------

/// The key of a command: lowercase hex SHA-256 of its UTF-8 bytes.
pub open spec fn key_of(cmd: Seq<char>) -> Seq<char> {
    lower_hex(sha256_digest(encode_utf8(cmd)))
}

pub fn command_key(command: &str) -> (k: String)
    ensures
        k@ == key_of(command@),
{
    let digest = sha256(command.as_bytes());
    hex_encode(digest.as_slice())
}

pub open spec fn preview_of(cmd: Seq<char>) -> Seq<char> {
    cmd.take(if cmd.len() > 80 { 80 } else { cmd.len() as int })
}

// ---------------------------------------------------------------------------
// Recording and pruning
// ---------------------------------------------------------------------------

/// `s` after recording one failure of the command with key `key` at `now`.
pub open spec fn recorded(s: Seq<EntryView>, key: Seq<char>, preview: Seq<char>, now: u64) -> Seq<EntryView> {
    match find_key(s, key) {
        Some(i) => s.update(i, (key, preview, s[i].2.push(now), now)),
        None => s.push((key, preview, seq![now], now)),
    }
}

/// A timestamp stays while it is no more than `window` seconds old.
pub open spec fn in_window(t: u64, now: u64, window: u64) -> bool {
    (if now >= t { now - t } else { 0 }) <= window
}

pub open spec fn window_filter(ts: Seq<u64>, now: u64, window: u64) -> Seq<u64>
    decreases ts.len(),
{
    if ts.len() == 0 {
        seq![]
    } else {
        window_filter(ts.drop_last(), now, window) + if in_window(ts.last(), now, window) {
            seq![ts.last()]
        } else {
            seq![]
        }
    }
}

/// An entry stays while it was seen no more than `cleanup` seconds ago.
pub open spec fn is_fresh(e: EntryView, now: u64, cleanup: u64) -> bool {
    now as int - e.3 as int <= cleanup as int
}

/// Entries still fresh and with a timestamp in the window, their timestamps
/// reduced to those in the window, in their original order.
pub open spec fn survivors(s: Seq<EntryView>, fl: FailureLearning, now: u64) -> Seq<EntryView>
    decreases s.len(),
{
    if s.len() == 0 {
        seq![]
    } else {
        let e = s.last();
        let ts = window_filter(e.2, now, fl.window_seconds);
        let rest = survivors(s.drop_last(), fl, now);
        if is_fresh(e, now, fl.cleanup_after_seconds) && ts.len() > 0 {
            rest.push((e.0, e.1, ts, e.3))
        } else {
            rest
        }
    }
}

/// `out` keeps `max` of the survivors `sv` (all of them when they fit), and
/// every survivor left out was seen no later than any survivor kept.
pub open spec fn evicted_oldest(sv: Seq<EntryView>, out: Seq<EntryView>, max: usize) -> bool {
    &&& out.len() == if sv.len() <= max { sv.len() as int } else { max as int }
    &&& sv.len() <= max ==> out == sv
    &&& forall|i: int| 0 <= i < out.len() ==> sv.contains(#[trigger] out[i])
    &&& forall|e: EntryView, i: int|
        #![trigger sv.contains(e), out[i]]
        sv.contains(e) && !out.contains(e) && 0 <= i < out.len() ==> e.3 <= out[i].3
}

fn filter_window(ts: &Vec<u64>, now: u64, window: u64) -> (r: Vec<u64>)
    ensures
        r@ == window_filter(ts@, now, window),
{
    let mut out: Vec<u64> = Vec::new();
    let mut i: usize = 0;
    while i < ts.len()
        invariant
            i <= ts@.len(),
            out@ == window_filter(ts@.take(i as int), now, window),
        decreases ts.len() - i,
    {
        let t = ts[i];
        proof {
            assert(ts@.take(i + 1).drop_last() == ts@.take(i as int));
            assert(ts@.take(i + 1).last() == t);
        }
        let age = if now >= t { now - t } else { 0 };
        if age <= window {
            out.push(t);
        }
        i += 1;
    }
    proof { assert(ts@.take(ts@.len() as int) == ts@); }
    out
}

proof fn lemma_survivors_distinct(s: Seq<EntryView>, fl: FailureLearning, now: u64)
    requires
        keys_distinct(s),
    ensures
        keys_distinct(survivors(s, fl, now)),
    decreases s.len(),
{
    if s.len() > 0 {
        let d = s.drop_last();
        assert(keys_distinct(d));
        lemma_survivors_distinct(d, fl, now);
        lemma_survivor_keys(d, fl, now);
        let rest = survivors(d, fl, now);
        let all = survivors(s, fl, now);
        if all.len() > rest.len() {
            assert forall|i: int, j: int| 0 <= i < all.len() && 0 <= j < all.len() && i != j implies all[i].0 != all[j].0 by {
                if i < rest.len() && j < rest.len() {
                    assert(all[i] == rest[i] && all[j] == rest[j]);
                } else if i < rest.len() {
                    let k = choose|k: int| 0 <= k < d.len() && #[trigger] rest[i].0 == d[k].0 && rest[i].3 == d[k].3;
                    assert(d[k] == s[k]);
                    assert(all[j].0 == s[s.len() - 1].0);
                } else if j < rest.len() {
                    let k = choose|k: int| 0 <= k < d.len() && #[trigger] rest[j].0 == d[k].0 && rest[j].3 == d[k].3;
                    assert(d[k] == s[k]);
                    assert(all[i].0 == s[s.len() - 1].0);
                }
            }
        }
    }
}

proof fn lemma_survivor_keys(s: Seq<EntryView>, fl: FailureLearning, now: u64)
    ensures
        forall|j: int| 0 <= j < survivors(s, fl, now).len() ==> exists|k: int|
            0 <= k < s.len() && #[trigger] survivors(s, fl, now)[j].0 == s[k].0 && survivors(s, fl, now)[j].3 == s[k].3,
    decreases s.len(),
{
    if s.len() > 0 {
        lemma_survivor_keys(s.drop_last(), fl, now);
        let rest = survivors(s.drop_last(), fl, now);
        assert forall|j: int| 0 <= j < survivors(s, fl, now).len() implies exists|k: int|
            0 <= k < s.len() && #[trigger] survivors(s, fl, now)[j].0 == s[k].0 && survivors(s, fl, now)[j].3 == s[k].3 by {
            if j < rest.len() {
                let k = choose|k: int| 0 <= k < s.drop_last().len() && rest[j].0 == s.drop_last()[k].0 && rest[j].3 == s.drop_last()[k].3;
                assert(s[k] == s.drop_last()[k]);
            } else {
                assert(survivors(s, fl, now)[j].0 == s[s.len() - 1].0);
            }
        }
    }
}

/// Drops stale entries and old timestamps, then evicts the least recently seen
/// entries while more than `max_tracked_commands` remain.
pub fn prune(state: State, fl: &FailureLearning, now: u64) -> (r: State)
    requires
        state.wf(),
    ensures
        r.wf(),
        evicted_oldest(survivors(state@, *fl, now), r@, fl.max_tracked_commands),
{
    let window = fl.window_seconds;
    let cleanup = fl.cleanup_after_seconds;
    let max = fl.max_tracked_commands;
    let src = state.failures;
    let ghost s = state@;
    let mut out: Vec<(String, FailureEntry)> = Vec::new();
    let mut i: usize = 0;
    while i < src.len()
        invariant
            i <= src@.len(),
            s == src@.map_values(|e: (String, FailureEntry)| entry_view(e)),
            keys_distinct(s),
            window == fl.window_seconds,
            cleanup == fl.cleanup_after_seconds,
            out@.map_values(|e: (String, FailureEntry)| entry_view(e)) == survivors(s.take(i as int), *fl, now),
        decreases src.len() - i,
    {
        let ghost outv = out@.map_values(|e: (String, FailureEntry)| entry_view(e));
        proof {
            assert(s.take(i + 1).drop_last() == s.take(i as int));
            assert(s.take(i + 1).last() == s[i as int]);
        }
        let e = &src[i];
        let fresh = e.1.last_seen >= now || now - e.1.last_seen <= cleanup;
        if fresh {
            let ts = filter_window(&e.1.timestamps, now, window);
            if ts.len() > 0 {
                let key = e.0.clone();
                let preview = e.1.command_preview.clone();
                let item = (key, FailureEntry { command_preview: preview, timestamps: ts, last_seen: e.1.last_seen });
                out.push(item);
                proof {
                    assert(out@.map_values(|e: (String, FailureEntry)| entry_view(e)) == outv.push(entry_view(item)));
                }
            }
        }
        i += 1;
    }
    proof {
        assert(s.take(s.len() as int) == s);
    }
    let ghost sv = survivors(s, *fl, now);
    // Survivors have distinct keys since they come from distinct entries in order.
    proof {
        lemma_survivor_keys(s, *fl, now);
        lemma_survivors_distinct(s, *fl, now);
    }
    let ghost mut removed: Seq<EntryView> = seq![];
    proof {
        assert forall|j: int| 0 <= j < out@.len() implies sv.contains(#[trigger] entry_view(out@[j])) by {
            assert(sv[j] == entry_view(out@[j]));
        }
    }
    while out.len() > max
        invariant
            keys_distinct(out@.map_values(|e: (String, FailureEntry)| entry_view(e))),
            keys_distinct(sv),
            forall|j: int| 0 <= j < out@.len() ==> sv.contains(#[trigger] entry_view(out@[j])),
            out@.len() + removed.len() == sv.len(),
            forall|e: EntryView| sv.contains(e) ==> out@.map_values(|e: (String, FailureEntry)| entry_view(e)).contains(e) || removed.contains(e),
            forall|a: int, b: int|
                #![trigger removed[a], out@[b]]
                0 <= a < removed.len() && 0 <= b < out@.len() ==> removed[a].3 <= out@[b].1.last_seen,
            removed.len() == 0 ==> out@.map_values(|e: (String, FailureEntry)| entry_view(e)) == sv,
            out@.len() >= max || removed.len() == 0,
        decreases out.len(),
    {
        let ghost before = out@.map_values(|e: (String, FailureEntry)| entry_view(e));
        let ghost old_out = out@;
        let mut j: usize = 0;
        let mut k: usize = 1;
        while k < out.len()
            invariant
                j < out@.len(),
                1 <= k <= out@.len(),
                forall|m: int| 0 <= m < k ==> out@[j as int].1.last_seen <= #[trigger] out@[m].1.last_seen,
            decreases out.len() - k,
        {
            if out[k].1.last_seen < out[j].1.last_seen {
                j = k;
            }
            k += 1;
        }
        let gone = out.remove(j);
        proof {
            let after = out@.map_values(|e: (String, FailureEntry)| entry_view(e));
            assert(after == before.remove(j as int));
            assert forall|e: EntryView| sv.contains(e) implies after.contains(e) || removed.push(entry_view(gone)).contains(e) by {
                if before.contains(e) {
                    let p = choose|p: int| 0 <= p < before.len() && before[p] == e;
                    if p < j {
                        assert(after[p] == e);
                    } else if p > j {
                        assert(after[p - 1] == e);
                    } else {
                        assert(removed.push(entry_view(gone))[removed.len() as int] == e);
                    }
                } else {
                    let q = choose|q: int| 0 <= q < removed.len() && removed[q] == e;
                    assert(removed.push(entry_view(gone))[q] == e);
                }
            }
            assert forall|j2: int| 0 <= j2 < out@.len() implies sv.contains(#[trigger] entry_view(out@[j2])) by {
                assert(entry_view(out@[j2]) == after[j2]);
                assert(after[j2] == before[if j2 < j { j2 } else { j2 + 1 }]);
                assert(before[if j2 < j { j2 } else { j2 + 1 }] == entry_view(old_out[if j2 < j { j2 } else { j2 + 1 }]));
            }
            removed = removed.push(entry_view(gone));
        }
    }
    let r = State { failures: out };
    proof {
        let outv = r@;
        assert forall|e: EntryView, i: int|
            #![trigger sv.contains(e), outv[i]]
            sv.contains(e) && !outv.contains(e) && 0 <= i < outv.len() implies e.3 <= outv[i].3 by {
            let q = choose|q: int| 0 <= q < removed.len() && removed[q] == e;
            assert(outv[i].3 == out@[i].1.last_seen);
        }
        assert forall|i: int| 0 <= i < outv.len() implies sv.contains(#[trigger] outv[i]) by {
            assert(outv[i] == entry_view(out@[i]));
        }
    }
    r
}

/// Records a failure of `command` at `now`, then prunes.
pub fn record_failure_at(state: State, command: &str, fl: &FailureLearning, now: u64) -> (r: State)
    requires
        state.wf(),
    ensures
        r.wf(),
        evicted_oldest(
            survivors(recorded(state@, key_of(command@), preview_of(command@), now), *fl, now),
            r@,
            fl.max_tracked_commands,
        ),
{
    let key = command_key(command);
    let preview = take_chars(command, PREVIEW_MAX_CHARS);
    let mut state = state;
    let ghost before = state@;
    proof { lemma_find_key_from(before, key@, 0); }
    match state.position(key.as_str()) {
        Some(i) => {
            let (k, mut e) = state.failures.remove(i);
            let ghost old_ts = e.timestamps@;
            e.timestamps.push(now);
            e.last_seen = now;
            e.command_preview = preview;
            state.failures.insert(i, (k, e));
            proof {
                assert(state@ == before.update(i as int, (key@, preview_of(command@), before[i as int].2.push(now), now)));
                assert(keys_distinct(state@)) by {
                    assert forall|a: int, b: int| 0 <= a < state@.len() && 0 <= b < state@.len() && a != b implies state@[a].0 != state@[b].0 by {
                        assert(state@[a].0 == before[a].0 && state@[b].0 == before[b].0);
                    }
                }
            }
        },
        None => {
            let mut ts: Vec<u64> = Vec::new();
            ts.push(now);
            let item = (key, FailureEntry { command_preview: preview, timestamps: ts, last_seen: now });
            state.failures.push(item);
            proof {
                assert(state@ == before.push(entry_view(item)));
                assert(ts@ == seq![now]);
                lemma_put_distinct(before, entry_view(item));
                assert(state@ == put(before, entry_view(item)));
            }
        },
    }
    prune(state, fl, now)
}

/// Records a failed command into state at the current time and returns the new state.
pub fn record_failure(state: State, command: &str, fl: &FailureLearning) -> (r: State)
    requires
        state.wf(),
    ensures
        r.wf(),
        exists|now: u64|
            evicted_oldest(
                #[trigger] survivors(recorded(state@, key_of(command@), preview_of(command@), now), *fl, now),
                r@,
                fl.max_tracked_commands,
            ),
{
    let now = clock::now_secs();
    record_failure_at(state, command, fl, now)
}

/// The default deny template for learned failures.
pub open spec fn default_template() -> Seq<char> {
    "[course-correct] This exact command has failed {count} times in the last {window} minutes. Consider a different approach.\n\nFailing command: {preview}"@
}

pub open spec fn window_minutes(fl: FailureLearning) -> nat {
    let m = fl.window_seconds / 60;
    if m >= 1 { m as nat } else { 1 }
}

pub open spec fn render_message(template: Seq<char>, count: nat, minutes: nat, preview: Seq<char>) -> Seq<char> {
    replace_all(
        replace_all(replace_all(template, "{count}"@, decimal(count)), "{window}"@, decimal(minutes)),
        "{preview}"@,
        preview,
    )
}

/// The deny message when `cmd` has failed at least `block_threshold` times in the
/// state's window, `None` otherwise.
pub open spec fn learned_message(cmd: Seq<char>, s: Seq<EntryView>, fl: FailureLearning) -> Option<Seq<char>> {
    if !fl.enabled {
        None
    } else {
        match find_key(s, key_of(cmd)) {
            None => None,
            Some(i) => if s[i].2.len() < fl.block_threshold {
                None
            } else {
                Some(render_message(
                    match fl.message_template {
                        Some(t) => t@,
                        None => default_template(),
                    },
                    s[i].2.len(),
                    window_minutes(fl),
                    s[i].1,
                ))
            },
        }
    }
}

/// Returns the deny message if `command` has failed `block_threshold` or more times.
pub fn check_learned(command: &str, state: &State, fl: &FailureLearning) -> (r: Option<String>)
    ensures
        crate::rules::opt_view(r) == learned_message(command@, state@, *fl),
{
    if !fl.enabled {
        return None;
    }
    let key = command_key(command);
    let i = match state.position(key.as_str()) {
        Some(i) => i,
        None => return None,
    };
    let entry = &state.failures[i].1;
    if entry.timestamps.len() < fl.block_threshold {
        return None;
    }
    let minutes = fl.window_seconds / 60;
    let minutes = if minutes >= MIN_WINDOW_MINUTES { minutes } else { MIN_WINDOW_MINUTES };
    let template = match &fl.message_template {
        Some(t) => t.clone(),
        None => owned("[course-correct] This exact command has failed {count} times in the last {window} minutes. Consider a different approach.\n\nFailing command: {preview}"),
    };
    proof {
        reveal_strlit("{count}");
        reveal_strlit("{window}");
        reveal_strlit("{preview}");
    }
    let count = decimal_string(entry.timestamps.len() as u64);
    let window = decimal_string(minutes);
    let a = replace_str(template.as_str(), "{count}", count.as_str());
    let b = replace_str(a.as_str(), "{window}", window.as_str());
    let c = replace_str(b.as_str(), "{preview}", entry.command_preview.as_str());
    Some(c)
}

impl FailureEntry {
    /// A copy of the entry, field for field.
    pub fn copy(&self) -> (r: Self)
        ensures
            r.command_preview == self.command_preview,
            r.timestamps@ == self.timestamps@,
            r.last_seen == self.last_seen,
    {
        let mut ts: Vec<u64> = Vec::new();
        let mut i: usize = 0;
        while i < self.timestamps.len()
            invariant
                i <= self.timestamps@.len(),
                ts@ == self.timestamps@.take(i as int),
            decreases self.timestamps.len() - i,
        {
            ts.push(self.timestamps[i]);
            proof { assert(self.timestamps@.take(i + 1) == self.timestamps@.take(i as int).push(self.timestamps@[i as int])); }
            i += 1;
        }
        proof { assert(self.timestamps@.take(self.timestamps@.len() as int) == self.timestamps@); }
        FailureEntry { command_preview: self.command_preview.clone(), timestamps: ts, last_seen: self.last_seen }
    }
}

impl State {
    /// A copy of the state, entry for entry.
    pub fn copy(&self) -> (r: Self)
        ensures
            r@ == self@,
    {
        let mut out: Vec<(String, FailureEntry)> = Vec::new();
        let mut i: usize = 0;
        while i < self.failures.len()
            invariant
                i <= self.failures@.len(),
                out@.len() == i,
                forall|j: int| 0 <= j < i ==> entry_view(#[trigger] out@[j]) == entry_view(self.failures@[j]),
            decreases self.failures.len() - i,
        {
            let e = (self.failures[i].0.clone(), self.failures[i].1.copy());
            out.push(e);
            i += 1;
        }
        let r = State { failures: out };
        proof { assert(r@ =~= self@); }
        r
    }
}


/// The stored preview of a command never exceeds `PREVIEW_MAX_CHARS` characters.
pub proof fn lemma_preview_bounded(cmd: Seq<char>)
    ensures
        preview_of(cmd).len() <= PREVIEW_MAX_CHARS,
        PREVIEW_MAX_CHARS > 0,
{
}

/// The window a message names is at least one minute.
pub proof fn lemma_window_minutes_at_least_one(fl: FailureLearning)
    ensures
        window_minutes(fl) >= MIN_WINDOW_MINUTES,
{
}


/// `e` with its timestamps reduced to those in the window.
pub open spec fn windowed(e: EntryView, fl: FailureLearning, now: u64) -> EntryView {
    (e.0, e.1, window_filter(e.2, now, fl.window_seconds), e.3)
}

proof fn lemma_survivors_shape(s: Seq<EntryView>, fl: FailureLearning, now: u64)
    ensures
        forall|j: int| 0 <= j < survivors(s, fl, now).len() ==> exists|k: int|
            0 <= k < s.len() && #[trigger] survivors(s, fl, now)[j] == windowed(s[k], fl, now),
        forall|k: int| 0 <= k < s.len() && is_fresh(s[k], now, fl.cleanup_after_seconds)
            && window_filter(s[k].2, now, fl.window_seconds).len() > 0
            ==> survivors(s, fl, now).contains(#[trigger] windowed(s[k], fl, now)),
    decreases s.len(),
{
    if s.len() > 0 {
        let d = s.drop_last();
        lemma_survivors_shape(d, fl, now);
        let rest = survivors(d, fl, now);
        let all = survivors(s, fl, now);
        assert forall|j: int| 0 <= j < all.len() implies exists|k: int|
            0 <= k < s.len() && #[trigger] all[j] == windowed(s[k], fl, now) by {
            if j < rest.len() {
                assert(all[j] == rest[j]);
                let k = choose|k: int| 0 <= k < d.len() && #[trigger] rest[j] == windowed(d[k], fl, now);
                assert(d[k] == s[k]);
            } else {
                assert(all[j] == windowed(s[s.len() - 1], fl, now));
            }
        }
        assert forall|k: int| 0 <= k < s.len() && is_fresh(s[k], now, fl.cleanup_after_seconds)
            && window_filter(s[k].2, now, fl.window_seconds).len() > 0
            implies all.contains(#[trigger] windowed(s[k], fl, now)) by {
            if k < d.len() {
                assert(d[k] == s[k]);
                assert(rest.contains(windowed(d[k], fl, now)));
                let j = choose|j: int| 0 <= j < rest.len() && rest[j] == windowed(d[k], fl, now);
                assert(all[j] == rest[j]);
            } else {
                assert(all.last() == windowed(s[k], fl, now));
            }
        }
    }
}

/// How many of the command's stored timestamps are still in the window at `now`.
pub open spec fn prior_count(s: Seq<EntryView>, key: Seq<char>, fl: FailureLearning, now: u64) -> nat {
    match find_key(s, key) {
        Some(i) => window_filter(s[i].2, now, fl.window_seconds).len(),
        None => 0,
    }
}

/// Recording a failure counts it: when every stored entry was last seen before
/// `now` and at least one entry is tracked, the state after recording holds the
/// command with one more timestamp in the window than it had.
pub proof fn lemma_recorded_failure_counted(s: Seq<EntryView>, cmd: Seq<char>, fl: FailureLearning, now: u64, out: Seq<EntryView>)
    requires
        keys_distinct(s),
        keys_distinct(out),
        fl.max_tracked_commands >= 1,
        forall|i: int| 0 <= i < s.len() ==> #[trigger] s[i].3 < now,
        evicted_oldest(
            survivors(recorded(s, key_of(cmd), preview_of(cmd), now), fl, now),
            out,
            fl.max_tracked_commands,
        ),
    ensures
        find_key(out, key_of(cmd)) matches Some(j)
            && out[j].2.len() == prior_count(s, key_of(cmd), fl, now) + 1
            && out[j].3 == now,
{
    let key = key_of(cmd);
    let pv = preview_of(cmd);
    let old_ts: Seq<u64> = match find_key(s, key) { Some(i) => s[i].2, None => Seq::empty() };
    let e: EntryView = (key, pv, old_ts.push(now), now);
    let r = recorded(s, key, pv, now);
    lemma_find_key_from(s, key, 0);
    assert(r == put(s, e));
    lemma_put_distinct(s, e);
    // the recorded entry is in `r`, and it alone was seen at `now` or later
    let ke: int = match find_key(s, key) { Some(i) => i, None => s.len() as int };
    assert(r[ke] == e);
    assert forall|k: int| 0 <= k < r.len() && k != ke implies #[trigger] r[k].3 < now by {
        assert(r[k] == s[k]);
    }
    // its windowed form survives
    assert(old_ts.push(now).drop_last() == old_ts);
    let w = windowed(e, fl, now);
    assert(window_filter(old_ts.push(now), now, fl.window_seconds) == window_filter(old_ts, now, fl.window_seconds) + seq![now]);
    lemma_survivors_shape(r, fl, now);
    let sv = survivors(r, fl, now);
    assert(sv.contains(windowed(r[ke], fl, now)));
    // eviction keeps it: anything kept was seen before `now` otherwise
    if !out.contains(w) {
        assert(out.len() >= 1);
        assert(sv.contains(out[0]));
        assert(w.3 <= out[0].3);
        let j = choose|j: int| 0 <= j < sv.len() && sv[j] == out[0];
        let k = choose|k: int| 0 <= k < r.len() && #[trigger] sv[j] == windowed(r[k], fl, now);
        assert(k == ke);
        assert(false);
    }
    let j = choose|j: int| 0 <= j < out.len() && out[j] == w;
    lemma_find_key_from(out, key, 0);
    let f = find_key(out, key);
    assert(f is Some);
    assert(out[f->0].0 == key);
    assert(f->0 == j);
    assert(prior_count(s, key, fl, now) == window_filter(old_ts, now, fl.window_seconds).len());
}

/// Failure learning blocks at the threshold: under the same conditions, after
/// recording a failure the command is blocked exactly when learning is enabled
/// and its failures in the window, this one included, reach `block_threshold`.
pub proof fn lemma_blocks_at_threshold(s: Seq<EntryView>, cmd: Seq<char>, fl: FailureLearning, now: u64, out: Seq<EntryView>)
    requires
        keys_distinct(s),
        keys_distinct(out),
        fl.max_tracked_commands >= 1,
        forall|i: int| 0 <= i < s.len() ==> #[trigger] s[i].3 < now,
        evicted_oldest(
            survivors(recorded(s, key_of(cmd), preview_of(cmd), now), fl, now),
            out,
            fl.max_tracked_commands,
        ),
    ensures
        learned_message(cmd, out, fl) is Some
            <==> fl.enabled && prior_count(s, key_of(cmd), fl, now) + 1 >= fl.block_threshold,
{
    lemma_recorded_failure_counted(s, cmd, fl, now, out);
}

} // verus!
