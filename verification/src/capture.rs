//! Suggestion capture: pairs of a blocked command and the alternative its
//! rule suggested, marked accepted when the alternative is then run.
//!
//! Records are deduplicated by the trimmed `(original, suggestion)` pair; a
//! duplicate increments `count` and upgrades `accepted` from false to true.
use vstd::prelude::*;
use crate::clock::now_secs;
use crate::date::{iso8601, iso8601_text};
use crate::paths::{file_name_of, path_file_name};
use crate::rules::opt_view;
use crate::text::{owned, str_eq, trim, trimmed};

verus! {

/// One block event and what became of its suggestion.
#[derive(Debug, Clone, PartialEq)]
pub struct SuggestionRecord {
    /// ISO 8601 time of the block.
    pub ts: String,
    /// The blocked command. Part of the dedup key.
    pub original: String,
    /// The suggested alternative. Part of the dedup key.
    pub suggestion: String,
    /// The rule that fired.
    pub rule_id: String,
    /// Working directory at the time of the block.
    pub cwd: String,
    /// Repository name: the last component of `cwd`.
    pub repo: Option<String>,
    pub session_id: Option<String>,
    pub tool_name: String,
    /// Whether the suggestion was then used in the same session.
    pub accepted: bool,
    pub accepted_ts: Option<String>,
    /// Exit code of the accepted command.
    pub exit_code: Option<i64>,
    /// How many times this pair was seen.
    pub count: u32,
}

/// A fresh record at time `ts`: seen once, not accepted.
pub open spec fn fresh_record(
    r: SuggestionRecord,
    original: Seq<char>,
    suggestion: Seq<char>,
    rule_id: Seq<char>,
    cwd: Seq<char>,
    session_id: Option<Seq<char>>,
    tool_name: Seq<char>,
) -> bool {
    &&& r.original@ == original
    &&& r.suggestion@ == suggestion
    &&& r.rule_id@ == rule_id
    &&& r.cwd@ == cwd
    &&& opt_view(r.repo) == path_file_name(cwd)
    &&& opt_view(r.session_id) == session_id
    &&& r.tool_name@ == tool_name
    &&& !r.accepted
    &&& r.accepted_ts is None
    &&& r.exit_code is None
    &&& r.count == 1
}

impl SuggestionRecord {
    /// A record of a block happening at `now` (Unix seconds).
    pub fn new_at(
        original: &str,
        suggestion: &str,
        rule_id: &str,
        cwd: &str,
        session_id: Option<String>,
        tool_name: &str,
        now: u64,
    ) -> (r: Self)
        ensures
            fresh_record(r, original@, suggestion@, rule_id@, cwd@, opt_view(session_id), tool_name@),
            r.ts@ == iso8601_text(now),
    {
        SuggestionRecord {
            ts: iso8601(now),
            original: owned(original),
            suggestion: owned(suggestion),
            rule_id: owned(rule_id),
            cwd: owned(cwd),
            repo: file_name_of(cwd),
            session_id,
            tool_name: owned(tool_name),
            accepted: false,
            accepted_ts: None,
            exit_code: None,
            count: 1,
        }
    }

    /// A record of a block happening now.
    pub fn new(
        original: &str,
        suggestion: &str,
        rule_id: &str,
        cwd: &str,
        session_id: Option<String>,
        tool_name: &str,
    ) -> (r: Self)
        ensures
            fresh_record(r, original@, suggestion@, rule_id@, cwd@, opt_view(session_id), tool_name@),
            exists|t: u64| r.ts@ == iso8601_text(t),
    {
        Self::new_at(original, suggestion, rule_id, cwd, session_id, tool_name, now_secs())
    }
}

fn clone_opt(o: &Option<String>) -> (r: Option<String>)
    ensures
        r == *o,
{
    match o {
        Some(s) => Some(s.clone()),
        None => None,
    }
}

/// A copy of a record, field for field.
pub fn copy_record(r: &SuggestionRecord) -> (c: SuggestionRecord)
    ensures
        c == *r,
{
    SuggestionRecord {
        ts: r.ts.clone(),
        original: r.original.clone(),
        suggestion: r.suggestion.clone(),
        rule_id: r.rule_id.clone(),
        cwd: r.cwd.clone(),
        repo: clone_opt(&r.repo),
        session_id: clone_opt(&r.session_id),
        tool_name: r.tool_name.clone(),
        accepted: r.accepted,
        accepted_ts: clone_opt(&r.accepted_ts),
        exit_code: r.exit_code,
        count: r.count,
    }
}

/// Dedup key: the trimmed original and suggestion.
#[derive(Debug, Clone, PartialEq, Eq, Hash)]
pub struct DedupeKey {
    pub original: String,
    pub suggestion: String,
}

impl DedupeKey {
    pub fn from_record(r: &SuggestionRecord) -> (k: Self)
        ensures
            k.original@ == trim(r.original@),
            k.suggestion@ == trim(r.suggestion@),
    {
        DedupeKey { original: trimmed(r.original.as_str()), suggestion: trimmed(r.suggestion.as_str()) }
    }

    pub fn from_parts(original: &str, suggestion: &str) -> (k: Self)
        ensures
            k.original@ == trim(original@),
            k.suggestion@ == trim(suggestion@),
    {
        DedupeKey { original: trimmed(original), suggestion: trimmed(suggestion) }
    }

    /// Whether two keys are equal.
    pub fn same(&self, other: &DedupeKey) -> (b: bool)
        ensures
            b == (self.original@ == other.original@ && self.suggestion@ == other.suggestion@),
    {
        str_eq(self.original.as_str(), other.original.as_str()) && str_eq(
            self.suggestion.as_str(),
            other.suggestion.as_str(),
        )
    }
}

/// Whether two records share the dedup key.
pub open spec fn same_key(a: SuggestionRecord, b: SuggestionRecord) -> bool {
    trim(a.original@) == trim(b.original@) && trim(a.suggestion@) == trim(b.suggestion@)
}

/// Whether marking `command` as run in `session` accepts record `r`: it is
/// still pending, from that session, and its suggestion equals the command
/// once both are trimmed.
pub open spec fn accepts(r: SuggestionRecord, session: Seq<char>, command: Seq<char>) -> bool {
    &&& !r.accepted
    &&& r.session_id matches Some(s) && s@ == session
    &&& trim(r.suggestion@) == trim(command)
}

/// `new` is `old` accepted at `ts` with `exit_code`, all else kept.
pub open spec fn accepted_as(new: SuggestionRecord, old: SuggestionRecord, ts: Seq<char>, exit_code: i64) -> bool {
    &&& new.accepted
    &&& opt_view(new.accepted_ts) == Some(ts)
    &&& new.exit_code == Some(exit_code)
    &&& new.ts == old.ts && new.original == old.original && new.suggestion == old.suggestion
    &&& new.rule_id == old.rule_id && new.cwd == old.cwd && new.repo == old.repo
    &&& new.session_id == old.session_id && new.tool_name == old.tool_name && new.count == old.count
}

/// The records after marking `command` run in `session` at `ts`.
pub open spec fn marked(new: Seq<SuggestionRecord>, old: Seq<SuggestionRecord>, session: Seq<char>, command: Seq<char>, ts: Seq<char>, exit_code: i64) -> bool {
    &&& new.len() == old.len()
    &&& forall|i: int| 0 <= i < old.len() ==> if accepts(old[i], session, command) {
        accepted_as(#[trigger] new[i], old[i], ts, exit_code)
    } else {
        new[i] == old[i]
    }
}

/// Mark every pending record of `session_id` whose suggestion is `command`
/// accepted at `ts`; whether any was.
pub fn accept_matching(records: &mut Vec<SuggestionRecord>, session_id: &str, command: &str, exit_code: i64, ts: &str) -> (changed: bool)
    ensures
        marked(final(records)@, old(records)@, session_id@, command@, ts@, exit_code),
        changed == exists|i: int| 0 <= i < old(records)@.len() && accepts(#[trigger] old(records)@[i], session_id@, command@),
{
    let ghost orig = records@;
    let cmd = trimmed(command);
    let mut changed = false;
    let mut i: usize = 0;
    while i < records.len()
        invariant
            records@.len() == orig.len(),
            i <= orig.len(),
            cmd@ == trim(command@),
            forall|j: int| 0 <= j < i ==> if accepts(orig[j], session_id@, command@) {
                accepted_as(#[trigger] records@[j], orig[j], ts@, exit_code)
            } else {
                records@[j] == orig[j]
            },
            forall|j: int| i <= j < orig.len() ==> #[trigger] records@[j] == orig[j],
            changed == exists|j: int| 0 <= j < i && accepts(#[trigger] orig[j], session_id@, command@),
        decreases records.len() - i,
    {
        let r = &records[i];
        let same_session = match &r.session_id {
            Some(s) => str_eq(s.as_str(), session_id),
            None => false,
        };
        let sugg = trimmed(r.suggestion.as_str());
        if !r.accepted && same_session && str_eq(sugg.as_str(), cmd.as_str()) {
            let mut c = copy_record(r);
            c.accepted = true;
            c.accepted_ts = Some(owned(ts));
            c.exit_code = Some(exit_code);
            records.set(i, c);
            changed = true;
        }
        i += 1;
    }
    changed
}

/// Interface: where suggestion records go.
pub trait CaptureStore {
    fn record(&mut self, record: SuggestionRecord);
    fn mark_accepted(&mut self, session_id: &str, command: &str, exit_code: i64);
}

/// In-memory capture store for tests.
pub struct InMemoryCaptureStore {
    inner: Vec<SuggestionRecord>,
}

impl View for InMemoryCaptureStore {
    type V = Seq<SuggestionRecord>;

    closed spec fn view(&self) -> Seq<SuggestionRecord> {
        self.inner@
    }
}

impl InMemoryCaptureStore {
    pub fn new() -> (s: Self)
        ensures
            s@.len() == 0,
    {
        InMemoryCaptureStore { inner: Vec::new() }
    }

    /// A copy of the records, in the order they came.
    pub fn records(&self) -> (r: Vec<SuggestionRecord>)
        ensures
            r@ == self@,
    {
        let mut out: Vec<SuggestionRecord> = Vec::new();
        let mut i: usize = 0;
        while i < self.inner.len()
            invariant
                i <= self.inner@.len(),
                out@ == self.inner@.take(i as int),
            decreases self.inner.len() - i,
        {
            out.push(copy_record(&self.inner[i]));
            proof { assert(self.inner@.take(i + 1) == self.inner@.take(i as int).push(self.inner@[i as int])); }
            i += 1;
        }
        proof { assert(self.inner@.take(self.inner@.len() as int) == self.inner@); }
        out
    }
}

impl Default for InMemoryCaptureStore {
    fn default() -> (s: Self)
        ensures
            s@.len() == 0,
    {
        Self::new()
    }
}

impl CaptureStore for InMemoryCaptureStore {
    /// Append the record (no deduplication).
    fn record(&mut self, record: SuggestionRecord)
        ensures
            final(self)@ == old(self)@.push(record),
    {
        self.inner.push(record);
    }

    /// Accept the matching pending records, stamped with the current time.
    fn mark_accepted(&mut self, session_id: &str, command: &str, exit_code: i64)
        ensures
            exists|t: u64| marked(final(self)@, old(self)@, session_id@, command@, iso8601_text(t), exit_code),
    {
        let ts = iso8601(now_secs());
        let mut records = Vec::new();
        std::mem::swap(&mut records, &mut self.inner);
        accept_matching(&mut records, session_id, command, exit_code, ts.as_str());
        self.inner = records;
    }
}

/// The index of the first record sharing `record`'s dedup key.
pub open spec fn first_same_key(records: Seq<SuggestionRecord>, record: SuggestionRecord, k: int) -> Option<int>
    decreases records.len() - k,
{
    if k < 0 || k >= records.len() {
        None
    } else if same_key(records[k], record) {
        Some(k)
    } else {
        first_same_key(records, record, k + 1)
    }
}

/// `new` is `old` seen once more, taking `record`'s acceptance when it brings
/// one and `old` had none.
pub open spec fn merged(new: SuggestionRecord, old: SuggestionRecord, record: SuggestionRecord) -> bool {
    &&& new.count == old.count + 1
    &&& new.ts == old.ts && new.original == old.original && new.suggestion == old.suggestion
    &&& new.rule_id == old.rule_id && new.cwd == old.cwd && new.repo == old.repo
    &&& new.session_id == old.session_id && new.tool_name == old.tool_name
    &&& if record.accepted && !old.accepted {
        new.accepted && new.accepted_ts == record.accepted_ts && new.exit_code == record.exit_code
    } else {
        new.accepted == old.accepted && new.accepted_ts == old.accepted_ts && new.exit_code == old.exit_code
    }
}

/// The position of the first of `records` with the same dedup key as `record`.
pub fn same_key_index(records: &Vec<SuggestionRecord>, record: &SuggestionRecord) -> (r: Option<usize>)
    ensures
        match r {
            Some(k) => first_same_key(records@, *record, 0) == Some(k as int),
            None => first_same_key(records@, *record, 0) is None,
        },
{
    let key = DedupeKey::from_record(record);
    let mut i: usize = 0;
    while i < records.len()
        invariant
            i <= records@.len(),
            key.original@ == trim(record.original@),
            key.suggestion@ == trim(record.suggestion@),
            first_same_key(records@, *record, 0) == first_same_key(records@, *record, i as int),
        decreases records.len() - i,
    {
        let k = DedupeKey::from_record(&records[i]);
        if k.same(&key) {
            return Some(i);
        }
        i += 1;
    }
    None
}

/// The JSON-lines file of suggestion records.
pub struct SuggestionStore {
    pub path: std::path::PathBuf,
}

impl SuggestionStore {
    pub fn new(path: std::path::PathBuf) -> (s: Self)
        ensures
            s.path == path,
    {
        SuggestionStore { path }
    }

    /// Record a block event into the stored `records`: a new pair is appended
    /// (the answer is `false`: append it to the file); a known pair's first
    /// record is counted once more (the answer is `true`: rewrite the file).
    pub fn record(&self, records: &mut Vec<SuggestionRecord>, record: SuggestionRecord) -> (rewrite: bool)
        requires
            first_same_key(old(records)@, record, 0) matches Some(k) ==> old(records)@[k].count < u32::MAX,
        ensures
            record_step(old(records)@, final(records)@, record),
            rewrite <==> first_same_key(old(records)@, record, 0) is Some,
    {
        let key = DedupeKey::from_record(&record);
        let mut i: usize = 0;
        while i < records.len()
            invariant
                records@ == old(records)@,
                first_same_key(old(records)@, record, 0) matches Some(k) ==> old(records)@[k].count < u32::MAX,
                i <= records@.len(),
                key.original@ == trim(record.original@),
                key.suggestion@ == trim(record.suggestion@),
                first_same_key(records@, record, 0) == first_same_key(records@, record, i as int),
            decreases records.len() - i,
        {
            let k = DedupeKey::from_record(&records[i]);
            if k.same(&key) {
                let mut c = copy_record(&records[i]);
                c.count = c.count + 1;
                if record.accepted && !c.accepted {
                    c.accepted = true;
                    c.accepted_ts = clone_opt(&record.accepted_ts);
                    c.exit_code = record.exit_code;
                }
                records.set(i, c);
                return true;
            }
            i += 1;
        }
        records.push(record);
        false
    }

    /// Accept the pending records of `session_id` whose suggestion is
    /// `command`, stamped `ts`; whether any changed (then the file is rewritten).
    pub fn mark_accepted(&self, records: &mut Vec<SuggestionRecord>, session_id: &str, command: &str, exit_code: i64, ts: &str) -> (changed: bool)
        ensures
            marked(final(records)@, old(records)@, session_id@, command@, ts@, exit_code),
            changed == exists|i: int| 0 <= i < old(records)@.len() && accepts(#[trigger] old(records)@[i], session_id@, command@),
    {
        accept_matching(records, session_id, command, exit_code, ts)
    }
}


proof fn lemma_first_same_key_push(records: Seq<SuggestionRecord>, record: SuggestionRecord, k: int)
    requires
        0 <= k <= records.len(),
        first_same_key(records, record, k) is None,
    ensures
        first_same_key(records.push(record), record, k) == Some(records.len() as int),
    decreases records.len() - k,
{
    let r2 = records.push(record);
    if k < records.len() {
        assert(r2[k] == records[k]);
        lemma_first_same_key_push(records, record, k + 1);
    } else {
        assert(r2[k] == record);
    }
}

/// Deduplication: recording a pair the records do not hold appends it, and
/// recording it again finds that record, so the pair is held once.
pub proof fn lemma_second_record_finds_first(records: Seq<SuggestionRecord>, record: SuggestionRecord)
    requires
        first_same_key(records, record, 0) is None,
    ensures
        first_same_key(records.push(record), record, 0) == Some(records.len() as int),
{
    lemma_first_same_key_push(records, record, 0);
}


/// No two records share a dedup key.
pub open spec fn pairs_distinct(s: Seq<SuggestionRecord>) -> bool {
    forall|i: int, j: int| 0 <= i < s.len() && 0 <= j < s.len() && i != j ==> !same_key(#[trigger] s[i], #[trigger] s[j])
}

/// What `SuggestionStore::record` makes of `old` with `record`, as its contract states.
pub open spec fn record_step(old: Seq<SuggestionRecord>, new: Seq<SuggestionRecord>, record: SuggestionRecord) -> bool {
    match first_same_key(old, record, 0) {
        Some(k) => new.len() == old.len() && merged(new[k], old[k], record)
            && forall|j: int| 0 <= j < old.len() && j != k ==> #[trigger] new[j] == old[j],
        None => new == old.push(record),
    }
}

proof fn lemma_first_same_key_from(records: Seq<SuggestionRecord>, record: SuggestionRecord, k: int)
    requires
        0 <= k,
    ensures
        first_same_key(records, record, k) matches Some(i) ==> k <= i < records.len() && same_key(records[i], record),
        first_same_key(records, record, k) is None ==> forall|j: int| k <= j < records.len() ==> !same_key(#[trigger] records[j], record),
    decreases records.len() - k,
{
    if k < records.len() {
        lemma_first_same_key_from(records, record, k + 1);
    }
}

/// A repeated pair never adds a second record: recording keeps the records'
/// dedup keys distinct, adding at most one record, and none when the pair
/// is already held.
pub proof fn lemma_record_keeps_pairs_distinct(old: Seq<SuggestionRecord>, new: Seq<SuggestionRecord>, record: SuggestionRecord)
    requires
        pairs_distinct(old),
        record_step(old, new, record),
    ensures
        pairs_distinct(new),
        new.len() <= old.len() + 1,
        first_same_key(old, record, 0) is Some ==> new.len() == old.len(),
{
    lemma_first_same_key_from(old, record, 0);
    match first_same_key(old, record, 0) {
        Some(k) => {
            assert forall|i: int, j: int| 0 <= i < new.len() && 0 <= j < new.len() && i != j implies !same_key(#[trigger] new[i], #[trigger] new[j]) by {
                if i != k && j != k {
                    assert(new[i] == old[i] && new[j] == old[j]);
                } else if i == k {
                    assert(new[j] == old[j]);
                    assert(!same_key(old[k], old[j]));
                } else {
                    assert(new[i] == old[i]);
                    assert(!same_key(old[i], old[k]));
                }
            }
        },
        None => {
            assert forall|i: int, j: int| 0 <= i < new.len() && 0 <= j < new.len() && i != j implies !same_key(#[trigger] new[i], #[trigger] new[j]) by {
                if i < old.len() && j < old.len() {
                    assert(new[i] == old[i] && new[j] == old[j]);
                } else if i == old.len() {
                    assert(new[i] == record && new[j] == old[j]);
                    assert(!same_key(old[j], record));
                } else {
                    assert(new[j] == record && new[i] == old[i]);
                    assert(!same_key(old[i], record));
                }
            }
        },
    }
}

} // verus!
