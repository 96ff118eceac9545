//! Heatmap of rule firings by hour-of-day and day-of-week.
use vstd::prelude::*;
use crate::text::{decimal, push_char, push_decimal_padded, push_str, zero_pad};

verus! {

/// Block counts per `(day, hour)` cell; a cell appears at most once.
/// day: 0 = Monday … 6 = Sunday; hour: 0–23.
#[derive(Debug)]
pub struct HeatCells {
    entries: Vec<(u8, u8, u64)>,
}

pub open spec fn cells_distinct(s: Seq<(u8, u8, u64)>) -> bool {
    forall|i: int, j: int|
        0 <= i < s.len() && 0 <= j < s.len() && i != j ==> !(s[i].0 == s[j].0 && s[i].1 == s[j].1)
}

pub open spec fn cell_key(c: (u8, u8, u64)) -> (u8, u8) {
    (c.0, c.1)
}

impl HeatCells {
    #[verifier::type_invariant]
    spec fn inv(self) -> bool {
        cells_distinct(self.entries@)
    }
}

proof fn lemma_same_keys(a: Seq<(u8, u8, u64)>, b: Seq<(u8, u8, u64)>, d: u8, h: u8, k: int)
    requires
        a.len() == b.len(),
        forall|i: int| 0 <= i < a.len() ==> a[i].0 == b[i].0 && a[i].1 == b[i].1,
    ensures
        find_cell_from(a, d, h, k) == find_cell_from(b, d, h, k),
    decreases a.len() - k,
{
    if 0 <= k < a.len() {
        lemma_same_keys(a, b, d, h, k + 1);
    }
}

proof fn lemma_push_other(a: Seq<(u8, u8, u64)>, x: (u8, u8, u64), d: u8, h: u8, k: int)
    requires
        !(x.0 == d && x.1 == h),
    ensures
        find_cell_from(a.push(x), d, h, k) == find_cell_from(a, d, h, k),
    decreases a.len() + 1 - k,
{
    if 0 <= k <= a.len() {
        lemma_push_other(a, x, d, h, k + 1);
    }
}

proof fn lemma_push_new(a: Seq<(u8, u8, u64)>, x: (u8, u8, u64), k: int)
    requires
        0 <= k <= a.len(),
        forall|j: int| k <= j < a.len() ==> !(a[j].0 == x.0 && a[j].1 == x.1),
    ensures
        find_cell_from(a.push(x), x.0, x.1, k) == Some(a.len() as int),
    decreases a.len() - k,
{
    if k < a.len() {
        lemma_push_new(a, x, k + 1);
    }
}

proof fn lemma_find_distinct(s: Seq<(u8, u8, u64)>, j: int)
    requires
        cells_distinct(s),
        0 <= j < s.len(),
    ensures
        find_cell_from(s, s[j].0, s[j].1, 0) == Some(j),
{
    lemma_find_cell_from(s, s[j].0, s[j].1, 0);
}

pub open spec fn find_cell_from(s: Seq<(u8, u8, u64)>, d: u8, h: u8, k: int) -> Option<int>
    decreases s.len() - k,
{
    if k < 0 || k >= s.len() {
        None
    } else if s[k].0 == d && s[k].1 == h {
        Some(k)
    } else {
        find_cell_from(s, d, h, k + 1)
    }
}

proof fn lemma_find_cell_from(s: Seq<(u8, u8, u64)>, d: u8, h: u8, k: int)
    requires
        0 <= k,
    ensures
        find_cell_from(s, d, h, k) matches Some(i) ==> k <= i < s.len() && s[i].0 == d && s[i].1 == h,
        find_cell_from(s, d, h, k) is None ==> forall|j: int| k <= j < s.len() ==> !(s[j].0 == d && s[j].1 == h),
    decreases s.len() - k,
{
    if k < s.len() {
        lemma_find_cell_from(s, d, h, k + 1);
    }
}

impl Clone for HeatCells {
    /// A copy with the same cells.
    fn clone(&self) -> (c: Self)
        ensures
            c@ == self@,
    {
        proof { use_type_invariant(self); }
        let mut entries: Vec<(u8, u8, u64)> = Vec::new();
        let mut i: usize = 0;
        while i < self.entries.len()
            invariant
                i <= self.entries@.len(),
                entries@ == self.entries@.take(i as int),
            decreases self.entries.len() - i,
        {
            entries.push(self.entries[i]);
            i += 1;
            proof { assert(entries@ =~= self.entries@.take(i as int)); }
        }
        proof { assert(entries@ =~= self.entries@); }
        HeatCells { entries }
    }
}

impl View for HeatCells {
    type V = Map<(u8, u8), u64>;

    closed spec fn view(&self) -> Map<(u8, u8), u64> {
        Map::new(
            |k: (u8, u8)| find_cell_from(self.entries@, k.0, k.1, 0) is Some,
            |k: (u8, u8)| self.entries@[find_cell_from(self.entries@, k.0, k.1, 0).unwrap()].2,
        )
    }
}

impl HeatCells {
    pub fn new() -> (c: Self)
        ensures
            c@ == Map::<(u8, u8), u64>::empty(),
    {
        let c = HeatCells { entries: Vec::new() };
        proof { assert(c@ =~= Map::<(u8, u8), u64>::empty()); }
        c
    }

    fn position(&self, day: u8, hour: u8) -> (r: Option<usize>)
        ensures
            match r {
                Some(i) => find_cell_from(self.entries@, day, hour, 0) == Some(i as int) && i < self.entries@.len(),
                None => find_cell_from(self.entries@, day, hour, 0) is None,
            },
    {
        proof { lemma_find_cell_from(self.entries@, day, hour, 0); }
        let mut i: usize = 0;
        while i < self.entries.len()
            invariant
                i <= self.entries@.len(),
                find_cell_from(self.entries@, day, hour, 0) == find_cell_from(self.entries@, day, hour, i as int),
            decreases self.entries.len() - i,
        {
            if self.entries[i].0 == day && self.entries[i].1 == hour {
                return Some(i);
            }
            i += 1;
        }
        None
    }

    /// The count of the `(day, hour)` cell, if it has been set.
    pub fn get(&self, day: u8, hour: u8) -> (r: Option<u64>)
        ensures
            r == (if self@.contains_key((day, hour)) { Some(self@[(day, hour)]) } else { None }),
    {
        match self.position(day, hour) {
            Some(i) => Some(self.entries[i].2),
            None => None,
        }
    }

    /// Sets the count of the `(day, hour)` cell.
    pub fn insert(&mut self, day: u8, hour: u8, count: u64)
        ensures
            final(self)@ == old(self)@.insert((day, hour), count),
    {
        proof { use_type_invariant(&*self); }
        let ghost before = self.entries@;
        proof { lemma_find_cell_from(before, day, hour, 0); }
        match self.position(day, hour) {
            Some(i) => {
                let mut entries: Vec<(u8, u8, u64)> = Vec::new();
                std::mem::swap(&mut entries, &mut self.entries);
                entries.set(i, (day, hour, count));
                proof {
                    assert(cells_distinct(entries@)) by {
                        assert forall|a: int, b: int| 0 <= a < entries@.len() && 0 <= b < entries@.len() && a != b implies !(entries@[a].0 == entries@[b].0 && entries@[a].1 == entries@[b].1) by {
                            assert(entries@[a].0 == before[a].0 && entries@[a].1 == before[a].1);
                            assert(entries@[b].0 == before[b].0 && entries@[b].1 == before[b].1);
                        }
                    }
                }
                self.entries = entries;
                proof {
                    let after = self.entries@;
                    assert(after == before.update(i as int, (day, hour, count)));
                    assert forall|k: (u8, u8)| #![auto] find_cell_from(after, k.0, k.1, 0) == find_cell_from(before, k.0, k.1, 0) by {
                        lemma_same_keys(before, after, k.0, k.1, 0);
                    }
                    let m = old(self)@.insert((day, hour), count);
                    assert forall|k: (u8, u8)| #![auto] self@.contains_key(k) == m.contains_key(k) && (self@.contains_key(k) ==> self@[k] == m[k]) by {
                        lemma_same_keys(before, after, k.0, k.1, 0);
                        lemma_find_cell_from(before, k.0, k.1, 0);
                        if k != (day, hour) && self@.contains_key(k) {
                            let j = find_cell_from(before, k.0, k.1, 0).unwrap();
                            assert(j != i);
                            assert(after[j] == before[j]);
                        }
                    }
                    assert(self@ =~= m);
                }
            },
            None => {
                let mut entries: Vec<(u8, u8, u64)> = Vec::new();
                std::mem::swap(&mut entries, &mut self.entries);
                entries.push((day, hour, count));
                self.entries = entries;
                proof {
                    let after = self.entries@;
                    assert forall|k: (u8, u8)| #![auto] k != (day, hour) implies find_cell_from(after, k.0, k.1, 0) == find_cell_from(before, k.0, k.1, 0) by {
                        lemma_push_other(before, (day, hour, count), k.0, k.1, 0);
                    }
                    lemma_push_new(before, (day, hour, count), 0);
                    let m = old(self)@.insert((day, hour), count);
                    assert forall|k: (u8, u8)| #![auto] self@.contains_key(k) == m.contains_key(k) && (self@.contains_key(k) ==> self@[k] == m[k]) by {
                        if k != (day, hour) {
                            lemma_push_other(before, (day, hour, count), k.0, k.1, 0);
                            lemma_find_cell_from(before, k.0, k.1, 0);
                            if self@.contains_key(k) {
                                let j = find_cell_from(before, k.0, k.1, 0).unwrap();
                                assert(after[j] == before[j]);
                            }
                        }
                    }
                    assert(self@ =~= m);
                }
            },
        }
    }

    proof fn lemma_entries_map(&self)
        requires
            cells_distinct(self.entries@),
        ensures
            forall|j: int| 0 <= j < self.entries@.len() ==> self@.contains_key(cell_key(#[trigger] self.entries@[j])) && self@[cell_key(self.entries@[j])] == self.entries@[j].2,
            forall|k: (u8, u8)| self@.contains_key(k) ==> exists|j: int| 0 <= j < self.entries@.len() && cell_key(#[trigger] self.entries@[j]) == k && self@[k] == self.entries@[j].2,
            self@.dom() == self.entries@.map_values(|c: (u8, u8, u64)| cell_key(c)).to_set(),
    {
        let s = self.entries@;
        assert forall|j: int| 0 <= j < s.len() implies self@.contains_key(cell_key(#[trigger] s[j])) && self@[cell_key(s[j])] == s[j].2 by {
            lemma_find_distinct(s, j);
        }
        assert forall|k: (u8, u8)| self@.contains_key(k) implies exists|j: int| 0 <= j < s.len() && cell_key(#[trigger] s[j]) == k && self@[k] == s[j].2 by {
            lemma_find_cell_from(s, k.0, k.1, 0);
            let j = find_cell_from(s, k.0, k.1, 0).unwrap();
            assert(cell_key(s[j]) == k);
        }
        let keys = s.map_values(|c: (u8, u8, u64)| cell_key(c));
        assert forall|k: (u8, u8)| self@.dom().contains(k) <==> keys.to_set().contains(k) by {
            if self@.dom().contains(k) {
                lemma_find_cell_from(s, k.0, k.1, 0);
                let j = find_cell_from(s, k.0, k.1, 0).unwrap();
                assert(keys[j] == k);
            }
            if keys.to_set().contains(k) {
                let j = choose|j: int| 0 <= j < keys.len() && keys[j] == k;
                lemma_find_distinct(s, j);
            }
        }
        assert(self@.dom() =~= keys.to_set());
    }

    /// Number of cells set.
    pub fn len(&self) -> (n: usize)
        ensures
            n == self@.len(),
    {
        proof {
            use_type_invariant(self);
            self.lemma_entries_map();
            let s = self.entries@;
            let keys = s.map_values(|c: (u8, u8, u64)| cell_key(c));
            assert(keys.no_duplicates()) by {
                assert forall|i: int, j: int| 0 <= i < keys.len() && 0 <= j < keys.len() && i != j implies keys[i] != keys[j] by {
                    assert(keys[i] == cell_key(s[i]) && keys[j] == cell_key(s[j]));
                }
            }
            keys.unique_seq_to_set();
        }
        self.entries.len()
    }

    pub fn is_empty(&self) -> (b: bool)
        ensures
            b == (self@.len() == 0),
    {
        self.len() == 0
    }

    /// The largest count of any cell, or 0.
    pub fn max_value(&self) -> (m: u64)
        ensures
            forall|k: (u8, u8)| self@.contains_key(k) ==> self@[k] <= m,
            m == 0 || exists|k: (u8, u8)| self@.contains_key(k) && self@[k] == m,
    {
        let mut m: u64 = 0;
        let mut i: usize = 0;
        while i < self.entries.len()
            invariant
                i <= self.entries@.len(),
                forall|j: int| 0 <= j < i ==> #[trigger] self.entries@[j].2 <= m,
                m == 0 || exists|j: int| 0 <= j < i && self.entries@[j].2 == m,
            decreases self.entries.len() - i,
        {
            if self.entries[i].2 > m {
                m = self.entries[i].2;
            }
            i += 1;
        }
        proof {
            use_type_invariant(self);
            self.lemma_entries_map();
            if m != 0 {
                let j = choose|j: int| 0 <= j < self.entries@.len() && self.entries@[j].2 == m;
                assert(self@.contains_key(cell_key(self.entries@[j])));
            }
        }
        m
    }
}

} // verus!

verus! {

#[derive(Debug, Clone)]
pub struct HeatMap {
    /// (day, hour) → block count
    pub cells: HeatCells,
    pub total_blocks: u64,
}

/// Day of week (0 = Monday; the epoch was a Thursday) and hour of day of a timestamp.
pub open spec fn day_hour_of(unix_secs: u64) -> (u8, u8) {
    (((unix_secs / 86400 + 3) % 7) as u8, ((unix_secs % 86400) / 3600) as u8)
}

/// Convert a Unix timestamp to (day_of_week, hour_of_day); day 0 = Monday.
pub fn day_hour(unix_secs: u64) -> (r: (u8, u8))
    ensures
        r == day_hour_of(unix_secs),
        r.0 < 7,
        r.1 < 24,
{
    let days = unix_secs / 86400;
    let hour = ((unix_secs % 86400) / 3600) as u8;
    let day = ((days + 3) % 7) as u8;
    (day, hour)
}

/// The cell counts after one more block at `ts`.
pub open spec fn bump(m: Map<(u8, u8), u64>, ts: u64) -> Map<(u8, u8), u64> {
    let k = day_hour_of(ts);
    m.insert(k, if m.contains_key(k) { (m[k] + 1) as u64 } else { 1 })
}

/// Cell counts of a list of firing timestamps.
pub open spec fn tally_firings(f: Seq<(String, u64)>) -> Map<(u8, u8), u64>
    decreases f.len(),
{
    if f.len() == 0 {
        Map::empty()
    } else {
        bump(tally_firings(f.drop_last()), f.last().1)
    }
}

/// The shade of a cell: its count scaled to 0..=4 against the maximum.
pub open spec fn glyph(count: u64, max: u64) -> char {
    let intensity: int = (count * 4) as int / max as int;
    if intensity == 0 {
        ' '
    } else if intensity == 1 {
        '░'
    } else if intensity == 2 {
        '▒'
    } else if intensity == 3 {
        '▓'
    } else {
        '█'
    }
}

pub open spec fn day_name(d: int) -> Seq<char> {
    if d == 0 {
        "Mon"@
    } else if d == 1 {
        "Tue"@
    } else if d == 2 {
        "Wed"@
    } else if d == 3 {
        "Thu"@
    } else if d == 4 {
        "Fri"@
    } else if d == 5 {
        "Sat"@
    } else {
        "Sun"@
    }
}

pub open spec fn header_cols(h: nat) -> Seq<char>
    decreases h,
{
    if h == 0 {
        seq![]
    } else {
        header_cols((h - 1) as nat) + zero_pad(decimal((h - 1) as nat), 2) + seq![' ']
    }
}

pub open spec fn cell_count(m: Map<(u8, u8), u64>, d: u8, h: u8) -> u64 {
    if m.contains_key((d, h)) { m[(d, h)] } else { 0 }
}

pub open spec fn row_cols(m: Map<(u8, u8), u64>, max: u64, d: u8, h: nat) -> Seq<char>
    decreases h,
{
    if h == 0 {
        seq![]
    } else {
        row_cols(m, max, d, (h - 1) as nat) + seq![glyph(cell_count(m, d, (h - 1) as u8), max), ' ', ' ']
    }
}

pub open spec fn rows(m: Map<(u8, u8), u64>, max: u64, d: nat) -> Seq<char>
    decreases d,
{
    if d == 0 {
        seq![]
    } else {
        rows(m, max, (d - 1) as nat) + day_name(d - 1) + seq![' '] + row_cols(m, max, (d - 1) as u8, 24) + seq!['\n']
    }
}

/// The 7 × 24 grid: a header of hour labels, then one row per day.
pub open spec fn grid(m: Map<(u8, u8), u64>, max: u64) -> Seq<char> {
    "     "@ + header_cols(24) + seq!['\n'] + rows(m, max, 7)
}

impl Default for HeatMap {
    /// An empty heatmap, as `new` gives.
    fn default() -> (h: Self)
        ensures
            h.cells@ == Map::<(u8, u8), u64>::empty(),
            h.total_blocks == 0,
    {
        HeatMap::new()
    }
}

impl HeatMap {
    pub fn new() -> (h: Self)
        ensures
            h.cells@ == Map::<(u8, u8), u64>::empty(),
            h.total_blocks == 0,
    {
        HeatMap { cells: HeatCells::new(), total_blocks: 0 }
    }

    /// Record one block at the given Unix timestamp (seconds).
    pub fn record(&mut self, unix_secs: u64)
        requires
            old(self).total_blocks < u64::MAX,
            old(self).cells@.contains_key(day_hour_of(unix_secs)) ==> old(self).cells@[day_hour_of(unix_secs)] < u64::MAX,
        ensures
            final(self).cells@ == bump(old(self).cells@, unix_secs),
            final(self).total_blocks == old(self).total_blocks + 1,
    {
        let (day, hour) = day_hour(unix_secs);
        let next = match self.cells.get(day, hour) {
            Some(c) => c + 1,
            None => 1,
        };
        self.cells.insert(day, hour, next);
        self.total_blocks = self.total_blocks + 1;
    }

    /// The maximum cell value (for normalisation), 0 when there are none.
    pub fn max_cell(&self) -> (m: u64)
        ensures
            forall|k: (u8, u8)| self.cells@.contains_key(k) ==> self.cells@[k] <= m,
            m == 0 || exists|k: (u8, u8)| self.cells@.contains_key(k) && self.cells@[k] == m,
    {
        self.cells.max_value()
    }

    /// Render as a compact text grid (7 rows × 24 columns) shaded by intensity.
    pub fn render(&self) -> (s: String)
        requires
            forall|k: (u8, u8)| self.cells@.contains_key(k) ==> self.cells@[k] <= u64::MAX / 4,
        ensures
            exists|max: u64|
                max >= 1 && (forall|k: (u8, u8)| self.cells@.contains_key(k) ==> self.cells@[k] <= max)
                    && (max == 1 || exists|k: (u8, u8)| self.cells@.contains_key(k) && self.cells@[k] == max)
                    && s@ == #[trigger] grid(self.cells@, max),
    {
        let mc = self.max_cell();
        let max = if mc >= 1 { mc } else { 1 };
        let mut out = owned_spaces();
        let mut h: u8 = 0;
        while h < 24
            invariant
                h <= 24,
                out@ == "     "@ + header_cols(h as nat),
            decreases 24 - h,
        {
            push_decimal_padded(&mut out, h as u64, 2);
            push_char(&mut out, ' ');
            h += 1;
        }
        push_char(&mut out, '\n');
        let ghost head = out@;
        let mut day: u8 = 0;
        while day < 7
            invariant
                day <= 7,
                max >= 1,
                forall|k: (u8, u8)| self.cells@.contains_key(k) ==> self.cells@[k] <= max,
                forall|k: (u8, u8)| self.cells@.contains_key(k) ==> self.cells@[k] <= u64::MAX / 4,
                out@ == head + rows(self.cells@, max, day as nat),
            decreases 7 - day,
        {
            let name = day_label(day);
            push_str(&mut out, name);
            push_char(&mut out, ' ');
            let ghost row_start = out@;
            let mut hour: u8 = 0;
            while hour < 24
                invariant
                    hour <= 24,
                    day < 7,
                    max >= 1,
                    forall|k: (u8, u8)| self.cells@.contains_key(k) ==> self.cells@[k] <= u64::MAX / 4,
                    out@ == row_start + row_cols(self.cells@, max, day, hour as nat),
                decreases 24 - hour,
            {
                let count = match self.cells.get(day, hour) {
                    Some(c) => c,
                    None => 0,
                };
                let intensity = count * 4 / max;
                let ch = if intensity == 0 {
                    ' '
                } else if intensity == 1 {
                    '░'
                } else if intensity == 2 {
                    '▒'
                } else if intensity == 3 {
                    '▓'
                } else {
                    '█'
                };
                push_char(&mut out, ch);
                push_char(&mut out, ' ');
                push_char(&mut out, ' ');
                proof {
                    assert(ch == glyph(cell_count(self.cells@, day, hour), max));
                    assert(row_cols(self.cells@, max, day, (hour + 1) as nat) == row_cols(self.cells@, max, day, hour as nat) + seq![ch, ' ', ' ']);
                }
                hour += 1;
            }
            push_char(&mut out, '\n');
            day += 1;
        }
        proof {
            assert(out@ == grid(self.cells@, max));
        }
        out
    }
}

fn owned_spaces() -> (s: String)
    ensures
        s@ == "     "@ + header_cols(0),
{
    let s = crate::text::owned("     ");
    proof { assert("     "@ + header_cols(0) == "     "@); }
    s
}

fn day_label(d: u8) -> (s: &'static str)
    ensures
        s@ == day_name(d as int),
{
    if d == 0 {
        "Mon"
    } else if d == 1 {
        "Tue"
    } else if d == 2 {
        "Wed"
    } else if d == 3 {
        "Thu"
    } else if d == 4 {
        "Fri"
    } else if d == 5 {
        "Sat"
    } else {
        "Sun"
    }
}

/// Build a heatmap from `(rule_id, unix_timestamp_secs)` pairs, one cell hit per firing.
pub fn build(firings: &[(String, u64)]) -> (hm: HeatMap)
    requires
        firings@.len() < u64::MAX,
    ensures
        hm.cells@ == tally_firings(firings@),
        hm.total_blocks == firings@.len(),
{
    let mut hm = HeatMap::new();
    let mut i: usize = 0;
    while i < firings.len()
        invariant
            i <= firings@.len() < u64::MAX,
            hm.total_blocks == i,
            hm.cells@ == tally_firings(firings@.take(i as int)),
            forall|k: (u8, u8)| hm.cells@.contains_key(k) ==> hm.cells@[k] <= i,
        decreases firings.len() - i,
    {
        proof {
            assert(firings@.take(i + 1).drop_last() == firings@.take(i as int));
            assert(firings@.take(i + 1).last() == firings@[i as int]);
        }
        hm.record(firings[i].1);
        i += 1;
    }
    proof { assert(firings@.take(firings@.len() as int) == firings@); }
    hm
}

} // verus!
