//! Character-level string helpers shared by the command parsers and report formatters.
use vstd::prelude::*;

verus! {

/// Appends one character to a `String` (`String::push`).
#[verifier::external_body]
pub fn push_char(s: &mut String, c: char)
    ensures
        final(s)@ == old(s)@.push(c),
{
    s.push(c);
}

/// Appends a string slice to a `String` (`String::push_str`).
#[verifier::external_body]
pub fn push_str(s: &mut String, t: &str)
    ensures
        final(s)@ == old(s)@ + t@,
{
    s.push_str(t);
}

/// The characters of `s`, in order.
pub fn chars_of(s: &str) -> (v: Vec<char>)
    ensures
        v@ == s@,
{
    let mut v: Vec<char> = Vec::new();
    for c in it: s.chars()
        invariant
            v@ == it.seq().take(it.index() as int),
    {
        v.push(c);
    }
    v
}

/// A `String` holding `v[lo..hi]`.
pub fn string_of_range(v: &[char], lo: usize, hi: usize) -> (s: String)
    requires
        lo <= hi <= v@.len(),
    ensures
        s@ == v@.subrange(lo as int, hi as int),
{
    let mut s = String::new();
    let mut i: usize = lo;
    while i < hi
        invariant
            lo <= i <= hi <= v@.len(),
            s@ == v@.subrange(lo as int, i as int),
        decreases hi - i,
    {
        push_char(&mut s, v[i]);
        i += 1;
        proof {
            assert(v@.subrange(lo as int, i as int) == v@.subrange(lo as int, i - 1).push(
                v@[i - 1],
            ));
        }
    }
    s
}

/// A `String` holding all of `v`.
pub fn string_of(v: &[char]) -> (s: String)
    ensures
        s@ == v@,
{
    let s = string_of_range(v, 0, v.len());
    proof { assert(v@.subrange(0, v@.len() as int) == v@); }
    s
}

/// A `String` copy of `t`.
pub fn owned(t: &str) -> (s: String)
    ensures
        s@ == t@,
{
    let mut s = String::new();
    push_str(&mut s, t);
    proof { assert(Seq::<char>::empty() + t@ == t@); }
    s
}

pub open spec fn digit_char(k: int) -> char {
    (48 + k) as char
}

/// Decimal representation of `n` without leading zeros (`"0"` for zero).
pub open spec fn decimal(n: nat) -> Seq<char>
    decreases n,
{
    if n < 10 {
        seq![digit_char(n as int)]
    } else {
        decimal(n / 10).push(digit_char((n % 10) as int))
    }
}

/// `s` left-padded with `'0'` to at least `width` characters.
pub open spec fn zero_pad(s: Seq<char>, width: nat) -> Seq<char> {
    if s.len() >= width {
        s
    } else {
        Seq::new((width - s.len()) as nat, |i: int| '0') + s
    }
}

pub open spec fn pow10(j: nat) -> nat
    decreases j,
{
    if j == 0 { 1 } else { 10 * pow10((j - 1) as nat) }
}

proof fn lemma_decimal_len(n: nat, j: nat)
    requires
        j >= 1,
        n < pow10(j),
    ensures
        1 <= decimal(n).len() <= j,
    decreases j,
{
    if n >= 10 {
        assert(pow10(j) == 10 * pow10((j - 1) as nat));
        lemma_decimal_len(n / 10, (j - 1) as nat);
    }
}

proof fn lemma_decimal_u64_len(n: u64)
    ensures
        1 <= decimal(n as nat).len() <= 20,
{
    reveal_with_fuel(pow10, 21);
    assert(pow10(20) == 100000000000000000000nat);
    lemma_decimal_len(n as nat, 20);
}

/// Appends the decimal digits of `n`, left-padded with zeros to `width`.
pub fn push_decimal_padded(s: &mut String, n: u64, width: usize)
    requires
        width <= 20,
    ensures
        final(s)@ == old(s)@ + zero_pad(decimal(n as nat), width as nat),
{
    // Collect digits least significant first.
    let mut digits: Vec<char> = Vec::new();
    let mut k: u64 = n;
    let ghost mut done: Seq<char> = Seq::empty();
    proof {
        lemma_decimal_u64_len(n);
        assert(digits@.reverse() == Seq::<char>::empty());
    }
    loop
        invariant
            decimal(n as nat) == decimal(k as nat) + digits@.reverse(),
            k <= n,
            1 <= decimal(k as nat).len(),
            decimal(n as nat).len() <= 20,
        ensures
            k < 10,
            decimal(n as nat) == decimal(k as nat) + digits@.reverse(),
        decreases k,
    {
        if k < 10 {
            break;
        }
        proof { lemma_decimal_u64_len(k / 10); }
        let dgt = (k % 10) as u8;
        let c = (48u8 + dgt) as char;
        proof {
            assert(decimal(k as nat) == decimal((k / 10) as nat).push(digit_char((k % 10) as int)));
            assert(digits@.push(c).reverse() == seq![c] + digits@.reverse());
            assert(decimal(k as nat) + digits@.reverse() == decimal((k / 10) as nat) + digits@.push(
                c,
            ).reverse());
        }
        digits.push(c);
        k = k / 10;
    }
    proof { lemma_decimal_u64_len(k); }
    let c0 = (48u8 + k as u8) as char;
    digits.push(c0);
    proof {
        assert(decimal(k as nat) == seq![digit_char(k as int)]);
        assert(digits@.reverse() == seq![c0] + digits@.drop_last().reverse());
    }
    let len = digits.len();
    let ghost before = s@;
    let mut p: usize = len;
    while p < width
        invariant
            s@ == before + Seq::new((p - len) as nat, |i: int| '0'),
            len <= p,
            p <= width || p == len,
        decreases width - p,
    {
        push_char(s, '0');
        p += 1;
        proof {
            assert(Seq::new((p - len) as nat, |i: int| '0') == Seq::new((p - 1 - len) as nat, |i: int| '0').push('0'));
        }
    }
    let ghost mid = s@;
    let mut j: usize = len;
    while j > 0
        invariant
            j <= len == digits@.len(),
            s@ == mid + digits@.subrange(j as int, len as int).reverse(),
        decreases j,
    {
        j -= 1;
        push_char(s, digits[j]);
        proof {
            assert(digits@.subrange(j as int, len as int).reverse() == digits@.subrange(
                (j + 1) as int,
                len as int,
            ).reverse().push(digits@[j as int]));
        }
    }
    proof {
        assert(digits@.subrange(0, len as int) == digits@);
        assert(digits@.reverse() == decimal(n as nat));
        if len < width {
            assert(mid == before + Seq::new((width - len) as nat, |i: int| '0'));
            assert(mid + digits@.reverse() == before + zero_pad(decimal(n as nat), width as nat));
        } else {
            assert(mid == before);
        }
    }
}

} // verus!

verus! {

/// Unicode `White_Space` characters, as `char::is_whitespace` classifies them.
pub open spec fn is_ws(c: char) -> bool {
    let u = c as u32;
    ||| (9 <= u <= 13)
    ||| u == 32
    ||| u == 0x85
    ||| u == 0xA0
    ||| u == 0x1680
    ||| (0x2000 <= u <= 0x200A)
    ||| u == 0x2028
    ||| u == 0x2029
    ||| u == 0x202F
    ||| u == 0x205F
    ||| u == 0x3000
}

pub fn is_whitespace(c: char) -> (b: bool)
    ensures
        b == is_ws(c),
{
    let u = c as u32;
    (9 <= u && u <= 13) || u == 32 || u == 0x85 || u == 0xA0 || u == 0x1680 || (0x2000 <= u && u
        <= 0x200A) || u == 0x2028 || u == 0x2029 || u == 0x202F || u == 0x205F || u == 0x3000
}

/// `s` without leading whitespace.
pub open spec fn trim_start(s: Seq<char>) -> Seq<char>
    decreases s.len(),
{
    if s.len() > 0 && is_ws(s[0]) {
        trim_start(s.drop_first())
    } else {
        s
    }
}

/// `s` without trailing whitespace.
pub open spec fn trim_end(s: Seq<char>) -> Seq<char>
    decreases s.len(),
{
    if s.len() > 0 && is_ws(s.last()) {
        trim_end(s.drop_last())
    } else {
        s
    }
}

/// `s` without leading and trailing whitespace (`str::trim`).
pub open spec fn trim(s: Seq<char>) -> Seq<char> {
    trim_end(trim_start(s))
}

proof fn lemma_trim_start_range(v: Seq<char>, a: int, lo: int, b: int)
    requires
        0 <= a <= lo <= b <= v.len(),
        forall|k: int| a <= k < lo ==> is_ws(#[trigger] v[k]),
        lo == b || !is_ws(v[lo]),
    ensures
        trim_start(v.subrange(a, b)) == v.subrange(lo, b),
    decreases lo - a,
{
    if a < lo {
        assert(v.subrange(a, b).drop_first() == v.subrange(a + 1, b));
        lemma_trim_start_range(v, a + 1, lo, b);
    }
}

proof fn lemma_trim_end_range(v: Seq<char>, lo: int, hi: int, b: int)
    requires
        0 <= lo <= hi <= b <= v.len(),
        forall|k: int| hi <= k < b ==> is_ws(#[trigger] v[k]),
        hi == lo || !is_ws(v[hi - 1]),
    ensures
        trim_end(v.subrange(lo, b)) == v.subrange(lo, hi),
    decreases b - hi,
{
    if hi < b {
        assert(v.subrange(lo, b).drop_last() == v.subrange(lo, b - 1));
        lemma_trim_end_range(v, lo, hi, b - 1);
    }
}

/// Bounds `(lo, hi)` with `v[lo..hi]` equal to `v[a..b]` trimmed.
pub fn trim_bounds(v: &[char], a: usize, b: usize) -> (r: (usize, usize))
    requires
        a <= b <= v@.len(),
    ensures
        a <= r.0 <= r.1 <= b,
        v@.subrange(r.0 as int, r.1 as int) == trim(v@.subrange(a as int, b as int)),
{
    let mut lo = a;
    while lo < b && is_whitespace(v[lo])
        invariant
            a <= lo <= b <= v@.len(),
            forall|k: int| a <= k < lo ==> is_ws(#[trigger] v@[k]),
        decreases b - lo,
    {
        lo += 1;
    }
    let mut hi = b;
    while hi > lo && is_whitespace(v[hi - 1])
        invariant
            a <= lo <= hi <= b <= v@.len(),
            forall|k: int| hi <= k < b ==> is_ws(#[trigger] v@[k]),
        decreases hi - lo,
    {
        hi -= 1;
    }
    proof {
        lemma_trim_start_range(v@, a as int, lo as int, b as int);
        lemma_trim_end_range(v@, lo as int, hi as int, b as int);
    }
    (lo, hi)
}

pub fn trimmed(s: &str) -> (t: String)
    ensures
        t@ == trim(s@),
{
    let v = chars_of(s);
    let (lo, hi) = trim_bounds(&v, 0, v.len());
    proof { assert(v@.subrange(0, v@.len() as int) == v@); }
    string_of_range(&v, lo, hi)
}

} // verus!

verus! {

/// Whether `t` occurs in `s` at position `i`.
pub open spec fn occurs_at(s: Seq<char>, t: Seq<char>, i: int) -> bool {
    0 <= i && i + t.len() <= s.len() && s.subrange(i, i + t.len()) == t
}

/// Whether `t` occurs anywhere in `s` (`str::contains` with a string pattern).
pub open spec fn has_substring(s: Seq<char>, t: Seq<char>) -> bool {
    exists|i: int| occurs_at(s, t, i)
}

pub fn occurs_at_exec(s: &[char], t: &[char], i: usize) -> (b: bool)
    ensures
        b == occurs_at(s@, t@, i as int),
{
    if i > s.len() || t.len() > s.len() - i {
        return false;
    }
    let mut k: usize = 0;
    while k < t.len()
        invariant
            i + t@.len() <= s@.len(),
            i <= s@.len(),
            k <= t@.len(),
            forall|j: int| 0 <= j < k ==> s@[i + j] == t@[j],
        decreases t.len() - k,
    {
        assert(i + k < s@.len() && s@.len() == s.len());
        if s[i + k] != t[k] {
            proof { assert(s@.subrange(i as int, i + t@.len())[k as int] != t@[k as int]); }
            return false;
        }
        k += 1;
    }
    proof { assert(s@.subrange(i as int, i + t@.len()) == t@); }
    true
}

pub fn contains_chars(s: &[char], t: &[char]) -> (b: bool)
    ensures
        b == has_substring(s@, t@),
{
    if t.len() == 0 {
        proof { assert(s@.subrange(0, 0) =~= t@); assert(occurs_at(s@, t@, 0)); }
        return true;
    }
    let mut i: usize = 0;
    while i < s.len()
        invariant
            i <= s@.len(),
            t@.len() > 0,
            forall|j: int| 0 <= j < i ==> !occurs_at(s@, t@, j),
        decreases s.len() - i,
    {
        if occurs_at_exec(s, t, i) {
            return true;
        }
        i += 1;
    }
    proof {
        assert forall|j: int| !occurs_at(s@, t@, j) by {
            if 0 <= j < i {
            } else if occurs_at(s@, t@, j) {
                assert(j + t@.len() <= s@.len());
            }
        }
    }
    false
}

/// `str::contains` with a string pattern.
pub fn contains_str(s: &str, t: &str) -> (b: bool)
    ensures
        b == has_substring(s@, t@),
{
    let sv = chars_of(s);
    let tv = chars_of(t);
    contains_chars(&sv, &tv)
}

/// `str::contains` with a `char` pattern.
pub fn contains_char(s: &str, c: char) -> (b: bool)
    ensures
        b == s@.contains(c),
{
    let v = chars_of(s);
    let mut i: usize = 0;
    while i < v.len()
        invariant
            v@ == s@,
            i <= v@.len(),
            forall|j: int| 0 <= j < i ==> v@[j] != c,
        decreases v.len() - i,
    {
        if v[i] == c {
            return true;
        }
        i += 1;
    }
    false
}

/// String equality by contents.
pub fn str_eq(a: &str, b: &str) -> (r: bool)
    ensures
        r == (a@ == b@),
{
    let av = chars_of(a);
    let bv = chars_of(b);
    if av.len() != bv.len() {
        return false;
    }
    let mut i: usize = 0;
    while i < av.len()
        invariant
            av@ == a@,
            bv@ == b@,
            av@.len() == bv@.len(),
            i <= av@.len(),
            forall|j: int| 0 <= j < i ==> av@[j] == bv@[j],
        decreases av.len() - i,
    {
        if av[i] != bv[i] {
            return false;
        }
        i += 1;
    }
    proof { assert(av@ == bv@); }
    true
}

} // verus!

verus! {

/// `s` with every non-overlapping occurrence of the non-empty `from`, scanning
/// left to right, replaced by `to` (`str::replace`).
pub open spec fn replace_all(s: Seq<char>, from: Seq<char>, to: Seq<char>) -> Seq<char>
    decreases s.len(),
{
    if from.len() == 0 || s.len() < from.len() {
        s
    } else if s.take(from.len() as int) == from {
        to + replace_all(s.skip(from.len() as int), from, to)
    } else {
        seq![s[0]] + replace_all(s.drop_first(), from, to)
    }
}

/// `str::replace` for a non-empty pattern.
pub fn replace_str(s: &str, from: &str, to: &str) -> (r: String)
    requires
        from@.len() > 0,
    ensures
        r@ == replace_all(s@, from@, to@),
{
    let v = chars_of(s);
    let f = chars_of(from);
    let mut out = String::new();
    let mut i: usize = 0;
    proof { assert(v@.skip(0) == v@); }
    while i < v.len()
        invariant
            v@ == s@,
            f@ == from@,
            f@.len() > 0,
            i <= v@.len(),
            out@ + replace_all(v@.skip(i as int), f@, to@) == replace_all(v@, f@, to@),
        decreases v.len() - i,
    {
        let ghost rest = v@.skip(i as int);
        if occurs_at_exec(&v, &f, i) {
            proof {
                assert(rest.take(f@.len() as int) == v@.subrange(i as int, i + f@.len()));
                assert(rest.skip(f@.len() as int) == v@.skip(i + f@.len()));
            }
            push_str(&mut out, to);
            i = i + f.len();
        } else {
            proof {
                if rest.len() >= f@.len() {
                    assert(rest.take(f@.len() as int) == v@.subrange(i as int, i + f@.len()));
                }
                if rest.len() < f@.len() {
                    assert(replace_all(rest, f@, to@) == rest);
                    assert(rest == seq![rest[0]] + rest.drop_first());
                    assert(replace_all(rest.drop_first(), f@, to@) == rest.drop_first());
                }
                assert(rest.drop_first() == v@.skip(i + 1));
            }
            push_char(&mut out, v[i]);
            i += 1;
        }
    }
    proof { assert(v@.skip(v@.len() as int) == Seq::<char>::empty()); }
    out
}

/// The first `n` characters of `s` (`s.chars().take(n).collect()`).
pub fn take_chars(s: &str, n: usize) -> (r: String)
    ensures
        r@ == s@.take(if n < s@.len() { n as int } else { s@.len() as int }),
{
    let v = chars_of(s);
    let k = if n < v.len() { n } else { v.len() };
    string_of_range(&v, 0, k)
}

/// Decimal rendering of `n` (`u64::to_string`).
pub fn decimal_string(n: u64) -> (s: String)
    ensures
        s@ == decimal(n as nat),
{
    let mut s = String::new();
    push_decimal_padded(&mut s, n, 0);
    proof { assert(Seq::<char>::empty() + decimal(n as nat) == decimal(n as nat)); }
    s
}

} // verus!

verus! {

/// The pieces of `s[start..]` between whitespace characters, scanning from `i`.
pub open spec fn ws_scan(s: Seq<char>, start: int, i: int) -> Seq<Seq<char>>
    decreases s.len() - i,
{
    if i >= s.len() {
        seq![s.subrange(start, s.len() as int)]
    } else if is_ws(s[i]) {
        seq![s.subrange(start, i)] + ws_scan(s, i + 1, i + 1)
    } else {
        ws_scan(s, start, i + 1)
    }
}

pub open spec fn drop_empty(ps: Seq<Seq<char>>) -> Seq<Seq<char>>
    decreases ps.len(),
{
    if ps.len() == 0 {
        seq![]
    } else {
        drop_empty(ps.drop_last()) + if ps.last().len() > 0 {
            seq![ps.last()]
        } else {
            seq![]
        }
    }
}

/// The whitespace-separated words of `s` (`str::split_whitespace`).
pub open spec fn words(s: Seq<char>) -> Seq<Seq<char>> {
    drop_empty(ws_scan(s, 0, 0))
}

pub open spec fn char_views(v: Seq<Vec<char>>) -> Seq<Seq<char>> {
    v.map_values(|w: Vec<char>| w@)
}

/// `str::split_whitespace`, each word as characters.
pub fn split_words(s: &str) -> (r: Vec<Vec<char>>)
    ensures
        char_views(r@) == words(s@),
{
    let v = chars_of(s);
    let n = v.len();
    let mut out: Vec<Vec<char>> = Vec::new();
    let mut start: usize = 0;
    let mut i: usize = 0;
    let ghost mut pieces: Seq<Seq<char>> = seq![];
    while i < n
        invariant
            n == v@.len(),
            v@ == s@,
            start <= i <= n,
            ws_scan(v@, 0, 0) == pieces + ws_scan(v@, start as int, i as int),
            char_views(out@) == drop_empty(pieces),
        decreases n - i,
    {
        if is_whitespace(v[i]) {
            proof {
                let p = v@.subrange(start as int, i as int);
                assert(ws_scan(v@, start as int, i as int) == seq![p] + ws_scan(
                    v@,
                    (i + 1) as int,
                    (i + 1) as int,
                ));
                assert(pieces.push(p).drop_last() == pieces);
                assert(pieces + (seq![p] + ws_scan(v@, (i + 1) as int, (i + 1) as int))
                    == pieces.push(p) + ws_scan(v@, (i + 1) as int, (i + 1) as int));
                pieces = pieces.push(p);
            }
            if start < i {
                let w = slice_chars(&v, start, i);
                out.push(w);
                proof { assert(char_views(out@) == char_views(out@.drop_last()).push(w@)); }
            }
            i = i + 1;
            start = i;
        } else {
            i += 1;
        }
    }
    proof {
        let p = v@.subrange(start as int, n as int);
        assert(ws_scan(v@, start as int, n as int) == seq![p]);
        assert(pieces.push(p).drop_last() == pieces);
        pieces = pieces.push(p);
    }
    if start < n {
        let w = slice_chars(&v, start, n);
        out.push(w);
        proof { assert(char_views(out@) == char_views(out@.drop_last()).push(w@)); }
    }
    proof { assert(pieces == ws_scan(v@, 0, 0)); }
    out
}

/// A copy of `v[lo..hi]`.
pub fn slice_chars(v: &[char], lo: usize, hi: usize) -> (r: Vec<char>)
    requires
        lo <= hi <= v@.len(),
    ensures
        r@ == v@.subrange(lo as int, hi as int),
{
    let mut r: Vec<char> = Vec::new();
    let mut i = lo;
    while i < hi
        invariant
            lo <= i <= hi <= v@.len(),
            r@ == v@.subrange(lo as int, i as int),
        decreases hi - i,
    {
        r.push(v[i]);
        i += 1;
        proof { assert(r@ == v@.subrange(lo as int, i as int)); }
    }
    r
}

/// Whether `s` starts with `p`.
pub open spec fn has_prefix(s: Seq<char>, p: Seq<char>) -> bool {
    p.len() <= s.len() && s.take(p.len() as int) == p
}

pub fn starts_with_char(v: &[char], c: char) -> (b: bool)
    ensures
        b == (v@.len() > 0 && v@[0] == c),
{
    v.len() > 0 && v[0] == c
}

pub fn contains_char_in(v: &[char], c: char) -> (b: bool)
    ensures
        b == v@.contains(c),
{
    let mut i: usize = 0;
    while i < v.len()
        invariant
            i <= v@.len(),
            forall|j: int| 0 <= j < i ==> v@[j] != c,
        decreases v.len() - i,
    {
        if v[i] == c {
            return true;
        }
        i += 1;
    }
    false
}

} // verus!

verus! {

/// `str::to_lowercase`: the Unicode lowercase mapping of `s`.
pub uninterp spec fn lowercase(s: Seq<char>) -> Seq<char>;

/// `str::to_lowercase`, named by `lowercase`.
#[verifier::external_body]
pub fn to_lowercase(s: &str) -> (r: String)
    ensures
        r@ == lowercase(s@),
{
    s.to_lowercase()
}

} // verus!
