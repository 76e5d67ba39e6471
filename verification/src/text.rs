//! Text helpers shared by the days: a string as its characters, the line
//! splitting that every puzzle input goes through, whitespace-separated
//! tokens, and decimal integers as `str::parse` reads them.

use vstd::prelude::*;

verus! {

/// The characters of `s`, in order.
pub fn chars_of(s: &str) -> (v: Vec<char>)
    ensures
        v@ == s@,
{
    let mut it = s.chars();
    let mut v: Vec<char> = Vec::new();
    loop
        invariant
            v@ + vstd::std_specs::iter::IteratorSpec::remaining(&it) == s@,
            vstd::std_specs::iter::IteratorSpec::obeys_prophetic_iter_laws(&it),
            vstd::std_specs::iter::IteratorSpec::decrease(&it) is Some,
        ensures
            v@ == s@,
        decreases vstd::std_specs::iter::IteratorSpec::decrease(&it)->0,
    {
        match it.next() {
            Some(c) => {
                v.push(c);
            },
            None => {
                break;
            },
        }
    }
    v
}

/// The UTF-8 bytes of `s`, which is what `str::as_bytes` hands out.
pub open spec fn bytes_of(s: &str) -> Seq<u8> {
    vstd::utf8::encode_utf8(s@)
}

// ---------------------------------------------------------------------------
// Lines
// ---------------------------------------------------------------------------

/// The first index at or after `from` that holds `c`, or `s.len()` if none does.
pub open spec fn find_char(s: Seq<char>, c: char, from: int) -> int
    decreases s.len() - from,
{
    if from >= s.len() {
        s.len() as int
    } else if s[from] == c {
        from
    } else {
        find_char(s, c, from + 1)
    }
}

/// A line without the `'\r'` of a `"\r\n"` ending.
pub open spec fn strip_cr(t: Seq<char>) -> Seq<char> {
    if t.len() > 0 && t.last() == '\r' {
        t.drop_last()
    } else {
        t
    }
}

/// The lines of `s` from character index `from` on, as `str::lines` yields
/// them: split at each `'\n'`, a `'\r'` just before it dropped, and no empty
/// line after a final line ending.
pub open spec fn lines_from(s: Seq<char>, from: int) -> Seq<Seq<char>>
    decreases s.len() - from,
{
    if from >= s.len() || from < 0 {
        Seq::empty()
    } else {
        let e = find_char(s, '\n', from);
        proof {
            lemma_find_char_bounds(s, '\n', from);
        }
        if e >= s.len() {
            seq![s.subrange(from, s.len() as int)]
        } else {
            seq![strip_cr(s.subrange(from, e))] + lines_from(s, e + 1)
        }
    }
}

/// The lines of `s`, as `str::lines` yields them.
pub open spec fn spec_lines(s: Seq<char>) -> Seq<Seq<char>> {
    lines_from(s, 0)
}

proof fn lemma_find_char(s: Seq<char>, c: char, from: int, e: int)
    requires
        0 <= from <= e <= s.len(),
        forall|k: int| from <= k < e ==> s[k] != c,
        e == s.len() || s[e] == c,
    ensures
        find_char(s, c, from) == e,
    decreases e - from,
{
    if from < e {
        lemma_find_char(s, c, from + 1, e);
    }
}

pub proof fn lemma_find_char_bounds(s: Seq<char>, c: char, from: int)
    requires
        0 <= from <= s.len(),
    ensures
        from <= find_char(s, c, from) <= s.len(),
    decreases s.len() - from,
{
    if from < s.len() && s[from] != c {
        lemma_find_char_bounds(s, c, from + 1);
    }
}

/// The contents of the ranges `r` of `s`, in order.
pub open spec fn range_contents(s: Seq<char>, r: Seq<(usize, usize)>) -> Seq<Seq<char>> {
    Seq::new(r.len(), |i: int| s.subrange(r[i].0 as int, r[i].1 as int))
}

/// Each range lies within `s` and is in order.
pub open spec fn ranges_within(s: Seq<char>, r: Seq<(usize, usize)>) -> bool {
    forall|i: int| 0 <= i < r.len() ==> (#[trigger] r[i]).0 <= r[i].1 <= s.len()
}

/// The character ranges of the lines of `s`: line `i` is
/// `s[r[i].0..r[i].1]`.
pub fn line_ranges(s: &Vec<char>) -> (r: Vec<(usize, usize)>)
    ensures
        ranges_within(s@, r@),
        range_contents(s@, r@) == spec_lines(s@),
{
    let n = s.len();
    let mut r: Vec<(usize, usize)> = Vec::new();
    let mut p: usize = 0;
    while p < n
        invariant
            n == s@.len(),
            p <= n,
            ranges_within(s@, r@),
            range_contents(s@, r@) + lines_from(s@, p as int) == spec_lines(s@),
        decreases n - p,
    {
        let mut e = p;
        while e < n && s[e] != '\n'
            invariant
                p <= e <= n,
                n == s@.len(),
                forall|k: int| p <= k < e ==> s@[k] != '\n',
            decreases n - e,
        {
            e += 1;
        }
        proof {
            lemma_find_char(s@, '\n', p as int, e as int);
        }
        let ghost old_r = r@;
        if e == n {
            r.push((p, n));
            assert(range_contents(s@, r@) =~= range_contents(s@, old_r) + seq![
                s@.subrange(p as int, n as int),
            ]);
            assert(lines_from(s@, n as int) =~= Seq::<Seq<char>>::empty());
            p = n;
        } else {
            let end = if e > p && s[e - 1] == '\r' {
                e - 1
            } else {
                e
            };
            r.push((p, end));
            assert(s@.subrange(p as int, end as int) =~= strip_cr(s@.subrange(p as int, e as int)));
            assert(range_contents(s@, r@) =~= range_contents(s@, old_r) + seq![
                strip_cr(s@.subrange(p as int, e as int)),
            ]);
            p = e + 1;
        }
    }
    assert(lines_from(s@, p as int) =~= Seq::<Seq<char>>::empty());
    assert(range_contents(s@, r@) + Seq::<Seq<char>>::empty() =~= range_contents(s@, r@));
    r
}


/// The lines of `s` as owned strings, as `str::lines` yields them.
pub fn lines_of(s: &str) -> (lines: Vec<String>)
    ensures
        lines@.len() == spec_lines(s@).len(),
        forall|i: int| 0 <= i < lines@.len() ==> #[trigger] lines@[i]@ == spec_lines(s@)[i],
{
    let chars = chars_of(s);
    let ranges = line_ranges(&chars);
    let mut lines: Vec<String> = Vec::new();
    let mut i: usize = 0;
    while i < ranges.len()
        invariant
            chars@ == s@,
            ranges_within(chars@, ranges@),
            range_contents(chars@, ranges@) == spec_lines(s@),
            i <= ranges@.len(),
            lines@.len() == i,
            forall|j: int| 0 <= j < i ==> #[trigger] lines@[j]@ == spec_lines(s@)[j],
        decreases ranges@.len() - i,
    {
        let (a, b) = ranges[i];
        assert(ranges@[i as int].0 <= ranges@[i as int].1 <= chars@.len());
        let piece = s.substring_char(a, b);
        let line = piece.to_owned();
        assert(range_contents(chars@, ranges@)[i as int] == chars@.subrange(a as int, b as int));
        lines.push(line);
        i += 1;
    }
    lines
}

/// The characters `v[a..b]` as a vector of their own.
pub fn sub_chars(v: &Vec<char>, a: usize, b: usize) -> (r: Vec<char>)
    requires
        a <= b <= v@.len(),
    ensures
        r@ == v@.subrange(a as int, b as int),
{
    let mut r: Vec<char> = Vec::new();
    let mut k = a;
    while k < b
        invariant
            a <= k <= b <= v@.len(),
            r@ == v@.subrange(a as int, k as int),
        decreases b - k,
    {
        r.push(v[k]);
        assert(r@ =~= v@.subrange(a as int, k + 1));
        k += 1;
    }
    r
}

// ---------------------------------------------------------------------------
// Decimal integers
// ---------------------------------------------------------------------------

/// An ASCII decimal digit.
pub open spec fn is_digit(c: char) -> bool {
    '0' <= c <= '9'
}

/// The value of one ASCII decimal digit.
pub open spec fn digit_val(c: char) -> nat {
    (c as int - '0' as int) as nat
}

/// Every character is an ASCII decimal digit.
pub open spec fn all_digits(s: Seq<char>) -> bool {
    forall|i: int| 0 <= i < s.len() ==> is_digit(#[trigger] s[i])
}

/// The value of a run of decimal digits, most significant first.
pub open spec fn digits_val(s: Seq<char>) -> nat
    decreases s.len(),
{
    if s.len() == 0 {
        0
    } else {
        digits_val(s.drop_last()) * 10 + digit_val(s.last())
    }
}

/// What follows an optional leading `'+'`.
pub open spec fn unsigned_body(s: Seq<char>) -> Seq<char> {
    if s.len() > 0 && s[0] == '+' {
        s.drop_first()
    } else {
        s
    }
}

/// `s` as `str::parse` reads an unsigned integer of at most `max`: an
/// optional `'+'`, then one or more ASCII digits, the value at most `max`.
pub open spec fn spec_parse_unsigned(s: Seq<char>, max: nat) -> Option<nat> {
    let t = unsigned_body(s);
    if t.len() > 0 && all_digits(t) && digits_val(t) <= max {
        Some(digits_val(t))
    } else {
        None
    }
}

/// `s` as `str::parse::<usize>()` reads it.
pub open spec fn spec_parse_usize(s: Seq<char>) -> Option<usize> {
    match spec_parse_unsigned(s, usize::MAX as nat) {
        Some(v) => Some(v as usize),
        None => None,
    }
}

/// `s` as `str::parse::<i32>()` reads it: an optional sign, then one or
/// more ASCII digits, the value within `i32`.
pub open spec fn spec_parse_i32(s: Seq<char>) -> Option<i32> {
    if s.len() > 0 && s[0] == '-' {
        let t = s.drop_first();
        if t.len() > 0 && all_digits(t) && digits_val(t) <= 0x8000_0000 {
            Some((-(digits_val(t) as int)) as i32)
        } else {
            None
        }
    } else {
        match spec_parse_unsigned(s, i32::MAX as nat) {
            Some(v) => Some(v as i32),
            None => None,
        }
    }
}

proof fn lemma_digits_val_step(s: Seq<char>, k: int)
    requires
        0 <= k < s.len(),
    ensures
        digits_val(s.take(k + 1)) == digits_val(s.take(k)) * 10 + digit_val(s[k]),
{
    assert(s.take(k + 1).drop_last() =~= s.take(k));
}

proof fn lemma_digits_val_monotone(s: Seq<char>, k: int, j: int)
    requires
        0 <= k <= j <= s.len(),
    ensures
        digits_val(s.take(k)) <= digits_val(s.take(j)),
    decreases j - k,
{
    if k < j {
        lemma_digits_val_monotone(s, k, j - 1);
        lemma_digits_val_step(s, j - 1);
    }
}

/// The value of the digits `v[a..b]` if they are one or more ASCII digits
/// whose value is at most `limit`, and `None` otherwise.
pub fn parse_digits(v: &Vec<char>, a: usize, b: usize, limit: u64) -> (r: Option<u64>)
    requires
        a <= b <= v@.len(),
    ensures
        ({
            let t = v@.subrange(a as int, b as int);
            match r {
                Some(x) => t.len() > 0 && all_digits(t) && digits_val(t) <= limit && x == digits_val(t),
                None => !(t.len() > 0 && all_digits(t) && digits_val(t) <= limit),
            }
        }),
{
    let ghost t = v@.subrange(a as int, b as int);
    if a == b {
        return None;
    }
    let mut acc: u64 = 0;
    let mut k = a;
    while k < b
        invariant
            a <= k <= b <= v@.len(),
            t == v@.subrange(a as int, b as int),
            all_digits(t.take(k - a)),
            acc as nat == digits_val(t.take(k - a)),
            acc <= limit,
        decreases b - k,
    {
        let c = v[k];
        proof {
            lemma_digits_val_step(t, k - a);
        }
        if !('0' <= c && c <= '9') {
            assert(!is_digit(t[k - a]));
            return None;
        }
        let d = (c as u32 - '0' as u32) as u64;
        assert(d as nat == digit_val(t[k - a]));
        assert(all_digits(t.take(k - a + 1))) by {
            assert forall|i: int| 0 <= i < t.take(k - a + 1).len() implies is_digit(
                #[trigger] t.take(k - a + 1)[i],
            ) by {
                if i < k - a {
                    assert(t.take(k - a)[i] == t.take(k - a + 1)[i]);
                }
            }
        }
        let next = match acc.checked_mul(10) {
            Some(m) => m.checked_add(d),
            None => None,
        };
        match next {
            Some(x) if x <= limit => {
                acc = x;
            },
            _ => {
                // The value so far already exceeds `limit`; more digits only grow it.
                proof {
                    if all_digits(t) {
                        lemma_digits_val_monotone(t, k - a + 1, t.len() as int);
                        assert(t.take(t.len() as int) =~= t);
                    }
                }
                return None;
            },
        }
        k += 1;
    }
    assert(t.take(b - a) =~= t);
    Some(acc)
}

/// `v[a..b]` as `str::parse::<usize>()` reads it.
pub fn parse_usize(v: &Vec<char>, a: usize, b: usize) -> (r: Option<usize>)
    requires
        a <= b <= v@.len(),
    ensures
        r == spec_parse_usize(v@.subrange(a as int, b as int)),
{
    let ghost s = v@.subrange(a as int, b as int);
    let start = if a < b && v[a] == '+' {
        a + 1
    } else {
        a
    };
    assert(unsigned_body(s) =~= v@.subrange(start as int, b as int));
    match parse_digits(v, start, b, usize::MAX as u64) {
        Some(x) => Some(x as usize),
        None => None,
    }
}

/// `v[a..b]` as `str::parse::<i32>()` reads it.
pub fn parse_i32(v: &Vec<char>, a: usize, b: usize) -> (r: Option<i32>)
    requires
        a <= b <= v@.len(),
    ensures
        r == spec_parse_i32(v@.subrange(a as int, b as int)),
{
    let ghost s = v@.subrange(a as int, b as int);
    if a < b && v[a] == '-' {
        assert(s.drop_first() =~= v@.subrange(a + 1, b as int));
        match parse_digits(v, a + 1, b, 0x8000_0000u64) {
            Some(x) => Some((0i64 - x as i64) as i32),
            None => None,
        }
    } else {
        let start = if a < b && v[a] == '+' {
            a + 1
        } else {
            a
        };
        assert(unsigned_body(s) =~= v@.subrange(start as int, b as int));
        match parse_digits(v, start, b, i32::MAX as u64) {
            Some(x) => Some(x as i32),
            None => None,
        }
    }
}


// ---------------------------------------------------------------------------
// Searching
// ---------------------------------------------------------------------------

/// `pat` occurs in `s` at `pos`.
pub open spec fn occurs_at<A>(s: Seq<A>, pos: int, pat: Seq<A>) -> bool {
    0 <= pos && pos + pat.len() <= s.len() && s.subrange(pos, pos + pat.len()) == pat
}

/// The first position in `[from, to - pat.len()]` where `pat` occurs.
pub open spec fn find_in<A>(s: Seq<A>, from: int, to: int, pat: Seq<A>) -> Option<int>
    decreases to - from + 1,
{
    if from < 0 || from > to || from + pat.len() > to {
        None
    } else if occurs_at(s, from, pat) {
        Some(from)
    } else {
        find_in(s, from + 1, to, pat)
    }
}

/// `s` begins with `pat`.
pub open spec fn has_prefix<A>(s: Seq<A>, pat: Seq<A>) -> bool {
    pat.len() <= s.len() && s.take(pat.len() as int) == pat
}

pub proof fn lemma_find_in_bounds<A>(s: Seq<A>, from: int, to: int, pat: Seq<A>)
    ensures
        find_in(s, from, to, pat) matches Some(i) ==> from <= i && i + pat.len() <= to
            && occurs_at(s, i, pat),
    decreases to - from + 1,
{
    if !(from < 0 || from > to || from + pat.len() > to) && !occurs_at(s, from, pat) {
        lemma_find_in_bounds(s, from + 1, to, pat);
    }
}

/// `pat` occurs in `v` at `pos`.
pub fn chars_at(v: &Vec<char>, pos: usize, pat: &[char]) -> (r: bool)
    requires
        pos <= v@.len(),
    ensures
        r == occurs_at(v@, pos as int, pat@),
{
    let n = v.len();
    if pat.len() > n - pos {
        return false;
    }
    let mut k: usize = 0;
    while k < pat.len()
        invariant
            n == v@.len(),
            pos + pat@.len() <= n,
            k <= pat@.len(),
            forall|j: int| 0 <= j < k ==> v@[pos + j] == pat@[j],
        decreases pat@.len() - k,
    {
        if v[pos + k] != pat[k] {
            assert(v@.subrange(pos as int, pos + pat@.len())[k as int] != pat@[k as int]);
            return false;
        }
        k += 1;
    }
    assert(v@.subrange(pos as int, pos + pat@.len()) =~= pat@);
    true
}

/// `v` begins with `pat`.
pub fn starts_with_chars(v: &Vec<char>, pat: &[char]) -> (r: bool)
    ensures
        r == has_prefix(v@, pat@),
{
    let r = chars_at(v, 0, pat);
    assert(r ==> v@.take(pat@.len() as int) =~= v@.subrange(0, pat@.len() as int));
    assert(has_prefix(v@, pat@) ==> v@.take(pat@.len() as int) =~= v@.subrange(
        0,
        pat@.len() as int,
    ));
    r
}

/// The first position at or after `from` where the non-empty `pat` occurs
/// in `v`.
pub fn find_chars(v: &Vec<char>, from: usize, pat: &[char]) -> (r: Option<usize>)
    requires
        from <= v@.len(),
        pat@.len() > 0,
    ensures
        match r {
            Some(i) => find_in(v@, from as int, v@.len() as int, pat@) == Some(i as int),
            None => find_in(v@, from as int, v@.len() as int, pat@) is None,
        },
{
    let to = v.len();
    let mut i = from;
    while i <= to && pat.len() <= to - i
        invariant
            from <= i,
            to == v@.len(),
            pat@.len() > 0,
            find_in(v@, from as int, to as int, pat@) == find_in(v@, i as int, to as int, pat@),
        decreases to - i + 1,
    {
        if chars_at(v, i, pat) {
            return Some(i);
        }
        i += 1;
    }
    None
}

// ---------------------------------------------------------------------------
// Whitespace-separated tokens
// ---------------------------------------------------------------------------

/// A character with the Unicode `White_Space` property, which is what
/// `char::is_whitespace` tests.
pub open spec fn is_ws(c: char) -> bool {
    ('\t' <= c <= '\r') || c == ' ' || c == '\u{85}' || c == '\u{a0}' || c == '\u{1680}' || (
    '\u{2000}' <= c <= '\u{200a}') || c == '\u{2028}' || c == '\u{2029}' || c == '\u{202f}' || c
        == '\u{205f}' || c == '\u{3000}'
}

/// `char::is_whitespace`.
pub fn char_is_ws(c: char) -> (r: bool)
    ensures
        r == is_ws(c),
{
    ('\t' <= c && c <= '\r') || c == ' ' || c == '\u{85}' || c == '\u{a0}' || c == '\u{1680}' || (
    '\u{2000}' <= c && c <= '\u{200a}') || c == '\u{2028}' || c == '\u{2029}' || c == '\u{202f}'
        || c == '\u{205f}' || c == '\u{3000}'
}

/// The first index at or after `from` whose character is (when `ws`) or
/// is not (when `!ws`) whitespace, or `s.len()`.
pub open spec fn skip_to(s: Seq<char>, from: int, ws: bool) -> int
    decreases s.len() - from,
{
    if from >= s.len() || from < 0 {
        if from < 0 { 0 } else { from }
    } else if is_ws(s[from]) == ws {
        from
    } else {
        skip_to(s, from + 1, ws)
    }
}

pub proof fn lemma_skip_to_bounds(s: Seq<char>, from: int, ws: bool)
    requires
        0 <= from,
    ensures
        from <= skip_to(s, from, ws),
        from <= s.len() ==> skip_to(s, from, ws) <= s.len(),
    decreases s.len() - from,
{
    if from < s.len() && is_ws(s[from]) != ws {
        lemma_skip_to_bounds(s, from + 1, ws);
    }
}

/// The whitespace-separated tokens of `s` from index `from` on, as
/// `str::split_whitespace` yields them.
pub open spec fn tokens_from(s: Seq<char>, from: int) -> Seq<Seq<char>>
    decreases s.len() - from,
{
    if from < 0 || from >= s.len() {
        Seq::empty()
    } else {
        let q = skip_to(s, from, false);
        let e = skip_to(s, q, true);
        proof {
            lemma_skip_to_bounds(s, from, false);
            lemma_skip_to_bounds(s, q, true);
        }
        if q >= s.len() {
            Seq::empty()
        } else if e <= from {
            Seq::empty()
        } else {
            seq![s.subrange(q, e)] + tokens_from(s, e)
        }
    }
}

/// The whitespace-separated tokens of `s`.
pub open spec fn spec_tokens(s: Seq<char>) -> Seq<Seq<char>> {
    tokens_from(s, 0)
}

/// The character ranges of the whitespace-separated tokens of `v`.
pub fn token_ranges(v: &Vec<char>) -> (r: Vec<(usize, usize)>)
    ensures
        ranges_within(v@, r@),
        range_contents(v@, r@) == spec_tokens(v@),
{
    let n = v.len();
    let mut r: Vec<(usize, usize)> = Vec::new();
    let mut p: usize = 0;
    assert(range_contents(v@, r@) =~= Seq::<Seq<char>>::empty());
    while p < n
        invariant
            n == v@.len(),
            p <= n,
            ranges_within(v@, r@),
            range_contents(v@, r@) + tokens_from(v@, p as int) == spec_tokens(v@),
        decreases n - p,
    {
        let mut q = p;
        while q < n && char_is_ws(v[q])
            invariant
                p <= q <= n,
                n == v@.len(),
                skip_to(v@, p as int, false) == skip_to(v@, q as int, false),
            decreases n - q,
        {
            q += 1;
        }
        if q == n {
            assert(tokens_from(v@, p as int) =~= Seq::<Seq<char>>::empty());
            assert(range_contents(v@, r@) + Seq::<Seq<char>>::empty() =~= range_contents(v@, r@));
            p = n;
        } else {
            let mut e = q;
            while e < n && !char_is_ws(v[e])
                invariant
                    q <= e <= n,
                    n == v@.len(),
                    skip_to(v@, q as int, true) == skip_to(v@, e as int, true),
                decreases n - e,
            {
                e += 1;
            }
            let ghost old_r = r@;
            r.push((q, e));
            assert(range_contents(v@, r@) =~= range_contents(v@, old_r) + seq![
                v@.subrange(q as int, e as int),
            ]);
            p = e;
        }
    }
    assert(tokens_from(v@, p as int) =~= Seq::<Seq<char>>::empty());
    assert(range_contents(v@, r@) + Seq::<Seq<char>>::empty() =~= range_contents(v@, r@));
    r
}


// ---------------------------------------------------------------------------
// Building strings
// ---------------------------------------------------------------------------

/// `String::push`: appends one character.
#[verifier::external_body]
pub(crate) fn push_char(s: &mut String, c: char)
    ensures
        final(s)@ == old(s)@.push(c),
{
    s.push(c);
}

/// Appends the characters `cs`, in order.
pub fn push_chars(s: &mut String, cs: &[char])
    ensures
        final(s)@ == old(s)@ + cs@,
{
    let mut i: usize = 0;
    while i < cs.len()
        invariant
            i <= cs@.len(),
            s@ == old(s)@ + cs@.take(i as int),
        decreases cs@.len() - i,
    {
        push_char(s, cs[i]);
        assert(old(s)@ + cs@.take(i + 1) =~= (old(s)@ + cs@.take(i as int)).push(cs@[i as int]));
        i += 1;
    }
    assert(cs@.take(i as int) =~= cs@);
}

/// The ASCII digit for `d`, for `0 <= d <= 9`.
pub open spec fn digit_char(d: int) -> char {
    (d + 48) as char
}

/// The ASCII digit for `d`.
pub fn to_digit_char(d: u32) -> (c: char)
    requires
        d <= 9,
    ensures
        c == digit_char(d as int),
{
    ((d + 48) as u8) as char
}

/// The decimal digits of `n`, most significant first, with no leading
/// zero (`0` itself is one digit).
pub open spec fn decimal(n: nat) -> Seq<char>
    decreases n,
{
    if n < 10 {
        seq![digit_char(n as int)]
    } else {
        decimal(n / 10).push(digit_char((n % 10) as int))
    }
}

/// Appends the decimal digits of `n`.
pub fn push_decimal(s: &mut String, n: u64)
    ensures
        final(s)@ == old(s)@ + decimal(n as nat),
    decreases n,
{
    if n >= 10 {
        push_decimal(s, n / 10);
    }
    push_char(s, to_digit_char((n % 10) as u32));
    proof {
        if n < 10 {
            assert(n % 10 == n);
        }
    }
}

} // verus!
