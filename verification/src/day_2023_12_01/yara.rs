//! The puzzle as a multi-pattern scanner sees it: nineteen strings, `$d0`
//! to `$d9` for the digits and `$w1` to `$w9` for the words, every
//! occurrence of every string reported with its offset, grouped by string
//! rather than sorted by offset.
//!
//! What this module holds is everything around the scan itself: the rule
//! text the scanner is compiled from, the checks made before a line is
//! scanned, and how the reported matches become a calibration value.

use vstd::prelude::*;

use crate::day_2023_12_01::{digits_from, spec_calibration, spec_digit_at, word_from, word_text};
use crate::text::{
    bytes_of, decimal, digit_char, digit_val, has_prefix, is_digit, occurs_at, push_chars,
    push_char, push_decimal, to_digit_char,
};
use crate::encoding::{
    ascii_bytes, byte_offset, lemma_ascii_byte, lemma_ascii_occurs_at, lemma_char_bytes,
    lemma_offset_end, lemma_offset_mono, lemma_scalar_bytes,
};
use vstd::utf8::{char_u32_cast, encode_scalar, encode_utf8, is_ascii_chars};

verus! {

/// One reported match: where it starts, and which declared string it is.
#[derive(Debug, Clone, Copy, PartialEq, Eq, Structural)]
pub struct Match {
    pub offset: u64,
    pub string_index: u32,
}

/// Why a line got no calibration value from the scanner.
#[derive(Debug, Clone, Copy, PartialEq, Eq, Structural)]
pub enum ScanError {
    /// The line is longer than the scratch buffer the scanner was built for.
    LineTooLong { len: usize, capacity: usize },
    /// The scan reported more matches than the scratch buffer holds.
    TooManyMatches,
    /// The scan itself failed with this status.
    ScanFailed(i32),
    /// A match names a string the rule does not declare.
    UnknownString,
}

/// The text of a scan error.
pub open spec fn error_text(e: ScanError) -> Seq<char> {
    match e {
        ScanError::LineTooLong { len, capacity } => "line of "@ + decimal(len as nat)
            + " bytes exceeds the "@ + decimal(capacity as nat)
            + "-byte scratch buffer this scanner was built for"@,
        ScanError::TooManyMatches => "more matches than the scratch buffer holds \u{2014} the one-match-per-byte bound in Scanner::new no longer holds"@,
        ScanError::ScanFailed(status) => "yr_rules_scan_mem failed ("@ + (if status < 0 {
            seq!['-']
        } else {
            Seq::empty()
        }) + decimal(if status < 0 {
            (-status) as nat
        } else {
            status as nat
        }) + ")"@,
        ScanError::UnknownString => "YARA reported a string index outside the compiled rule"@,
    }
}

impl ScanError {
    /// What went wrong, in words.
    pub fn message(&self) -> (m: String)
        ensures
            m@ == error_text(*self),
    {
        let mut m = String::new();
        match *self {
            ScanError::LineTooLong { len, capacity } => {
                m.append("line of ");
                push_decimal(&mut m, len as u64);
                m.append(" bytes exceeds the ");
                push_decimal(&mut m, capacity as u64);
                m.append("-byte scratch buffer this scanner was built for");
            },
            ScanError::TooManyMatches => {
                m.append(
                    "more matches than the scratch buffer holds \u{2014} the one-match-per-byte bound in Scanner::new no longer holds",
                );
            },
            ScanError::ScanFailed(status) => {
                m.append("yr_rules_scan_mem failed (");
                if status < 0 {
                    push_char(&mut m, '-');
                    push_decimal(&mut m, (0i64 - status as i64) as u64);
                } else {
                    push_decimal(&mut m, status as u64);
                }
                m.append(")");
            },
            ScanError::UnknownString => {
                m.append("YARA reported a string index outside the compiled rule");
            },
        }
        m
    }
}

/// Which rule set a scanner is compiled from, and how many matches its
/// scratch buffer holds: one per byte of the longest line.
#[derive(Debug, Clone, Copy)]
pub struct Scanner {
    words: bool,
    capacity: usize,
}

/// The value the declared string with this index stands for: `$d0..$d9`
/// are indices 0..=9, `$w1..$w9` are 10..=18.
pub open spec fn spec_value_of(string_index: u32) -> Option<u32> {
    if string_index <= 9 {
        Some(string_index)
    } else if 10 <= string_index <= 18 {
        Some((string_index - 9) as u32)
    } else {
        None
    }
}

/// The rule line declaring the digit `d`: `    $dD = "D"`.
pub open spec fn digit_rule_line(d: int) -> Seq<char> {
    seq![' ', ' ', ' ', ' ', '$', 'd', digit_char(d), ' ', '=', ' ', '"', digit_char(d), '"', '\n']
}

/// The rule line declaring the word with value `v`: `    $wV = "word"`.
pub open spec fn word_rule_line(v: int) -> Seq<char> {
    seq![' ', ' ', ' ', ' ', '$', 'w', digit_char(v), ' ', '=', ' ', '"'] + word_text(v) + seq![
        '"',
        '\n',
    ]
}

/// The digit lines for `0 .. n - 1`, in order.
pub open spec fn digit_rule_lines(n: int) -> Seq<char>
    decreases n,
{
    if n <= 0 {
        Seq::empty()
    } else {
        digit_rule_lines(n - 1) + digit_rule_line(n - 1)
    }
}

/// The word lines for `1 .. n`, in order.
pub open spec fn word_rule_lines(n: int) -> Seq<char>
    decreases n,
{
    if n <= 0 {
        Seq::empty()
    } else {
        word_rule_lines(n - 1) + word_rule_line(n)
    }
}

/// The opening of the rule, up to its string declarations.
pub open spec fn rule_head() -> Seq<char> {
    seq![
        'r', 'u', 'l', 'e', ' ', 'c', 'a', 'l', 'i', 'b', 'r', 'a', 't', 'i', 'o', 'n', ' ', '{',
        '\n', ' ', ' ', 's', 't', 'r', 'i', 'n', 'g', 's', ':', '\n',
    ]
}

/// The close of the rule: it fires on any of its strings.
pub open spec fn rule_tail() -> Seq<char> {
    seq![
        ' ', ' ', 'c', 'o', 'n', 'd', 'i', 't', 'i', 'o', 'n', ':', '\n', ' ', ' ', ' ', ' ', 'a',
        'n', 'y', ' ', 'o', 'f', ' ', 't', 'h', 'e', 'm', '\n', '}', '\n',
    ]
}

/// The rule text: the ten digits always, in order, the nine words after
/// them only for part two. Declaration order is what [`spec_value_of`]
/// inverts.
pub open spec fn spec_rule_source(words: bool) -> Seq<char> {
    rule_head() + digit_rule_lines(10) + (if words {
        word_rule_lines(9)
    } else {
        Seq::empty()
    }) + rule_tail()
}

/// `i` is the first of the matches with the least offset.
pub open spec fn is_first_min(ms: Seq<Match>, i: int) -> bool {
    &&& 0 <= i < ms.len()
    &&& forall|j: int| 0 <= j < ms.len() ==> ms[i].offset <= #[trigger] ms[j].offset
    &&& forall|j: int| 0 <= j < i ==> ms[i].offset < #[trigger] ms[j].offset
}

/// `i` is the last of the matches with the greatest offset.
pub open spec fn is_last_max(ms: Seq<Match>, i: int) -> bool {
    &&& 0 <= i < ms.len()
    &&& forall|j: int| 0 <= j < ms.len() ==> #[trigger] ms[j].offset <= ms[i].offset
    &&& forall|j: int| i < j < ms.len() ==> #[trigger] ms[j].offset < ms[i].offset
}

/// The first match with the least offset: the line's first digit.
pub open spec fn first_match(ms: Seq<Match>) -> int {
    choose|i: int| is_first_min(ms, i)
}

/// The last match with the greatest offset: the line's last digit.
pub open spec fn last_match(ms: Seq<Match>) -> int {
    choose|i: int| is_last_max(ms, i)
}

/// The calibration value a successful scan's matches give.
pub open spec fn spec_from_matches(ms: Seq<Match>) -> Result<u32, ScanError> {
    if ms.len() == 0 {
        Ok(0)
    } else {
        match (
            spec_value_of(ms[first_match(ms)].string_index),
            spec_value_of(ms[last_match(ms)].string_index),
        ) {
            (Some(a), Some(b)) => Ok((a * 10 + b) as u32),
            _ => Err(ScanError::UnknownString),
        }
    }
}

proof fn lemma_first_min_unique(ms: Seq<Match>, i: int, k: int)
    requires
        is_first_min(ms, i),
        is_first_min(ms, k),
    ensures
        i == k,
{
    if i < k {
        assert(ms[k].offset < ms[i].offset);
    } else if k < i {
        assert(ms[i].offset < ms[k].offset);
    }
}

proof fn lemma_last_max_unique(ms: Seq<Match>, i: int, k: int)
    requires
        is_last_max(ms, i),
        is_last_max(ms, k),
    ensures
        i == k,
{
    if i < k {
        assert(ms[k].offset < ms[i].offset);
    } else if k < i {
        assert(ms[i].offset < ms[k].offset);
    }
}

impl Scanner {
    /// A scanner for part one (digits only) or, with `words`, part two, whose
    /// scratch buffer holds `longest_line` matches.
    pub fn new(words: bool, longest_line: usize) -> (s: Scanner)
        ensures
            s.words() == words,
            s.capacity() == longest_line,
    {
        Scanner { words, capacity: longest_line }
    }

    /// Whether the spelled-out words are among the rule's strings.
    pub closed spec fn words(&self) -> bool {
        self.words
    }

    /// How many matches the scratch buffer holds.
    pub closed spec fn capacity(&self) -> usize {
        self.capacity
    }

    /// How many matches the scratch buffer holds.
    pub fn buffer_len(&self) -> (n: usize)
        ensures
            n == self.capacity(),
    {
        self.capacity
    }

    /// Inverts the declaration order of the rule's strings.
    pub fn value_of(string_index: u32) -> (r: Option<u32>)
        ensures
            r == spec_value_of(string_index),
    {
        if string_index <= 9 {
            Some(string_index)
        } else if 10 <= string_index && string_index <= 18 {
            Some(string_index - 9)
        } else {
            None
        }
    }

    /// The rule text this scanner is compiled from.
    pub fn rule_source(&self) -> (src: String)
        ensures
            src@ == spec_rule_source(self.words()),
    {
        let head: [char; 30] = [
            'r', 'u', 'l', 'e', ' ', 'c', 'a', 'l', 'i', 'b', 'r', 'a', 't', 'i', 'o', 'n', ' ', '{',
            '\n', ' ', ' ', 's', 't', 'r', 'i', 'n', 'g', 's', ':', '\n',
        ];
        let tail: [char; 31] = [
            ' ', ' ', 'c', 'o', 'n', 'd', 'i', 't', 'i', 'o', 'n', ':', '\n', ' ', ' ', ' ', ' ', 'a',
            'n', 'y', ' ', 'o', 'f', ' ', 't', 'h', 'e', 'm', '\n', '}', '\n',
        ];
        assert(head@ =~= rule_head());
        assert(tail@ =~= rule_tail());
        let mut src = String::new();
        push_chars(&mut src, head.as_slice());
        assert(src@ =~= rule_head());
        let mut d: u32 = 0;
        while d <= 9
            invariant
                d <= 10,
                src@ == rule_head() + digit_rule_lines(d as int),
            decreases 10 - d,
        {
            let c = to_digit_char(d);
            let line: [char; 14] = [' ', ' ', ' ', ' ', '$', 'd', c, ' ', '=', ' ', '"', c, '"', '\n'];
            assert(line@ =~= digit_rule_line(d as int));
            push_chars(&mut src, line.as_slice());
            assert(src@ =~= rule_head() + digit_rule_lines(d + 1));
            d += 1;
        }
        let ghost after_digits = src@;
        if self.words {
            let mut v: u32 = 1;
            assert(src@ =~= after_digits + word_rule_lines(0));
            while v <= 9
                invariant
                    1 <= v <= 10,
                    src@ == after_digits + word_rule_lines(v - 1),
                decreases 10 - v,
            {
                let c = to_digit_char(v);
                let open: [char; 11] = [' ', ' ', ' ', ' ', '$', 'w', c, ' ', '=', ' ', '"'];
                let close: [char; 2] = ['"', '\n'];
                push_chars(&mut src, open.as_slice());
                let w = word_chars(v);
                push_chars(&mut src, w.as_slice());
                push_chars(&mut src, close.as_slice());
                assert(open@ + word_text(v as int) + close@ =~= word_rule_line(v as int));
                assert(src@ =~= after_digits + word_rule_lines(v as int));
                v += 1;
            }
            push_chars(&mut src, tail.as_slice());
            assert(src@ =~= spec_rule_source(self.words()));
        } else {
            push_chars(&mut src, tail.as_slice());
            assert(src@ =~= spec_rule_source(self.words()));
        }
        src
    }

    /// What is decided about a line before it is scanned: an empty line is
    /// worth 0, and a line with more bytes than the scratch buffer has room
    /// for is refused. `None` means the line goes to the scanner.
    pub fn precheck(&self, line: &str) -> (r: Option<Result<u32, ScanError>>)
        ensures
            r == (if bytes_of(line).len() == 0 {
                Some(Ok::<u32, ScanError>(0))
            } else if bytes_of(line).len() > self.capacity() {
                Some(
                    Err::<u32, ScanError>(
                        ScanError::LineTooLong {
                            len: bytes_of(line).len() as usize,
                            capacity: self.capacity(),
                        },
                    ),
                )
            } else {
                None
            }),
    {
        let n = line.as_bytes().len();
        if n == 0 {
            return Some(Ok(0));
        }
        if n > self.capacity {
            return Some(Err(ScanError::LineTooLong { len: n, capacity: self.capacity }));
        }
        None
    }

    /// The calibration value from a finished scan: `status` is what the scan
    /// reported (`0` for success, `-1` for more matches than the buffer
    /// holds) and `matches` the matches it wrote. The first digit is the
    /// match with the least offset, the last the one with the greatest, not
    /// the first and last reported: the scanner groups its report by string.
    pub fn finish(&self, status: i32, matches: &[Match]) -> (r: Result<u32, ScanError>)
        ensures
            r == (if status == -1 {
                Err::<u32, ScanError>(ScanError::TooManyMatches)
            } else if status != 0 {
                Err::<u32, ScanError>(ScanError::ScanFailed(status))
            } else {
                spec_from_matches(matches@)
            }),
    {
        if status == -1 {
            return Err(ScanError::TooManyMatches);
        }
        if status != 0 {
            return Err(ScanError::ScanFailed(status));
        }
        from_matches(matches)
    }
}

/// The characters of the word with value `v`.
fn word_chars(v: u32) -> (w: Vec<char>)
    requires
        1 <= v <= 9,
    ensures
        w@ == word_text(v as int),
{
    let w = if v == 1 {
        vec!['o', 'n', 'e']
    } else if v == 2 {
        vec!['t', 'w', 'o']
    } else if v == 3 {
        vec!['t', 'h', 'r', 'e', 'e']
    } else if v == 4 {
        vec!['f', 'o', 'u', 'r']
    } else if v == 5 {
        vec!['f', 'i', 'v', 'e']
    } else if v == 6 {
        vec!['s', 'i', 'x']
    } else if v == 7 {
        vec!['s', 'e', 'v', 'e', 'n']
    } else if v == 8 {
        vec!['e', 'i', 'g', 'h', 't']
    } else {
        vec!['n', 'i', 'n', 'e']
    };
    assert(w@ =~= word_text(v as int));
    w
}

/// The calibration value a successful scan's matches give.
pub fn from_matches(matches: &[Match]) -> (r: Result<u32, ScanError>)
    ensures
        r == spec_from_matches(matches@),
{
    let n = matches.len();
    if n == 0 {
        return Ok(0);
    }
    let ghost ms = matches@;
    let mut lo: usize = 0;
    let mut hi: usize = 0;
    let mut i: usize = 1;
    while i < n
        invariant
            n == ms.len(),
            ms == matches@,
            1 <= i <= n,
            lo < i,
            hi < i,
            forall|j: int| 0 <= j < i ==> ms[lo as int].offset <= #[trigger] ms[j].offset,
            forall|j: int| 0 <= j < lo ==> ms[lo as int].offset < #[trigger] ms[j].offset,
            forall|j: int| 0 <= j < i ==> #[trigger] ms[j].offset <= ms[hi as int].offset,
            forall|j: int| hi < j < i ==> #[trigger] ms[j].offset < ms[hi as int].offset,
        decreases n - i,
    {
        if matches[i].offset < matches[lo].offset {
            lo = i;
        }
        if matches[i].offset >= matches[hi].offset {
            hi = i;
        }
        i += 1;
    }
    proof {
        assert(is_first_min(ms, lo as int));
        assert(is_last_max(ms, hi as int));
        lemma_first_min_unique(ms, lo as int, first_match(ms));
        lemma_last_max_unique(ms, hi as int, last_match(ms));
    }
    let first = Scanner::value_of(matches[lo].string_index);
    let last = Scanner::value_of(matches[hi].string_index);
    match (first, last) {
        (Some(a), Some(b)) => Ok(a * 10 + b),
        _ => Err(ScanError::UnknownString),
    }
}

/// No two matches start at the same offset: no two of the words are a
/// prefix of one another, and a digit and a word never start alike.
pub open spec fn distinct_offsets(ms: Seq<Match>) -> bool {
    forall|i: int, j: int|
        0 <= i < ms.len() && 0 <= j < ms.len() && i != j ==> #[trigger] ms[i].offset
            != #[trigger] ms[j].offset
}

proof fn lemma_extremes_exist(ms: Seq<Match>)
    requires
        ms.len() > 0,
    ensures
        is_first_min(ms, first_match(ms)),
        is_last_max(ms, last_match(ms)),
    decreases ms.len(),
{
    if ms.len() == 1 {
        assert(is_first_min(ms, 0));
        assert(is_last_max(ms, 0));
    } else {
        let init = ms.drop_last();
        lemma_extremes_exist(init);
        let lo = first_match(init);
        let hi = last_match(init);
        let n = ms.len() - 1;
        assert(forall|j: int| 0 <= j < n ==> ms[j] == init[j]);
        if ms[n].offset < ms[lo].offset {
            assert(is_first_min(ms, n));
        } else {
            assert(is_first_min(ms, lo));
        }
        if ms[n].offset >= ms[hi].offset {
            assert(is_last_max(ms, n));
        } else {
            assert(is_last_max(ms, hi));
        }
    }
}

proof fn lemma_same_extremes(ms: Seq<Match>, other: Seq<Match>)
    requires
        ms.len() > 0,
        ms.to_multiset() == other.to_multiset(),
        distinct_offsets(ms),
    ensures
        other.len() > 0,
        other[first_match(other)] == ms[first_match(ms)],
        other[last_match(other)] == ms[last_match(ms)],
{
    ms.to_multiset_ensures();
    other.to_multiset_ensures();
    assert(other.len() == ms.len());
    lemma_extremes_exist(ms);
    lemma_extremes_exist(other);
    let a = first_match(ms);
    let b = first_match(other);
    assert(ms.contains(ms[a]));
    assert(other.to_multiset().count(ms[a]) > 0);
    assert(other.contains(ms[a]));
    let ja = choose|j: int| 0 <= j < other.len() && other[j] == ms[a];
    assert(other.contains(other[b]));
    assert(ms.to_multiset().count(other[b]) > 0);
    assert(ms.contains(other[b]));
    let jb = choose|j: int| 0 <= j < ms.len() && ms[j] == other[b];
    assert(other[b].offset <= other[ja].offset);
    assert(ms[a].offset <= ms[jb].offset);
    assert(jb == a);
    let c = last_match(ms);
    let d = last_match(other);
    assert(ms.contains(ms[c]));
    assert(other.to_multiset().count(ms[c]) > 0);
    assert(other.contains(ms[c]));
    let jc = choose|j: int| 0 <= j < other.len() && other[j] == ms[c];
    assert(other.contains(other[d]));
    assert(ms.to_multiset().count(other[d]) > 0);
    assert(ms.contains(other[d]));
    let jd = choose|j: int| 0 <= j < ms.len() && ms[j] == other[d];
    assert(other[jc].offset <= other[d].offset);
    assert(ms[jd].offset <= ms[c].offset);
    assert(jd == c);
}

/// The calibration value comes from the offsets, not from the order the
/// scanner reports its matches in: any reordering of the same matches
/// gives the same answer, since no two of them start at the same offset.
pub proof fn law_report_order_is_irrelevant(ms: Seq<Match>, other: Seq<Match>)
    requires
        ms.to_multiset() == other.to_multiset(),
        distinct_offsets(ms),
    ensures
        spec_from_matches(ms) == spec_from_matches(other),
{
    ms.to_multiset_ensures();
    other.to_multiset_ensures();
    if ms.len() > 0 {
        lemma_same_extremes(ms, other);
    } else {
        assert(other.len() == ms.len());
    }
}

/// The bytes of the string declared with index `i`: the digit `i` for
/// `$d0..$d9`, the word with value `i - 9` for `$w1..$w9`.
pub open spec fn declared_bytes(i: int) -> Seq<u8> {
    if 0 <= i <= 9 {
        seq![(48 + i) as u8]
    } else {
        word_text(i - 9).map_values(|c: char| c as u8)
    }
}

/// At most one of the declared strings starts at any offset of any text: a
/// digit never starts like a word, and no word starts like another (`two`
/// and `three`, `four` and `five`, `six` and `seven` part at their second
/// letter). So a scan reports at most one match per byte, and no two of
/// its matches share an offset.
pub proof fn law_one_string_per_offset(s: Seq<u8>, p: int, a: int, b: int)
    requires
        0 <= a < 19,
        0 <= b < 19,
        a != b,
    ensures
        !(occurs_at(s, p, declared_bytes(a)) && occurs_at(s, p, declared_bytes(b))),
{
    let x = declared_bytes(a);
    let y = declared_bytes(b);
    if occurs_at(s, p, x) && occurs_at(s, p, y) {
        assert(x.len() >= 1 && y.len() >= 1);
        assert(x[0] == s[p]) by {
            assert(s.subrange(p, p + x.len())[0] == s[p]);
        }
        assert(y[0] == s[p]) by {
            assert(s.subrange(p, p + y.len())[0] == s[p]);
        }
        if x.len() >= 2 && y.len() >= 2 {
            assert(x[1] == s[p + 1]) by {
                assert(s.subrange(p, p + x.len())[1] == s[p + 1]);
            }
            assert(y[1] == s[p + 1]) by {
                assert(s.subrange(p, p + y.len())[1] == s[p + 1]);
            }
        }
        assert(false);
    }
}


/// The digit `i` occurs among a text's bytes, from the offset of
/// character `k`, exactly where character `k` is that digit.
proof fn lemma_digit_occurs(s: Seq<char>, k: int, i: int)
    requires
        0 <= k <= s.len(),
        0 <= i <= 9,
    ensures
        occurs_at(encode_utf8(s), byte_offset(s, k), declared_bytes(i)) == (k < s.len()
            && is_digit(s[k]) && digit_val(s[k]) == i),
{
    let e = encode_utf8(s);
    let o = byte_offset(s, k);
    let d = declared_bytes(i);
    assert(d.len() == 1);
    lemma_offset_end(s);
    if occurs_at(e, o, d) {
        assert(e[o] == d[0]) by {
            assert(e.subrange(o, o + 1)[0] == e[o]);
        }
        let c = lemma_ascii_byte(s, o);
        if c < k {
            lemma_offset_mono(s, c, k);
        } else if c > k {
            lemma_offset_mono(s, k, c);
        }
        assert(c == k);
        assert((s[k] as u32) == 48 + i);
        char_u32_cast(s[k], s[k] as u32);
    }
    if k < s.len() && is_digit(s[k]) && digit_val(s[k]) == i {
        lemma_char_bytes(s, k);
        lemma_scalar_bytes(s[k]);
        assert((s[k] as u32) == 48 + i);
        assert(e[byte_offset(s, k) + 0] == encode_scalar(s[k] as u32)[0]);
        assert(e.subrange(o, o + 1) =~= d);
    }
}

/// The word with value `v` occurs among a text's bytes, from the offset of
/// character `k`, exactly where the text from `k` on starts with it.
proof fn lemma_word_occurs(s: Seq<char>, k: int, v: int)
    requires
        0 <= k <= s.len(),
        1 <= v <= 9,
    ensures
        occurs_at(encode_utf8(s), byte_offset(s, k), declared_bytes(v + 9)) == has_prefix(
            s.subrange(k, s.len() as int),
            word_text(v),
        ),
{
    let w = word_text(v);
    assert(is_ascii_chars(w));
    lemma_ascii_occurs_at(s, k, w);
    assert(declared_bytes(v + 9) == ascii_bytes(w));
    let t = s.subrange(k, s.len() as int);
    if w.len() <= t.len() {
        assert(t.take(w.len() as int) =~= s.subrange(k, k + w.len()));
    }
}

/// The first byte of every string of the rule is ASCII.
proof fn lemma_declared_first_byte(i: int)
    requires
        0 <= i <= 18,
    ensures
        declared_bytes(i).len() >= 1,
        declared_bytes(i)[0] < 128,
{
    if i >= 10 {
        let w = word_text(i - 9);
        assert(is_ascii_chars(w));
        assert(w[0] <= '\u{7f}');
        assert((w[0] as u32) < 128);
        assert(w[0] as u8 == (w[0] as u32) as u8);
    }
}

/// A string of the rule found at a byte offset starts at a character.
proof fn lemma_occurrence_at_char(s: Seq<char>, p: int, i: int) -> (k: int)
    requires
        0 <= i <= 18,
        occurs_at(encode_utf8(s), p, declared_bytes(i)),
    ensures
        0 <= k < s.len(),
        byte_offset(s, k) == p,
{
    let e = encode_utf8(s);
    lemma_declared_first_byte(i);
    assert(e[p] == declared_bytes(i)[0]) by {
        assert(e.subrange(p, p + declared_bytes(i).len())[0] == e[p]);
    }
    lemma_ascii_byte(s, p)
}

/// No two of the words start a text alike: they part by their second
/// letter at the latest.
proof fn lemma_one_word_at(t: Seq<char>, v: int, w: int)
    requires
        1 <= v <= 9,
        1 <= w <= 9,
        has_prefix(t, word_text(v)),
        has_prefix(t, word_text(w)),
    ensures
        v == w,
{
    let x = word_text(v);
    let y = word_text(w);
    assert(x[0] == t[0] && x[1] == t[1]) by {
        assert(t.take(x.len() as int)[0] == t[0]);
        assert(t.take(x.len() as int)[1] == t[1]);
    }
    assert(y[0] == t[0] && y[1] == t[1]) by {
        assert(t.take(y.len() as int)[0] == t[0]);
        assert(t.take(y.len() as int)[1] == t[1]);
    }
}

proof fn lemma_word_from_is(s: Seq<char>, k: int, v: int, w: int)
    requires
        1 <= v <= w <= 9,
        has_prefix(s.subrange(k, s.len() as int), word_text(w)),
    ensures
        word_from(s, k, v) == Some(w as u32),
    decreases w - v,
{
    if v < w {
        if has_prefix(s.subrange(k, s.len() as int), word_text(v)) {
            lemma_one_word_at(s.subrange(k, s.len() as int), v, w);
        }
        lemma_word_from_is(s, k, v + 1, w);
    }
}

proof fn lemma_word_from_found(s: Seq<char>, k: int, v: int)
    ensures
        word_from(s, k, v) matches Some(w) ==> 1 <= w <= 9 && has_prefix(
            s.subrange(k, s.len() as int),
            word_text(w as int),
        ),
    decreases 10 - v,
{
    if 1 <= v <= 9 && !has_prefix(s.subrange(k, s.len() as int), word_text(v)) {
        lemma_word_from_found(s, k, v + 1);
    }
}

/// The string with index `i` is in the rule: the digits always, the words
/// only with `words`.
pub open spec fn is_declared(i: int, words: bool) -> bool {
    0 <= i <= 9 || (words && 10 <= i <= 18)
}

/// `ms` is what a complete scan of the bytes `b` reports, in whatever
/// order: each match is an occurrence of a string of the rule, and each
/// occurrence of a string of the rule is among the matches.
pub open spec fn is_complete_report(b: Seq<u8>, words: bool, ms: Seq<Match>) -> bool {
    &&& forall|k: int|
        0 <= k < ms.len() ==> is_declared(#[trigger] ms[k].string_index as int, words)
            && occurs_at(b, ms[k].offset as int, declared_bytes(ms[k].string_index as int))
    &&& forall|p: int, i: int|
        is_declared(i, words) && #[trigger] occurs_at(b, p, declared_bytes(i)) ==> exists|k: int|
            0 <= k < ms.len() && #[trigger] ms[k].offset == p && ms[k].string_index == i
}

/// A reported string starts at a character, where the plain scan reads
/// the digit it stands for.
proof fn lemma_match_value(s: Seq<char>, words: bool, p: int, i: int) -> (k: int)
    requires
        is_declared(i, words),
        occurs_at(encode_utf8(s), p, declared_bytes(i)),
    ensures
        0 <= k < s.len(),
        byte_offset(s, k) == p,
        spec_digit_at(s, k, words) == spec_value_of(i as u32),
{
    let k = lemma_occurrence_at_char(s, p, i);
    if i <= 9 {
        lemma_digit_occurs(s, k, i);
    } else {
        let v = i - 9;
        lemma_word_occurs(s, k, v);
        let t = s.subrange(k, s.len() as int);
        assert(t[0] == word_text(v)[0]) by {
            assert(t.take(word_text(v).len() as int)[0] == t[0]);
        }
        assert(!is_digit(s[k]));
        lemma_word_from_is(s, k, 1, v);
    }
    k
}

/// Where the plain scan reads a digit, a string of the rule occurs, from
/// that character's offset.
proof fn lemma_found_is_declared(s: Seq<char>, words: bool, k: int) -> (i: int)
    requires
        0 <= k < s.len(),
        spec_digit_at(s, k, words) is Some,
    ensures
        is_declared(i, words),
        occurs_at(encode_utf8(s), byte_offset(s, k), declared_bytes(i)),
{
    if is_digit(s[k]) {
        let i = digit_val(s[k]) as int;
        lemma_digit_occurs(s, k, i);
        i
    } else {
        lemma_word_from_found(s, k, 1);
        let w = word_from(s, k, 1)->0 as int;
        lemma_word_occurs(s, k, w);
        w + 9
    }
}

proof fn lemma_digits_none(s: Seq<char>, k: int, words: bool)
    requires
        0 <= k,
        forall|q: int| k <= q < s.len() ==> #[trigger] spec_digit_at(s, q, words) is None,
    ensures
        digits_from(s, k, words).len() == 0,
    decreases s.len() - k,
{
    if k < s.len() {
        assert(spec_digit_at(s, k, words) is None);
        lemma_digits_none(s, k + 1, words);
    }
}

proof fn lemma_digits_first(s: Seq<char>, k: int, words: bool, p: int)
    requires
        0 <= k <= p < s.len(),
        spec_digit_at(s, p, words) is Some,
        forall|q: int| k <= q < p ==> #[trigger] spec_digit_at(s, q, words) is None,
    ensures
        digits_from(s, k, words).len() > 0,
        digits_from(s, k, words)[0] == spec_digit_at(s, p, words)->0,
    decreases p - k,
{
    if k < p {
        assert(spec_digit_at(s, k, words) is None);
        lemma_digits_first(s, k + 1, words, p);
    }
}

proof fn lemma_digits_last(s: Seq<char>, k: int, words: bool, p: int)
    requires
        0 <= k <= p < s.len(),
        spec_digit_at(s, p, words) is Some,
        forall|q: int| p < q < s.len() ==> #[trigger] spec_digit_at(s, q, words) is None,
    ensures
        digits_from(s, k, words).len() > 0,
        digits_from(s, k, words).last() == spec_digit_at(s, p, words)->0,
    decreases p - k,
{
    if k < p {
        lemma_digits_last(s, k + 1, words, p);
    } else {
        lemma_digits_none(s, p + 1, words);
    }
}

/// A complete scan gives what the plain scan gives: folding every
/// occurrence of every string of the rule among a line's bytes, in
/// whatever order the scanner reports them, yields the line's calibration
/// value, digits and (with `words`) spelled-out digits alike, overlaps
/// included.
pub proof fn law_complete_report_gives_calibration(line: Seq<char>, words: bool, ms: Seq<Match>)
    requires
        is_complete_report(encode_utf8(line), words, ms),
    ensures
        spec_from_matches(ms) == Ok::<u32, ScanError>(spec_calibration(line, words) as u32),
{
    let b = encode_utf8(line);
    if exists|q: int| 0 <= q < line.len() && #[trigger] spec_digit_at(line, q, words) is Some {
        let q = choose|q: int| 0 <= q < line.len() && #[trigger] spec_digit_at(line, q, words) is Some;
        let i = lemma_found_is_declared(line, words, q);
        assert(occurs_at(b, byte_offset(line, q), declared_bytes(i)));
        assert(ms.len() > 0);
        lemma_extremes_exist(ms);
        let f = first_match(ms);
        let l = last_match(ms);
        assert(is_declared(ms[f].string_index as int, words));
        assert(is_declared(ms[l].string_index as int, words));
        let kf = lemma_match_value(line, words, ms[f].offset as int, ms[f].string_index as int);
        let kl = lemma_match_value(line, words, ms[l].offset as int, ms[l].string_index as int);
        assert forall|r: int| 0 <= r < kf implies #[trigger] spec_digit_at(line, r, words) is None by {
            if spec_digit_at(line, r, words) is Some {
                let j = lemma_found_is_declared(line, words, r);
                let p = byte_offset(line, r);
                assert(occurs_at(b, p, declared_bytes(j)));
                let k = choose|k: int| 0 <= k < ms.len() && #[trigger] ms[k].offset == p && ms[k].string_index == j;
                lemma_offset_mono(line, r, kf);
                assert(ms[f].offset <= ms[k].offset);
            }
        }
        assert forall|r: int| kl < r < line.len() implies #[trigger] spec_digit_at(line, r, words) is None by {
            if spec_digit_at(line, r, words) is Some {
                let j = lemma_found_is_declared(line, words, r);
                let p = byte_offset(line, r);
                assert(occurs_at(b, p, declared_bytes(j)));
                let k = choose|k: int| 0 <= k < ms.len() && #[trigger] ms[k].offset == p && ms[k].string_index == j;
                lemma_offset_mono(line, kl, r);
                assert(ms[k].offset <= ms[l].offset);
            }
        }
        lemma_digits_first(line, 0, words, kf);
        lemma_digits_last(line, 0, words, kl);
    } else {
        lemma_digits_none(line, 0, words);
        if ms.len() > 0 {
            assert(is_declared(ms[0].string_index as int, words));
            let k = lemma_match_value(line, words, ms[0].offset as int, ms[0].string_index as int);
            assert(spec_digit_at(line, k, words) is Some);
        }
    }
}

} // verus!
