//! Day 1 of 2023: Trebuchet?!
//!
//! Each line hides a two-digit calibration value: the first and last digit
//! in the line, combined (`a1b2c3d4e5f` gives `15`). In part 1 digits are
//! literal characters only; in part 2 they may also be spelled out (`one`
//! through `nine`), and spelled-out digits may overlap (`eightwo` is `8`
//! then `2`).

pub mod espeak;
pub mod yara;

use vstd::prelude::*;

use crate::text::{chars_of, has_prefix, lines_of, spec_lines, is_digit, digit_val};

verus! {

/// The spelled-out digit with value `v`, for `1 <= v <= 9`.
pub open spec fn word_text(v: int) -> Seq<char> {
    if v == 1 {
        seq!['o', 'n', 'e']
    } else if v == 2 {
        seq!['t', 'w', 'o']
    } else if v == 3 {
        seq!['t', 'h', 'r', 'e', 'e']
    } else if v == 4 {
        seq!['f', 'o', 'u', 'r']
    } else if v == 5 {
        seq!['f', 'i', 'v', 'e']
    } else if v == 6 {
        seq!['s', 'i', 'x']
    } else if v == 7 {
        seq!['s', 'e', 'v', 'e', 'n']
    } else if v == 8 {
        seq!['e', 'i', 'g', 'h', 't']
    } else {
        seq!['n', 'i', 'n', 'e']
    }
}

/// The spelled-out digit with value `v`.
pub fn word_for(v: u32) -> (w: &'static str)
    requires
        1 <= v <= 9,
    ensures
        w@ == word_text(v as int),
{
    proof {
        reveal_strlit("one");
        reveal_strlit("two");
        reveal_strlit("three");
        reveal_strlit("four");
        reveal_strlit("five");
        reveal_strlit("six");
        reveal_strlit("seven");
        reveal_strlit("eight");
        reveal_strlit("nine");
    }
    if v == 1 {
        "one"
    } else if v == 2 {
        "two"
    } else if v == 3 {
        "three"
    } else if v == 4 {
        "four"
    } else if v == 5 {
        "five"
    } else if v == 6 {
        "six"
    } else if v == 7 {
        "seven"
    } else if v == 8 {
        "eight"
    } else {
        "nine"
    }
}

/// The first word, trying `one` through `nine` from `v` on in that order,
/// that the text from index `k` starts with, and its value.
pub open spec fn word_from(s: Seq<char>, k: int, v: int) -> Option<u32>
    decreases 10 - v,
{
    if v < 1 || v > 9 {
        None
    } else if has_prefix(s.subrange(k, s.len() as int), word_text(v)) {
        Some(v as u32)
    } else {
        word_from(s, k, v + 1)
    }
}

/// The digit, or with `words` the spelled-out digit, that starts at index `k`.
pub open spec fn spec_digit_at(s: Seq<char>, k: int, words: bool) -> Option<u32> {
    if 0 <= k < s.len() && is_digit(s[k]) {
        Some(digit_val(s[k]) as u32)
    } else if words && 0 <= k <= s.len() {
        word_from(s, k, 1)
    } else {
        None
    }
}

/// Every digit found at index `k` or after, in order.
pub open spec fn digits_from(s: Seq<char>, k: int, words: bool) -> Seq<u32>
    decreases s.len() - k,
{
    if k < 0 || k >= s.len() {
        Seq::empty()
    } else {
        match spec_digit_at(s, k, words) {
            Some(d) => seq![d] + digits_from(s, k + 1, words),
            None => digits_from(s, k + 1, words),
        }
    }
}

/// A line's calibration value: its first digit times ten plus its last,
/// or 0 when it holds none.
pub open spec fn spec_calibration(s: Seq<char>, words: bool) -> nat {
    let ds = digits_from(s, 0, words);
    if ds.len() == 0 {
        0
    } else {
        (ds[0] * 10 + ds.last()) as nat
    }
}

/// The sum of the calibration values of `ls`.
pub open spec fn spec_total(ls: Seq<Seq<char>>, words: bool) -> nat
    decreases ls.len(),
{
    if ls.len() == 0 {
        0
    } else {
        spec_total(ls.drop_last(), words) + spec_calibration(ls.last(), words)
    }
}

proof fn lemma_digits_bound(s: Seq<char>, k: int, words: bool)
    ensures
        forall|i: int| 0 <= i < digits_from(s, k, words).len() ==> #[trigger] digits_from(s, k, words)[i] <= 9,
    decreases s.len() - k,
{
    if 0 <= k < s.len() {
        lemma_digits_bound(s, k + 1, words);
        lemma_word_from_bound(s, k, 1);
        let rest = digits_from(s, k + 1, words);
        match spec_digit_at(s, k, words) {
            Some(d) => {
                assert(d <= 9);
                assert forall|i: int| 0 <= i < digits_from(s, k, words).len() implies #[trigger] digits_from(s, k, words)[i] <= 9 by {
                    if i > 0 {
                        assert(digits_from(s, k, words)[i] == rest[i - 1]);
                    }
                }
            },
            None => {},
        }
    }
}

proof fn lemma_word_from_bound(s: Seq<char>, k: int, v: int)
    ensures
        word_from(s, k, v) matches Some(d) ==> 1 <= d <= 9,
    decreases 10 - v,
{
    if 1 <= v <= 9 && !has_prefix(s.subrange(k, s.len() as int), word_text(v)) {
        lemma_word_from_bound(s, k, v + 1);
    }
}

/// `pat` occurs in `v` at `k`.
fn matches_at(v: &Vec<char>, k: usize, pat: &[char]) -> (r: bool)
    requires
        k <= v@.len(),
    ensures
        r == has_prefix(v@.subrange(k as int, v@.len() as int), pat@),
{
    let n = v.len();
    if pat.len() > n - k {
        return false;
    }
    let mut j: usize = 0;
    while j < pat.len()
        invariant
            n == v@.len(),
            k + pat@.len() <= n,
            j <= pat@.len(),
            forall|i: int| 0 <= i < j ==> v@[k + i] == pat@[i],
        decreases pat@.len() - j,
    {
        if v[k + j] != pat[j] {
            assert(v@.subrange(k as int, n as int).take(pat@.len() as int)[j as int] != pat@[j as int]);
            return false;
        }
        j += 1;
    }
    assert(v@.subrange(k as int, n as int).take(pat@.len() as int) =~= pat@);
    true
}

/// The value of the first of `one` through `nine` that the text from index
/// `k` starts with.
fn word_at(v: &Vec<char>, k: usize) -> (r: Option<u32>)
    requires
        k <= v@.len(),
    ensures
        r == word_from(v@, k as int, 1),
{
    let w1: [char; 3] = ['o', 'n', 'e'];
    let w2: [char; 3] = ['t', 'w', 'o'];
    let w3: [char; 5] = ['t', 'h', 'r', 'e', 'e'];
    let w4: [char; 4] = ['f', 'o', 'u', 'r'];
    let w5: [char; 4] = ['f', 'i', 'v', 'e'];
    let w6: [char; 3] = ['s', 'i', 'x'];
    let w7: [char; 5] = ['s', 'e', 'v', 'e', 'n'];
    let w8: [char; 5] = ['e', 'i', 'g', 'h', 't'];
    let w9: [char; 4] = ['n', 'i', 'n', 'e'];
    assert(w1@ =~= word_text(1));
    assert(w2@ =~= word_text(2));
    assert(w3@ =~= word_text(3));
    assert(w4@ =~= word_text(4));
    assert(w5@ =~= word_text(5));
    assert(w6@ =~= word_text(6));
    assert(w7@ =~= word_text(7));
    assert(w8@ =~= word_text(8));
    assert(w9@ =~= word_text(9));
    proof {
        reveal_with_fuel(word_from, 10);
    }
    if matches_at(v, k, w1.as_slice()) {
        Some(1)
    } else if matches_at(v, k, w2.as_slice()) {
        Some(2)
    } else if matches_at(v, k, w3.as_slice()) {
        Some(3)
    } else if matches_at(v, k, w4.as_slice()) {
        Some(4)
    } else if matches_at(v, k, w5.as_slice()) {
        Some(5)
    } else if matches_at(v, k, w6.as_slice()) {
        Some(6)
    } else if matches_at(v, k, w7.as_slice()) {
        Some(7)
    } else if matches_at(v, k, w8.as_slice()) {
        Some(8)
    } else if matches_at(v, k, w9.as_slice()) {
        Some(9)
    } else {
        None
    }
}

/// The lines of a day's input.
#[derive(Debug, Clone)]
pub struct Day(pub Vec<String>);

impl Day {
    /// Splits the input into its lines.
    pub fn from_str(input: &str) -> (d: Day)
        ensures
            d.0@.len() == spec_lines(input@).len(),
            forall|i: int| 0 <= i < d.0@.len() ==> #[trigger] d.0@[i]@ == spec_lines(input@)[i],
    {
        Day(lines_of(input))
    }

    /// The lines, each as its characters.
    pub open spec fn line_views(&self) -> Seq<Seq<char>> {
        Seq::new(self.0@.len(), |i: int| self.0@[i]@)
    }

    /// The digit (or, with `words`, spelled-out digit) that starts at
    /// character index `k` of `line`.
    pub fn digit_at(line: &Vec<char>, k: usize, words: bool) -> (r: Option<u32>)
        requires
            k <= line@.len(),
        ensures
            r == spec_digit_at(line@, k as int, words),
    {
        if k < line.len() {
            let c = line[k];
            if '0' <= c && c <= '9' {
                return Some(c as u32 - '0' as u32);
            }
        }
        if words {
            word_at(line, k)
        } else {
            None
        }
    }

    /// First digit times ten plus last digit found in the line, scanning it
    /// character by character; 0 when the line holds no digit.
    pub fn calibration_value(line: &str, words: bool) -> (v: u32)
        ensures
            v == spec_calibration(line@, words),
            v <= 99,
    {
        let chars = chars_of(line);
        let ghost s = line@;
        let mut first: Option<u32> = None;
        let mut last: Option<u32> = None;
        let ghost mut seen: Seq<u32> = Seq::empty();
        let mut k: usize = 0;
        proof {
            lemma_digits_bound(s, 0, words);
        }
        while k < chars.len()
            invariant
                chars@ == s,
                k <= s.len(),
                seen + digits_from(s, k as int, words) == digits_from(s, 0, words),
                forall|i: int| 0 <= i < digits_from(s, 0, words).len() ==> #[trigger] digits_from(s, 0, words)[i] <= 9,
                seen.len() == 0 ==> first is None && last is None,
                seen.len() > 0 ==> first == Some(seen[0]) && last == Some(seen.last()),
            decreases s.len() - k,
        {
            let d = Self::digit_at(&chars, k, words);
            match d {
                Some(x) => {
                    if first.is_none() {
                        first = Some(x);
                    }
                    last = Some(x);
                    proof {
                        let old_seen = seen;
                        seen = seen.push(x);
                        assert(old_seen + digits_from(s, k as int, words) =~= seen + digits_from(s, k + 1, words));
                    }
                },
                None => {},
            }
            k += 1;
        }
        assert(digits_from(s, k as int, words) =~= Seq::<u32>::empty());
        assert(seen =~= digits_from(s, 0, words));
        let f = match first {
            Some(x) => x,
            None => 0,
        };
        let l = match last {
            Some(x) => x,
            None => 0,
        };
        proof {
            if seen.len() > 0 {
                assert(seen[0] <= 9);
                assert(seen[seen.len() - 1] <= 9);
            }
        }
        f * 10 + l
    }

    /// The sum of the calibration values of `lines`, or `None` if it does
    /// not fit in a `u32`.
    pub fn checked_total(lines: &[String], words: bool) -> (r: Option<u32>)
        ensures
            ({
                let ls = Seq::new(lines@.len(), |i: int| lines@[i]@);
                match r {
                    Some(t) => t == spec_total(ls, words),
                    None => spec_total(ls, words) > u32::MAX,
                }
            }),
    {
        let ghost ls = Seq::new(lines@.len(), |i: int| lines@[i]@);
        let mut total: u32 = 0;
        let mut i: usize = 0;
        while i < lines.len()
            invariant
                ls == Seq::new(lines@.len(), |i: int| lines@[i]@),
                i <= lines@.len(),
                total == spec_total(ls.take(i as int), words),
            decreases lines@.len() - i,
        {
            let v = Self::calibration_value(lines[i].as_str(), words);
            assert(ls.take(i + 1).drop_last() =~= ls.take(i as int));
            match total.checked_add(v) {
                Some(t) => {
                    total = t;
                },
                None => {
                    proof {
                        lemma_total_prefix(ls, words, i + 1);
                    }
                    return None;
                },
            }
            i += 1;
        }
        assert(ls.take(i as int) =~= ls);
        Some(total)
    }

    /// The sum of this day's calibration values, which must fit in a `u32`.
    pub fn compute(&self, words: bool) -> (t: u32)
        requires
            spec_total(self.line_views(), words) <= u32::MAX,
        ensures
            t == spec_total(self.line_views(), words),
    {
        assert(self.line_views() =~= Seq::new(self.0@.len(), |i: int| self.0@[i]@));
        let r = Self::checked_total(self.0.as_slice(), words);
        r.unwrap()
    }

    /// Part 1: the sum of the calibration values, digits only.
    pub fn part1(&self) -> (t: u32)
        requires
            spec_total(self.line_views(), false) <= u32::MAX,
        ensures
            t == spec_total(self.line_views(), false),
    {
        self.compute(false)
    }

    /// Part 2: the sum of the calibration values, digits and spelled-out
    /// digits.
    pub fn part2(&self) -> (t: u32)
        requires
            spec_total(self.line_views(), true) <= u32::MAX,
        ensures
            t == spec_total(self.line_views(), true),
    {
        self.compute(true)
    }
}

proof fn lemma_total_prefix(ls: Seq<Seq<char>>, words: bool, k: int)
    requires
        0 <= k <= ls.len(),
    ensures
        spec_total(ls.take(k), words) <= spec_total(ls, words),
    decreases ls.len() - k,
{
    if k < ls.len() {
        lemma_total_prefix(ls, words, k + 1);
        assert(ls.take(k + 1).drop_last() =~= ls.take(k));
    } else {
        assert(ls.take(k) =~= ls);
    }
}

/// The sum of the calibration values, digits only, or `None` when it does
/// not fit in a `u32`.
pub fn checked_sum_calibration_pure_rust(lines: &[String]) -> (r: Option<u32>)
    ensures
        ({
            let ls = Seq::new(lines@.len(), |i: int| lines@[i]@);
            match r {
                Some(t) => t == spec_total(ls, false),
                None => spec_total(ls, false) > u32::MAX,
            }
        }),
{
    Day::checked_total(lines, false)
}

/// The sum of the calibration values, spelled-out digits included, or
/// `None` when it does not fit in a `u32`.
pub fn checked_sum_calibration_with_words_pure_rust(lines: &[String]) -> (r: Option<u32>)
    ensures
        ({
            let ls = Seq::new(lines@.len(), |i: int| lines@[i]@);
            match r {
                Some(t) => t == spec_total(ls, true),
                None => spec_total(ls, true) > u32::MAX,
            }
        }),
{
    Day::checked_total(lines, true)
}

/// The C-facing status code for input that is null or not UTF-8.
pub const INVALID_INPUT: i32 = -1;

/// The C-facing status code for a total past the `uint32_t`.
pub const OVERFLOW: i32 = -2;

/// The C-facing answer: the sum of the calibration values, spelled-out
/// digits included when `words` is set. `None` stands for a null pointer or
/// bytes that are not UTF-8 and is refused; a total past the `uint32_t` is
/// the overflow status.
pub fn total_status(input: Option<&str>, words: bool) -> (r: Result<u32, i32>)
    ensures
        match input {
            None => r == Err::<u32, i32>(INVALID_INPUT),
            Some(t) => r == if spec_total(spec_lines(t@), words) <= u32::MAX {
                Ok::<u32, i32>(spec_total(spec_lines(t@), words) as u32)
            } else {
                Err::<u32, i32>(OVERFLOW)
            },
        },
{
    let t = match input {
        None => {
            return Err(INVALID_INPUT);
        },
        Some(t) => t,
    };
    let day = Day::from_str(t);
    let ghost ls = Seq::new(day.0@.len(), |i: int| day.0@[i]@);
    assert(ls =~= spec_lines(t@));
    match Day::checked_total(day.0.as_slice(), words) {
        Some(v) => Ok(v),
        None => Err(OVERFLOW),
    }
}

} // verus!
