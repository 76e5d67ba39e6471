//! Day 5 of 2015: Doesn't He Have Intern-Elves For This?
//!
//! Santa sorts strings into naughty and nice. Under the old rules a
//! nice string holds at least three vowels and a doubled letter, and none of
//! `ab`, `cd`, `pq`, `xy`. Under the new rules it holds a two-letter pair
//! that occurs twice without overlapping, and a letter that repeats with
//! exactly one letter between.

use vstd::prelude::*;

use crate::text::{chars_of, lines_of, spec_lines};

pub mod hyperscan;

verus! {

/// One of `a`, `e`, `i`, `o`, `u`.
pub open spec fn spec_is_vowel(c: char) -> bool {
    c == 'a' || c == 'e' || c == 'i' || c == 'o' || c == 'u'
}

/// The number of vowels in `s`.
pub open spec fn vowel_count(s: Seq<char>) -> nat
    decreases s.len(),
{
    if s.len() == 0 {
        0
    } else {
        vowel_count(s.drop_last()) + if spec_is_vowel(s.last()) {
            1nat
        } else {
            0nat
        }
    }
}

/// One of the pairs the old rules forbid: `ab`, `cd`, `pq`, `xy`.
pub open spec fn is_forbidden(a: char, b: char) -> bool {
    (a == 'a' && b == 'b') || (a == 'c' && b == 'd') || (a == 'p' && b == 'q') || (a == 'x' && b
        == 'y')
}

/// The characters at `i` and `i + 1` form a forbidden pair.
pub open spec fn forbidden_at(s: Seq<char>, i: int) -> bool {
    0 <= i && i + 1 < s.len() && is_forbidden(s[i], s[i + 1])
}

/// The characters at `i` and `i + 1` are the same.
pub open spec fn double_at(s: Seq<char>, i: int) -> bool {
    0 <= i && i + 1 < s.len() && s[i] == s[i + 1]
}

/// The pair at `i` occurs again at `j`, without overlapping it.
pub open spec fn pair_again_at(s: Seq<char>, i: int, j: int) -> bool {
    0 <= i && i + 2 <= j && j + 1 < s.len() && s[i] == s[j] && s[i + 1] == s[j + 1]
}

/// The characters at `i` and `i + 2` are the same.
pub open spec fn sandwich_at(s: Seq<char>, i: int) -> bool {
    0 <= i && i + 2 < s.len() && s[i] == s[i + 2]
}

/// `s` contains one of `ab`, `cd`, `pq`, `xy`.
pub open spec fn spec_has_forbidden_pair(s: Seq<char>) -> bool {
    exists|i: int| #[trigger] forbidden_at(s, i)
}

/// `s` contains a letter twice in a row.
pub open spec fn spec_has_double_letter(s: Seq<char>) -> bool {
    exists|i: int| #[trigger] double_at(s, i)
}

/// `s` contains a two-letter pair twice, the two occurrences not sharing a
/// letter.
pub open spec fn spec_has_non_overlapping_pair(s: Seq<char>) -> bool {
    exists|i: int, j: int| #[trigger] pair_again_at(s, i, j)
}

/// `s` holds a letter that repeats with exactly one letter between.
pub open spec fn spec_has_sandwich(s: Seq<char>) -> bool {
    exists|i: int| #[trigger] sandwich_at(s, i)
}

/// Nice under the old rules.
pub open spec fn spec_is_nice(s: Seq<char>) -> bool {
    !spec_has_forbidden_pair(s) && spec_has_double_letter(s) && vowel_count(s) >= 3
}

/// Nice under the new rules.
pub open spec fn spec_is_nice_v2(s: Seq<char>) -> bool {
    spec_has_non_overlapping_pair(s) && spec_has_sandwich(s)
}

/// The two rule sets a line can be judged by.
#[derive(Debug, Clone, Copy, PartialEq, Eq, Structural)]
pub enum Rules {
    /// At least three vowels, a doubled letter, none of `ab`, `cd`, `pq`, `xy`.
    Old,
    /// A pair that occurs twice without overlap, and a letter that repeats
    /// with one letter between.
    New,
}

/// Whether `s` is nice under `rules`.
pub open spec fn spec_nice_under(rules: Rules, s: Seq<char>) -> bool {
    match rules {
        Rules::Old => spec_is_nice(s),
        Rules::New => spec_is_nice_v2(s),
    }
}

/// `matches!(c, 'a' | 'e' | 'i' | 'o' | 'u')`.
fn is_vowel(c: char) -> (r: bool)
    ensures
        r == spec_is_vowel(c),
{
    c == 'a' || c == 'e' || c == 'i' || c == 'o' || c == 'u'
}

/// The number of vowels in `s`.
fn count_vowels(s: &str) -> (n: usize)
    ensures
        n == vowel_count(s@),
{
    let chars = chars_of(s);
    let mut n: usize = 0;
    let mut i: usize = 0;
    while i < chars.len()
        invariant
            chars@ == s@,
            i <= chars@.len(),
            n == vowel_count(chars@.take(i as int)),
            n <= i,
        decreases chars@.len() - i,
    {
        assert(chars@.take(i + 1).drop_last() =~= chars@.take(i as int));
        if is_vowel(chars[i]) {
            n += 1;
        }
        i += 1;
    }
    assert(chars@.take(i as int) =~= chars@);
    n
}

/// `s` contains one of `ab`, `cd`, `pq`, `xy`.
fn has_forbidden_pair(s: &str) -> (r: bool)
    ensures
        r == spec_has_forbidden_pair(s@),
{
    let chars = chars_of(s);
    let n = chars.len();
    let mut i: usize = 0;
    while i < n && i + 1 < n
        invariant
            i <= n,
            chars@ == s@,
            n == chars@.len(),
            forall|j: int| 0 <= j < i ==> !#[trigger] forbidden_at(s@, j),
        decreases n - i,
    {
        let a = chars[i];
        let b = chars[i + 1];
        if (a == 'a' && b == 'b') || (a == 'c' && b == 'd') || (a == 'p' && b == 'q') || (a == 'x'
            && b == 'y') {
            assert(forbidden_at(s@, i as int));
            return true;
        }
        i += 1;
    }
    assert forall|j: int| !#[trigger] forbidden_at(s@, j) by {
        if 0 <= j && j >= i {
            assert(j + 1 >= n);
        }
    }
    false
}

/// `s` contains a letter twice in a row.
fn has_double_letter(s: &str) -> (r: bool)
    ensures
        r == spec_has_double_letter(s@),
{
    let chars = chars_of(s);
    let n = chars.len();
    let mut i: usize = 0;
    while i < n && i + 1 < n
        invariant
            i <= n,
            chars@ == s@,
            n == chars@.len(),
            forall|j: int| 0 <= j < i ==> !#[trigger] double_at(s@, j),
        decreases n - i,
    {
        if chars[i] == chars[i + 1] {
            assert(double_at(s@, i as int));
            return true;
        }
        i += 1;
    }
    assert forall|j: int| !#[trigger] double_at(s@, j) by {
        if 0 <= j && j >= i {
            assert(j + 1 >= n);
        }
    }
    false
}

/// `s` contains a two-letter pair twice without the two overlapping.
fn has_non_overlapping_pair(s: &str) -> (r: bool)
    ensures
        r == spec_has_non_overlapping_pair(s@),
{
    let chars = chars_of(s);
    let n = chars.len();
    let mut i: usize = 0;
    while i < n && i + 1 < n
        invariant
            i <= n,
            chars@ == s@,
            n == chars@.len(),
            forall|a: int, b: int| 0 <= a < i ==> !#[trigger] pair_again_at(s@, a, b),
        decreases n - i,
    {
        let mut j: usize = i + 2;
        while j < n && j + 1 < n
            invariant
                j <= n,
                chars@ == s@,
                n == chars@.len(),
                i + 1 < n,
                i + 2 <= j,
                forall|b: int| b < j ==> !#[trigger] pair_again_at(s@, i as int, b),
            decreases n - j,
        {
            if chars[i] == chars[j] && chars[i + 1] == chars[j + 1] {
                assert(pair_again_at(s@, i as int, j as int));
                return true;
            }
            j += 1;
        }
        assert forall|b: int| !#[trigger] pair_again_at(s@, i as int, b) by {
            if b >= j {
                assert(b + 1 >= n);
            }
        }
        i += 1;
    }
    assert forall|a: int, b: int| !#[trigger] pair_again_at(s@, a, b) by {
        if 0 <= a && a >= i {
            assert(a + 1 >= n);
        }
    }
    false
}

/// `s` holds a letter that repeats with exactly one letter between.
fn has_sandwich_letter(s: &str) -> (r: bool)
    ensures
        r == spec_has_sandwich(s@),
{
    let chars = chars_of(s);
    let n = chars.len();
    let mut i: usize = 0;
    while i < n && n - i > 2
        invariant
            i <= n,
            chars@ == s@,
            n == chars@.len(),
            forall|j: int| 0 <= j < i ==> !#[trigger] sandwich_at(s@, j),
        decreases n - i,
    {
        if chars[i] == chars[i + 2] {
            assert(sandwich_at(s@, i as int));
            return true;
        }
        i += 1;
    }
    assert forall|j: int| !#[trigger] sandwich_at(s@, j) by {
        if 0 <= j && j >= i {
            assert(j + 2 >= n);
        }
    }
    false
}

/// Whether a line is nice under the old rules: at least three vowels
/// (`aeiou`), a double letter (like `xx`), and none of the strings `ab`,
/// `cd`, `pq`, `xy`.
pub fn is_nice_pure_rust(line: &str) -> (r: bool)
    ensures
        r == spec_is_nice(line@),
{
    !has_forbidden_pair(line) && has_double_letter(line) && (count_vowels(line) >= 3)
}

/// Whether a line is nice under the new rules: a pair of letters that
/// occurs at least twice without overlapping, and a letter that repeats
/// with exactly one letter between.
pub fn is_nice_v2_pure_rust(line: &str) -> (r: bool)
    ensures
        r == spec_is_nice_v2(line@),
{
    has_non_overlapping_pair(line) && has_sandwich_letter(line)
}

/// Whether `line` is nice under `rules`.
pub fn is_nice_under(rules: Rules, line: &str) -> (r: bool)
    ensures
        r == spec_nice_under(rules, line@),
{
    match rules {
        Rules::Old => is_nice_pure_rust(line),
        Rules::New => is_nice_v2_pure_rust(line),
    }
}

/// The number of lines in `ls` that are nice under `rules`.
pub open spec fn nice_count(ls: Seq<Seq<char>>, rules: Rules) -> nat
    decreases ls.len(),
{
    if ls.len() == 0 {
        0
    } else {
        nice_count(ls.drop_last(), rules) + if spec_nice_under(rules, ls.last()) {
            1nat
        } else {
            0nat
        }
    }
}

/// The candidate strings, one per input line.
#[derive(Debug, Clone)]
pub struct Day(pub Vec<String>);

impl Day {
    /// The lines, each as its characters.
    pub open spec fn line_views(&self) -> Seq<Seq<char>> {
        self.0@.map_values(|l: String| l@)
    }

    /// Reads one candidate string per line.
    pub fn from_str(input: &str) -> (d: Day)
        ensures
            d.line_views() == spec_lines(input@),
    {
        let lines = lines_of(input);
        let d = Day(lines);
        assert(d.line_views() =~= spec_lines(input@));
        d
    }

    /// The number of lines that are nice under `rules`.
    pub fn compute(&self, rules: Rules) -> (n: usize)
        ensures
            n == nice_count(self.line_views(), rules),
    {
        let mut n: usize = 0;
        let mut i: usize = 0;
        while i < self.0.len()
            invariant
                i <= self.0@.len(),
                n == nice_count(self.line_views().take(i as int), rules),
                n <= i,
            decreases self.0@.len() - i,
        {
            assert(self.line_views().take(i + 1).drop_last() =~= self.line_views().take(i as int));
            if is_nice_under(rules, self.0[i].as_str()) {
                n += 1;
            }
            i += 1;
        }
        assert(self.line_views().take(i as int) =~= self.line_views());
        n
    }

    /// Part 1: the number of nice lines under the old rules.
    pub fn part1(&self) -> (n: usize)
        ensures
            n == nice_count(self.line_views(), Rules::Old),
    {
        self.compute(Rules::Old)
    }

    /// Part 2: the number of nice lines under the new rules.
    pub fn part2(&self) -> (n: usize)
        ensures
            n == nice_count(self.line_views(), Rules::New),
    {
        self.compute(Rules::New)
    }
}

/// The C-facing status code for input that is null or not UTF-8.
pub const INVALID_INPUT: i32 = -1;

/// The C-facing status code for a count that does not fit a `uint32_t`.
pub const COUNT_OVERFLOW: i32 = -3;

/// The C-facing answer: the number of nice lines under `rules`. `None`
/// stands for a null pointer or bytes that are not UTF-8, and is refused;
/// a count past the `uint32_t` is the overflow status.
pub fn count_nice(input: Option<&str>, rules: Rules) -> (r: Result<u32, i32>)
    ensures
        match input {
            None => r == Err::<u32, i32>(INVALID_INPUT),
            Some(t) => r == if nice_count(spec_lines(t@), rules) <= u32::MAX {
                Ok::<u32, i32>(nice_count(spec_lines(t@), rules) as u32)
            } else {
                Err::<u32, i32>(COUNT_OVERFLOW)
            },
        },
{
    match input {
        None => Err(INVALID_INPUT),
        Some(t) => {
            let day = Day::from_str(t);
            let n = day.compute(rules);
            if n as u64 <= u32::MAX as u64 {
                Ok(n as u32)
            } else {
                Err(COUNT_OVERFLOW)
            }
        },
    }
}

/// The count is the number of nice lines among all of them: as many as
/// the lines that the rules keep, no more than there are lines, one for a
/// single nice line and none for a single naughty one.
pub proof fn law_count_is_the_nice_lines(ls: Seq<Seq<char>>, rules: Rules)
    ensures
        nice_count(ls, rules) == ls.filter(|l: Seq<char>| spec_nice_under(rules, l)).len(),
        nice_count(ls, rules) <= ls.len(),
        forall|l: Seq<char>|
            #[trigger] nice_count(seq![l], rules) == if spec_nice_under(rules, l) {
                1nat
            } else {
                0nat
            },
    decreases ls.len(),
{
    reveal(Seq::filter);
    assert forall|l: Seq<char>|
        #[trigger] nice_count(seq![l], rules) == if spec_nice_under(rules, l) {
            1nat
        } else {
            0nat
        } by {
        assert(seq![l].drop_last() =~= Seq::<Seq<char>>::empty());
        assert(nice_count(seq![l].drop_last(), rules) == 0);
        assert(seq![l].last() == l);
    }
    if ls.len() > 0 {
        law_count_is_the_nice_lines(ls.drop_last(), rules);
    }
}

/// Counting the lines of two texts one after the other adds their counts,
/// whatever lines they hold.
pub proof fn law_count_adds_up(a: Seq<Seq<char>>, b: Seq<Seq<char>>, rules: Rules)
    ensures
        nice_count(a + b, rules) == nice_count(a, rules) + nice_count(b, rules),
    decreases b.len(),
{
    if b.len() == 0 {
        assert(a + b =~= a);
    } else {
        assert((a + b).drop_last() =~= a + b.drop_last());
        law_count_adds_up(a, b.drop_last(), rules);
    }
}

} // verus!
