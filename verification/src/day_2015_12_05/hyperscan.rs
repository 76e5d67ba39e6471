//! The rules of day 5 as a multi-pattern scanner sees them.
//!
//! A scanner without backreferences cannot say "whatever letter came
//! before", so every rule becomes a set of small patterns: the four
//! forbidden pairs, the 26 doubled letters and a vowel class for the
//! old rules; all 676 two-letter pairs and 26 one-gap sandwiches for
//! the new ones. The scanner reports each match by pattern id, and the
//! verdict is folded from those reports. This module holds the pattern sets
//! and the folding; the scan itself is the scanner's.

use vstd::prelude::*;

use crate::day_2015_12_05::{
    double_at, forbidden_at, pair_again_at, sandwich_at, spec_has_double_letter,
    spec_has_forbidden_pair, spec_has_non_overlapping_pair, spec_has_sandwich, spec_is_nice,
    spec_is_nice_v2, spec_is_vowel, vowel_count,
};
use crate::text::push_char;

verus! {

/// The `k`-th lowercase letter, `a` for `k == 0`.
pub open spec fn letter(k: int) -> char {
    (97 + k) as char
}

/// The `k`-th lowercase letter.
fn letter_char(k: u8) -> (c: char)
    requires
        k < 26,
    ensures
        c == letter(k as int),
{
    (97u8 + k) as char
}

/// The `i`-th pattern of the old rules: the forbidden pairs (ids 0 to
/// 3), the doubled letters `aa` to `zz` (ids 4 to 29), and the vowel class
/// (id 30).
pub open spec fn part1_pattern(i: int) -> Seq<char> {
    if i == 0 {
        seq!['a', 'b']
    } else if i == 1 {
        seq!['c', 'd']
    } else if i == 2 {
        seq!['p', 'q']
    } else if i == 3 {
        seq!['x', 'y']
    } else if i < 30 {
        seq![letter(i - 4), letter(i - 4)]
    } else {
        seq!['[', 'a', 'e', 'i', 'o', 'u', ']']
    }
}

/// The `i`-th pattern of the new rules: the pair `ab` has id `26 * a + b`
/// (ids 0 to 675), and the sandwich `c.c` has id `676 + c`.
pub open spec fn part2_pattern(i: int) -> Seq<char> {
    if i < 676 {
        seq![letter(i / 26), letter(i % 26)]
    } else {
        seq![letter(i - 676), '.', letter(i - 676)]
    }
}

/// A string of the characters `cs`.
fn string_of(cs: &[char]) -> (s: String)
    ensures
        s@ == cs@,
{
    let mut s = String::new();
    let mut i: usize = 0;
    while i < cs.len()
        invariant
            i <= cs@.len(),
            s@ == cs@.take(i as int),
        decreases cs@.len() - i,
    {
        push_char(&mut s, cs[i]);
        assert(cs@.take(i + 1) =~= cs@.take(i as int).push(cs@[i as int]));
        i += 1;
    }
    assert(cs@.take(i as int) =~= cs@);
    s
}

/// The 31 patterns of the old rules, in id order.
pub fn part1_patterns() -> (v: Vec<String>)
    ensures
        v@.len() == 31,
        forall|i: int| 0 <= i < 31 ==> #[trigger] v@[i]@ == part1_pattern(i),
{
    let mut v: Vec<String> = Vec::new();
    v.push(string_of(&['a', 'b']));
    v.push(string_of(&['c', 'd']));
    v.push(string_of(&['p', 'q']));
    v.push(string_of(&['x', 'y']));
    let mut k: u8 = 0;
    while k < 26
        invariant
            k <= 26,
            v@.len() == 4 + k,
            forall|i: int| 0 <= i < 4 + k ==> #[trigger] v@[i]@ == part1_pattern(i),
        decreases 26 - k,
    {
        let c = letter_char(k);
        v.push(string_of(&[c, c]));
        k += 1;
    }
    v.push(string_of(&['[', 'a', 'e', 'i', 'o', 'u', ']']));
    v
}

/// The 702 patterns of the new rules, in id order.
pub fn part2_patterns() -> (v: Vec<String>)
    ensures
        v@.len() == 702,
        forall|i: int| 0 <= i < 702 ==> #[trigger] v@[i]@ == part2_pattern(i),
{
    let mut v: Vec<String> = Vec::new();
    let mut a: u8 = 0;
    while a < 26
        invariant
            a <= 26,
            v@.len() == 26 * a,
            forall|i: int| 0 <= i < 26 * a ==> #[trigger] v@[i]@ == part2_pattern(i),
        decreases 26 - a,
    {
        let mut b: u8 = 0;
        while b < 26
            invariant
                a < 26,
                b <= 26,
                v@.len() == 26 * a + b,
                forall|i: int| 0 <= i < 26 * a + b ==> #[trigger] v@[i]@ == part2_pattern(i),
            decreases 26 - b,
        {
            let ca = letter_char(a);
            let cb = letter_char(b);
            v.push(string_of(&[ca, cb]));
            assert((26 * a + b) / 26 == a && (26 * a + b) % 26 == b as int) by (nonlinear_arith)
                requires
                    b < 26,
            ;
            b += 1;
        }
        a += 1;
    }
    let mut c: u8 = 0;
    while c < 26
        invariant
            c <= 26,
            v@.len() == 676 + c,
            forall|i: int| 0 <= i < 676 + c ==> #[trigger] v@[i]@ == part2_pattern(i),
        decreases 26 - c,
    {
        let l = letter_char(c);
        v.push(string_of(&[l, '.', l]));
        c += 1;
    }
    v
}

/// What the matches of the old rules' patterns have shown so far.
#[derive(Debug, Clone, Copy, PartialEq, Eq, Structural)]
pub struct Part1Match {
    /// A forbidden pair matched.
    pub forbidden: bool,
    /// A doubled letter matched.
    pub double_letter: bool,
    /// How many vowels matched.
    pub vowel_count: u32,
}

impl Default for Part1Match {
    /// Nothing seen yet.
    fn default() -> (m: Part1Match)
        ensures
            m == (Part1Match { forbidden: false, double_letter: false, vowel_count: 0 }),
    {
        Part1Match { forbidden: false, double_letter: false, vowel_count: 0 }
    }
}

impl Part1Match {

    /// The old rules' verdict on what was seen: no forbidden pair, a
    /// doubled letter, and at least three vowels.
    pub fn is_nice(&self) -> (r: bool)
        ensures
            r == (!self.forbidden && self.double_letter && self.vowel_count >= 3),
    {
        !self.forbidden && self.double_letter && self.vowel_count >= 3
    }
}

/// What one match of pattern `id` adds under the old rules.
pub open spec fn spec_part1_record(m: Part1Match, id: u32) -> Part1Match {
    if id <= 3 {
        Part1Match { forbidden: true, ..m }
    } else if id <= 29 {
        Part1Match { double_letter: true, ..m }
    } else if id == 30 {
        Part1Match { vowel_count: (m.vowel_count + 1) as u32, ..m }
    } else {
        m
    }
}

/// Records one match of the old rules' pattern `id`; the scan is told
/// to go on.
pub fn on_part1_match(id: u32, context: &mut Part1Match) -> (r: i32)
    requires
        id == 30 ==> old(context).vowel_count < u32::MAX,
    ensures
        r == 0,
        *final(context) == spec_part1_record(*old(context), id),
{
    if id <= 3 {
        context.forbidden = true;
    } else if id <= 29 {
        context.double_letter = true;
    } else if id == 30 {
        context.vowel_count += 1;
    }
    0
}

/// What the matches of the new rules' patterns have shown so far: for each
/// of the 676 pairs the earliest and latest end offset seen (`-1` when
/// none), and whether a sandwich matched.
#[derive(Debug, Clone, Copy)]
pub struct Part2Match {
    /// The earliest end offset of each pair, `-1` until one is seen.
    pub pair_min: [i64; 676],
    /// The latest end offset of each pair, `-1` until one is seen.
    pub pair_max: [i64; 676],
    /// A sandwich matched.
    pub sandwich: bool,
}

impl Default for Part2Match {
    /// Nothing seen yet.
    fn default() -> (m: Part2Match)
        ensures
            forall|i: int| 0 <= i < 676 ==> #[trigger] m.pair_min@[i] == -1 && m.pair_max@[i] == -1,
            !m.sandwich,
            m.state() == part2_start(),
    {
        let m = Part2Match { pair_min: [-1i64; 676], pair_max: [-1i64; 676], sandwich: false };
        assert(m.pair_min@ =~= part2_start().0);
        assert(m.pair_max@ =~= part2_start().1);
        m
    }
}

impl Part2Match {
    /// The state as values: the earliest and latest end of each pair, and
    /// whether a sandwich matched.
    pub open spec fn state(&self) -> (Seq<i64>, Seq<i64>, bool) {
        (self.pair_min@, self.pair_max@, self.sandwich)
    }

    /// The new rules' verdict on what was seen: some pair whose earliest
    /// and latest occurrences end at least two apart, which makes them not
    /// overlap, and a sandwich.
    pub fn is_nice(&self) -> (r: bool)
        ensures
            r == (self.sandwich && exists|i: int|
                0 <= i < 676 && #[trigger] self.pair_min@[i] >= 0 && self.pair_max@[i]
                    - self.pair_min@[i] >= 2),
            r == part2_verdict(self.state()),
    {
        let mut i: usize = 0;
        while i < 676
            invariant
                i <= 676,
                forall|j: int|
                    0 <= j < i ==> !(#[trigger] self.pair_min@[j] >= 0 && self.pair_max@[j]
                        - self.pair_min@[j] >= 2),
            decreases 676 - i,
        {
            let lo = self.pair_min[i];
            let hi = self.pair_max[i];
            if lo >= 0 && hi >= 2 && lo <= hi - 2 {
                assert(self.pair_min@[i as int] >= 0);
                assert(self.state().0[i as int] >= 0);
                return self.sandwich;
            }
            i += 1;
        }
        false
    }
}

/// Records one match, ending at `to`, of the new rules' pattern `id`; the
/// scan is told to go on.
pub fn on_part2_match(id: u32, to: u64, context: &mut Part2Match) -> (r: i32)
    ensures
        r == 0,
        (id as int) < 676 ==> {
            &&& final(context).pair_min@ == (if old(context).pair_min@[id as int] < 0 {
                old(context).pair_min@.update(id as int, to as i64)
            } else {
                old(context).pair_min@
            })
            &&& final(context).pair_max@ == old(context).pair_max@.update(id as int, to as i64)
            &&& final(context).sandwich == old(context).sandwich
        },
        (id as int) >= 676 ==> {
            &&& final(context).pair_min@ == old(context).pair_min@
            &&& final(context).pair_max@ == old(context).pair_max@
            &&& final(context).sandwich
        },
        final(context).state() == part2_step(old(context).state(), id, to),
{
    let id = id as usize;
    if id < 676 {
        let end = to as i64;
        if context.pair_min[id] < 0 {
            context.pair_min[id] = end;
        }
        context.pair_max[id] = end;
    } else {
        context.sandwich = true;
    }
    0
}

/// Every character of `s` is a lowercase ASCII letter, as in the puzzle's
/// input; there a byte offset and a character index are the same.
pub open spec fn is_lowercase_line(s: Seq<char>) -> bool {
    forall|i: int| 0 <= i < s.len() ==> 'a' <= #[trigger] s[i] <= 'z'
}

/// Pattern `id` of the new rules matches `s` just before offset `to`: a
/// pair ends there, or a sandwich (whose middle letter is any letter).
pub open spec fn part2_hit(s: Seq<char>, id: int, to: int) -> bool {
    if 0 <= id < 676 {
        2 <= to <= s.len() && s[to - 2] == part2_pattern(id)[0] && s[to - 1] == part2_pattern(id)[1]
    } else if 676 <= id < 702 {
        3 <= to <= s.len() && s[to - 3] == letter(id - 676) && s[to - 1] == letter(id - 676)
    } else {
        false
    }
}

/// `r` is what a scan of `s` with the new rules' patterns reports, as
/// `(id, to)` pairs: each is a match, every match is among them, and they
/// come by end offset (matches that end together in any order).
pub open spec fn is_part2_report(s: Seq<char>, r: Seq<(u32, u64)>) -> bool {
    &&& forall|k: int| 0 <= k < r.len() ==> part2_hit(s, #[trigger] r[k].0 as int, r[k].1 as int)
    &&& forall|id: int, to: int|
        #[trigger] part2_hit(s, id, to) ==> exists|k: int|
            0 <= k < r.len() && #[trigger] r[k] == (id as u32, to as u64)
    &&& forall|j: int, k: int| 0 <= j < k < r.len() ==> #[trigger] r[j].1 <= #[trigger] r[k].1
}

/// The state before any match.
pub open spec fn part2_start() -> (Seq<i64>, Seq<i64>, bool) {
    (Seq::new(676, |i: int| -1i64), Seq::new(676, |i: int| -1i64), false)
}

/// What one match of pattern `id` ending at `to` does to the state.
pub open spec fn part2_step(m: (Seq<i64>, Seq<i64>, bool), id: u32, to: u64) -> (Seq<i64>, Seq<i64>, bool) {
    if (id as int) < 676 {
        (
            if m.0[id as int] < 0 {
                m.0.update(id as int, to as i64)
            } else {
                m.0
            },
            m.1.update(id as int, to as i64),
            m.2,
        )
    } else {
        (m.0, m.1, true)
    }
}

/// The state after the matches `r`, in order.
pub open spec fn part2_fold(r: Seq<(u32, u64)>) -> (Seq<i64>, Seq<i64>, bool)
    decreases r.len(),
{
    if r.len() == 0 {
        part2_start()
    } else {
        let l = r.last();
        part2_step(part2_fold(r.drop_last()), l.0, l.1)
    }
}

/// The new rules' verdict on a state.
pub open spec fn part2_verdict(m: (Seq<i64>, Seq<i64>, bool)) -> bool {
    m.2 && exists|i: int| 0 <= i < 676 && #[trigger] m.0[i] >= 0 && m.1[i] - m.0[i] >= 2
}

proof fn lemma_part2_fold(r: Seq<(u32, u64)>)
    requires
        forall|k: int| 0 <= k < r.len() ==> #[trigger] r[k].1 <= i64::MAX,
        forall|j: int, k: int| 0 <= j < k < r.len() ==> #[trigger] r[j].1 <= #[trigger] r[k].1,
    ensures
        part2_fold(r).0.len() == 676,
        part2_fold(r).1.len() == 676,
        part2_fold(r).2 == exists|k: int| 0 <= k < r.len() && #[trigger] r[k].0 >= 676,
        forall|p: int|
            0 <= p < 676 ==> {
                &&& (#[trigger] part2_fold(r).0[p] < 0 <==> forall|k: int| 0 <= k < r.len() ==> #[trigger] r[k].0 != p)
                &&& part2_fold(r).0[p] >= 0 ==> exists|k: int| 0 <= k < r.len() && #[trigger] r[k].0 == p && r[k].1 == part2_fold(r).0[p]
                &&& part2_fold(r).0[p] >= 0 ==> exists|k: int| 0 <= k < r.len() && #[trigger] r[k].0 == p && r[k].1 == part2_fold(r).1[p]
                &&& forall|k: int| 0 <= k < r.len() && #[trigger] r[k].0 == p ==> part2_fold(r).0[p] <= r[k].1 <= part2_fold(r).1[p]
            },
    decreases r.len(),
{
    if r.len() > 0 {
        let init = r.drop_last();
        let n = r.len() - 1;
        assert forall|k: int| 0 <= k < init.len() implies init[k] == r[k] by {}
        lemma_part2_fold(init);
        let prev = part2_fold(init);
        let l = r.last();
        assert(part2_fold(r) == part2_step(prev, l.0, l.1));
        if l.0 >= 676 {
            assert(r[n].0 >= 676);
        }
        assert forall|p: int| 0 <= p < 676 implies {
            &&& (#[trigger] part2_fold(r).0[p] < 0 <==> forall|k: int| 0 <= k < r.len() ==> #[trigger] r[k].0 != p)
            &&& part2_fold(r).0[p] >= 0 ==> exists|k: int| 0 <= k < r.len() && #[trigger] r[k].0 == p && r[k].1 == part2_fold(r).0[p]
            &&& part2_fold(r).0[p] >= 0 ==> exists|k: int| 0 <= k < r.len() && #[trigger] r[k].0 == p && r[k].1 == part2_fold(r).1[p]
            &&& forall|k: int| 0 <= k < r.len() && #[trigger] r[k].0 == p ==> part2_fold(r).0[p] <= r[k].1 <= part2_fold(r).1[p]
        } by {
            if l.0 as int == p {
                assert(r[n].0 == p && r[n].1 == part2_fold(r).1[p]);
                if prev.0[p] < 0 {
                    assert(r[n].1 == part2_fold(r).0[p]);
                    assert forall|k: int| 0 <= k < r.len() && #[trigger] r[k].0 == p implies part2_fold(r).0[p] <= r[k].1 <= part2_fold(r).1[p] by {
                        if k < n {
                            assert(init[k].0 != p);
                        }
                    }
                } else {
                    let k0 = choose|k: int| 0 <= k < init.len() && #[trigger] init[k].0 == p && init[k].1 == prev.0[p];
                    assert(r[k0].0 == p && r[k0].1 == part2_fold(r).0[p]);
                    assert forall|k: int| 0 <= k < r.len() && #[trigger] r[k].0 == p implies part2_fold(r).0[p] <= r[k].1 <= part2_fold(r).1[p] by {
                        if k < n {
                            assert(init[k].0 == p);
                            assert(r[k].1 <= r[n].1);
                        }
                    }
                }
            } else {
                assert(part2_fold(r).0[p] == prev.0[p] && part2_fold(r).1[p] == prev.1[p]);
                if part2_fold(r).0[p] >= 0 {
                    let k0 = choose|k: int| 0 <= k < init.len() && #[trigger] init[k].0 == p && init[k].1 == prev.0[p];
                    assert(r[k0].0 == p);
                    let k1 = choose|k: int| 0 <= k < init.len() && #[trigger] init[k].0 == p && init[k].1 == prev.1[p];
                    assert(r[k1].0 == p);
                } else {
                    assert forall|k: int| 0 <= k < r.len() implies #[trigger] r[k].0 != p by {
                        if k < n {
                            assert(init[k].0 != p);
                        }
                    }
                }
                assert forall|k: int| 0 <= k < r.len() && #[trigger] r[k].0 == p implies part2_fold(r).0[p] <= r[k].1 <= part2_fold(r).1[p] by {
                    assert(k < n);
                    assert(init[k].0 == p);
                }
            }
        }
        if part2_fold(r).2 && l.0 < 676 {
            let k0 = choose|k: int| 0 <= k < init.len() && #[trigger] init[k].0 >= 676;
            assert(r[k0].0 >= 676);
        }
        if !part2_fold(r).2 {
            assert forall|k: int| 0 <= k < r.len() implies !(#[trigger] r[k].0 >= 676) by {
                if k < n {
                    assert(!(init[k].0 >= 676));
                }
            }
        }
    }
}

/// The pair pattern of two lowercase letters.
proof fn lemma_pair_id(a: char, b: char) -> (p: int)
    requires
        'a' <= a <= 'z',
        'a' <= b <= 'z',
    ensures
        0 <= p < 676,
        part2_pattern(p)[0] == a,
        part2_pattern(p)[1] == b,
{
    let x = a as int - 97;
    let y = b as int - 97;
    let p = 26 * x + y;
    assert(p / 26 == x && p % 26 == y) by (nonlinear_arith)
        requires
            p == 26 * x + y,
            0 <= y < 26,
    ;
    assert(0 <= p < 676) by (nonlinear_arith)
        requires
            p == 26 * x + y,
            0 <= x < 26,
            0 <= y < 26,
    ;
    p
}

/// A full scan with the new rules' patterns decides as the rules do: for a
/// line of lowercase letters, folding every match of every pattern, in the
/// order of their end offsets, into [`on_part2_match`]'s state gives a
/// state that [`Part2Match::is_nice`] calls nice exactly when the line is
/// nice under the new rules.
#[verifier::spinoff_prover]
#[verifier::rlimit(40)]
pub proof fn law_full_new_report_gives_verdict(line: Seq<char>, r: Seq<(u32, u64)>)
    requires
        is_lowercase_line(line),
        line.len() <= i64::MAX,
        is_part2_report(line, r),
    ensures
        part2_verdict(part2_fold(r)) == spec_is_nice_v2(line),
{
    assert forall|k: int| 0 <= k < r.len() implies #[trigger] r[k].1 <= i64::MAX by {
        assert(part2_hit(line, r[k].0 as int, r[k].1 as int));
    }
    lemma_part2_fold(r);
    // The sandwich.
    if part2_fold(r).2 {
        let k = choose|k: int| 0 <= k < r.len() && #[trigger] r[k].0 >= 676;
        assert(part2_hit(line, r[k].0 as int, r[k].1 as int));
        assert(sandwich_at(line, r[k].1 - 3));
    }
    if spec_has_sandwich(line) {
        let i = choose|i: int| #[trigger] sandwich_at(line, i);
        let c = line[i];
        assert('a' <= c <= 'z');
        let id = 676 + (c as int - 97);
        assert(letter(id - 676) == c);
        assert(part2_hit(line, id, i + 3));
        let k = choose|k: int| 0 <= k < r.len() && #[trigger] r[k] == (id as u32, (i + 3) as u64);
        assert(r[k].0 >= 676);
    }
    // The pair.
    if exists|p: int| 0 <= p < 676 && #[trigger] part2_fold(r).0[p] >= 0 && part2_fold(r).1[p] - part2_fold(r).0[p] >= 2 {
        let p = choose|p: int| 0 <= p < 676 && #[trigger] part2_fold(r).0[p] >= 0 && part2_fold(r).1[p] - part2_fold(r).0[p] >= 2;
        let k0 = choose|k: int| 0 <= k < r.len() && #[trigger] r[k].0 == p && r[k].1 == part2_fold(r).0[p];
        let k1 = choose|k: int| 0 <= k < r.len() && #[trigger] r[k].0 == p && r[k].1 == part2_fold(r).1[p];
        assert(part2_hit(line, r[k0].0 as int, r[k0].1 as int));
        assert(part2_hit(line, r[k1].0 as int, r[k1].1 as int));
        assert(pair_again_at(line, r[k0].1 - 2, r[k1].1 - 2));
    }
    if spec_has_non_overlapping_pair(line) {
        let (i, j) = choose|i: int, j: int| #[trigger] pair_again_at(line, i, j);
        let p = lemma_pair_id(line[i], line[i + 1]);
        assert(part2_hit(line, p, i + 2));
        assert(part2_hit(line, p, j + 2));
        let k0 = choose|k: int| 0 <= k < r.len() && #[trigger] r[k] == (p as u32, (i + 2) as u64);
        let k1 = choose|k: int| 0 <= k < r.len() && #[trigger] r[k] == (p as u32, (j + 2) as u64);
        assert(r[k0].0 == p);
        assert(r[k1].0 == p);
        assert(part2_fold(r).0[p] >= 0 && part2_fold(r).1[p] - part2_fold(r).0[p] >= 2);
    }
}


/// Pattern `id` of the old rules matches `s` just before offset `to`: a
/// forbidden pair or a doubled letter ends there, or a vowel.
pub open spec fn part1_hit(s: Seq<char>, id: int, to: int) -> bool {
    if 0 <= id < 30 {
        2 <= to <= s.len() && s[to - 2] == part1_pattern(id)[0] && s[to - 1] == part1_pattern(id)[1]
    } else if id == 30 {
        1 <= to <= s.len() && spec_is_vowel(s[to - 1])
    } else {
        false
    }
}

/// `r` is what a scan of `s` with the old rules' patterns reports, as
/// `(id, to)` pairs: each is a match, every match is among them, and they
/// come by end offset and, at one offset, by id, each once.
pub open spec fn is_part1_report(s: Seq<char>, r: Seq<(u32, u64)>) -> bool {
    &&& forall|k: int| 0 <= k < r.len() ==> part1_hit(s, #[trigger] r[k].0 as int, r[k].1 as int)
    &&& forall|id: int, to: int|
        #[trigger] part1_hit(s, id, to) ==> exists|k: int|
            0 <= k < r.len() && #[trigger] r[k] == (id as u32, to as u64)
    &&& forall|j: int, k: int|
        0 <= j < k < r.len() ==> #[trigger] r[j].1 < #[trigger] r[k].1 || (r[j].1 == r[k].1
            && r[j].0 < r[k].0)
}

/// The state after the matches `r`, in order, from nothing seen.
pub open spec fn part1_fold(r: Seq<(u32, u64)>) -> Part1Match
    decreases r.len(),
{
    if r.len() == 0 {
        Part1Match { forbidden: false, double_letter: false, vowel_count: 0 }
    } else {
        spec_part1_record(part1_fold(r.drop_last()), r.last().0)
    }
}

/// The old rules' verdict on a state.
pub open spec fn part1_verdict(m: Part1Match) -> bool {
    !m.forbidden && m.double_letter && m.vowel_count >= 3
}

/// How many of the matches `r` are of the vowel class.
pub open spec fn vowel_hits(r: Seq<(u32, u64)>) -> nat
    decreases r.len(),
{
    if r.len() == 0 {
        0
    } else {
        vowel_hits(r.drop_last()) + if r.last().0 == 30 {
            1nat
        } else {
            0nat
        }
    }
}

proof fn lemma_part1_fold(r: Seq<(u32, u64)>)
    requires
        vowel_hits(r) <= u32::MAX,
    ensures
        part1_fold(r).forbidden == exists|k: int| 0 <= k < r.len() && #[trigger] r[k].0 <= 3,
        part1_fold(r).double_letter == exists|k: int|
            0 <= k < r.len() && 4 <= #[trigger] r[k].0 <= 29,
        part1_fold(r).vowel_count == vowel_hits(r),
    decreases r.len(),
{
    if r.len() > 0 {
        let init = r.drop_last();
        let n = r.len() - 1;
        assert forall|k: int| 0 <= k < init.len() implies init[k] == r[k] by {}
        lemma_part1_fold(init);
        if part1_fold(r).forbidden && r[n].0 > 3 {
            let k = choose|k: int| 0 <= k < init.len() && #[trigger] init[k].0 <= 3;
            assert(r[k].0 <= 3);
        }
        if !part1_fold(r).forbidden {
            assert forall|k: int| 0 <= k < r.len() implies !(#[trigger] r[k].0 <= 3) by {
                if k < n {
                    assert(!(init[k].0 <= 3));
                }
            }
        }
        if part1_fold(r).double_letter && !(4 <= r[n].0 <= 29) {
            let k = choose|k: int| 0 <= k < init.len() && 4 <= #[trigger] init[k].0 <= 29;
            assert(r[k].0 >= 4);
        }
        if !part1_fold(r).double_letter {
            assert forall|k: int| 0 <= k < r.len() implies !(4 <= #[trigger] r[k].0 <= 29) by {
                if k < n {
                    assert(!(4 <= init[k].0 <= 29));
                }
            }
        }
    }
}

proof fn lemma_vowel_hits_concat(a: Seq<(u32, u64)>, b: Seq<(u32, u64)>)
    ensures
        vowel_hits(a + b) == vowel_hits(a) + vowel_hits(b),
    decreases b.len(),
{
    if b.len() > 0 {
        assert((a + b).drop_last() =~= a + b.drop_last());
        lemma_vowel_hits_concat(a, b.drop_last());
    } else {
        assert(a + b =~= a);
    }
}

/// Matches whose ids strictly increase hold the vowel class at most once.
proof fn lemma_vowel_hits_once(t: Seq<(u32, u64)>)
    requires
        forall|j: int, k: int| 0 <= j < k < t.len() ==> #[trigger] t[j].0 < #[trigger] t[k].0,
    ensures
        vowel_hits(t) == if exists|q: int| 0 <= q < t.len() && #[trigger] t[q].0 == 30 {
            1nat
        } else {
            0nat
        },
    decreases t.len(),
{
    if t.len() > 0 {
        let init = t.drop_last();
        let n = t.len() - 1;
        assert forall|k: int| 0 <= k < init.len() implies init[k] == t[k] by {}
        lemma_vowel_hits_once(init);
        if t[n].0 == 30 {
            assert forall|q: int| 0 <= q < init.len() implies #[trigger] init[q].0 != 30 by {
                assert(t[q].0 < t[n].0);
            }
        } else if exists|q: int| 0 <= q < t.len() && #[trigger] t[q].0 == 30 {
            let q = choose|q: int| 0 <= q < t.len() && #[trigger] t[q].0 == 30;
            assert(init[q].0 == 30);
        }
    }
}

/// The first index of `r` whose match ends at `n` or later.
proof fn lemma_split(r: Seq<(u32, u64)>, n: int) -> (m: int)
    requires
        forall|j: int, k: int| 0 <= j < k < r.len() ==> #[trigger] r[j].1 <= #[trigger] r[k].1,
    ensures
        0 <= m <= r.len(),
        forall|k: int| 0 <= k < m ==> #[trigger] r[k].1 < n,
        forall|k: int| m <= k < r.len() ==> #[trigger] r[k].1 >= n,
    decreases r.len(),
{
    if r.len() == 0 {
        0
    } else {
        let init = r.drop_last();
        let last = r.len() - 1;
        assert forall|k: int| 0 <= k < init.len() implies init[k] == r[k] by {}
        let m = lemma_split(init, n);
        if m == last && r[last].1 < n {
            r.len() as int
        } else {
            if m < last {
                assert(r[m].1 <= r[last].1);
            }
            m
        }
    }
}

/// A full report counts every vowel once.
proof fn lemma_vowel_hits_count(s: Seq<char>, r: Seq<(u32, u64)>)
    requires
        s.len() <= u32::MAX,
        is_part1_report(s, r),
    ensures
        vowel_hits(r) == vowel_count(s),
    decreases s.len(),
{
    if s.len() == 0 {
        if r.len() > 0 {
            assert(part1_hit(s, r[0].0 as int, r[0].1 as int));
        }
    } else {
        let n = s.len() as int;
        let sp = s.drop_last();
        assert forall|j: int, k: int| 0 <= j < k < r.len() implies #[trigger] r[j].1 <= #[trigger] r[k].1 by {}
        let m = lemma_split(r, n);
        let head = r.take(m);
        let tail = r.skip(m);
        assert(r =~= head + tail);
        // What ends before `n` is a full report on the line without its last letter.
        assert forall|k: int| 0 <= k < head.len() implies part1_hit(sp, #[trigger] head[k].0 as int, head[k].1 as int) by {
            assert(head[k] == r[k]);
            assert(part1_hit(s, r[k].0 as int, r[k].1 as int));
        }
        assert forall|id: int, to: int| #[trigger] part1_hit(sp, id, to) implies exists|k: int|
            0 <= k < head.len() && #[trigger] head[k] == (id as u32, to as u64) by {
            assert(part1_hit(s, id, to));
            let k = choose|k: int| 0 <= k < r.len() && #[trigger] r[k] == (id as u32, to as u64);
            assert(r[k].1 == to);
            assert(k < m);
            assert(head[k] == r[k]);
        }
        assert forall|j: int, k: int| 0 <= j < k < head.len() implies #[trigger] head[j].1 < #[trigger] head[k].1 || (head[j].1 == head[k].1 && head[j].0 < head[k].0) by {
            assert(head[j] == r[j] && head[k] == r[k]);
        }
        lemma_vowel_hits_count(sp, head);
        // What ends at `n` comes in increasing id order.
        assert forall|k: int| 0 <= k < tail.len() implies #[trigger] tail[k].1 == n by {
            assert(tail[k] == r[m + k]);
            assert(part1_hit(s, r[m + k].0 as int, r[m + k].1 as int));
        }
        assert forall|j: int, k: int| 0 <= j < k < tail.len() implies #[trigger] tail[j].0 < #[trigger] tail[k].0 by {
            assert(tail[j] == r[m + j] && tail[k] == r[m + k]);
            assert(tail[j].1 == n && tail[k].1 == n);
        }
        lemma_vowel_hits_once(tail);
        if spec_is_vowel(s[n - 1]) {
            assert(part1_hit(s, 30, n));
            let k = choose|k: int| 0 <= k < r.len() && #[trigger] r[k] == (30u32, n as u64);
            assert(r[k].1 == n);
            assert(k >= m);
            assert(tail[k - m].0 == 30);
        } else if exists|q: int| 0 <= q < tail.len() && #[trigger] tail[q].0 == 30 {
            let q = choose|q: int| 0 <= q < tail.len() && #[trigger] tail[q].0 == 30;
            assert(tail[q] == r[m + q]);
            assert(part1_hit(s, r[m + q].0 as int, r[m + q].1 as int));
        }
        lemma_vowel_hits_concat(head, tail);
        assert(s.drop_last() == sp);
    }
}

proof fn lemma_vowel_count_le(s: Seq<char>)
    ensures
        vowel_count(s) <= s.len(),
    decreases s.len(),
{
    if s.len() > 0 {
        lemma_vowel_count_le(s.drop_last());
    }
}

/// A full scan with the old rules' patterns decides as the rules do: for a
/// line of lowercase letters, folding every match of every pattern, each
/// once, in the order of their end offsets, into [`on_part1_match`]'s
/// state gives a state that [`Part1Match::is_nice`] calls nice exactly
/// when the line is nice under the old rules.
pub proof fn law_full_old_report_gives_verdict(line: Seq<char>, r: Seq<(u32, u64)>)
    requires
        is_lowercase_line(line),
        line.len() <= u32::MAX,
        is_part1_report(line, r),
    ensures
        part1_verdict(part1_fold(r)) == spec_is_nice(line),
{
    lemma_vowel_hits_count(line, r);
    lemma_vowel_count_le(line);
    lemma_part1_fold(r);
    let m = part1_fold(r);
    // The forbidden pairs.
    if m.forbidden {
        let k = choose|k: int| 0 <= k < r.len() && #[trigger] r[k].0 <= 3;
        assert(part1_hit(line, r[k].0 as int, r[k].1 as int));
        assert(forbidden_at(line, r[k].1 - 2));
    }
    if spec_has_forbidden_pair(line) {
        let i = choose|i: int| #[trigger] forbidden_at(line, i);
        let id: int = if line[i] == 'a' {
            0
        } else if line[i] == 'c' {
            1
        } else if line[i] == 'p' {
            2
        } else {
            3
        };
        assert(part1_hit(line, id, i + 2));
        let k = choose|k: int| 0 <= k < r.len() && #[trigger] r[k] == (id as u32, (i + 2) as u64);
        assert(r[k].0 <= 3);
    }
    // The doubled letters.
    if m.double_letter {
        let k = choose|k: int| 0 <= k < r.len() && 4 <= #[trigger] r[k].0 <= 29;
        assert(part1_hit(line, r[k].0 as int, r[k].1 as int));
        assert(double_at(line, r[k].1 - 2));
    }
    if spec_has_double_letter(line) {
        let i = choose|i: int| #[trigger] double_at(line, i);
        let c = line[i];
        assert('a' <= c <= 'z');
        let id = 4 + (c as int - 97);
        assert(letter(id - 4) == c);
        assert(part1_hit(line, id, i + 2));
        let k = choose|k: int| 0 <= k < r.len() && #[trigger] r[k] == (id as u32, (i + 2) as u64);
        assert(4 <= r[k].0 <= 29);
    }
}

} // verus!
