//! Day 1 of 2024: Historian Hysteria.
//!
//! Two columns of location IDs, one pair per line. Part 1 sorts each column,
//! pairs the two off by rank and sums the absolute difference of every pair.
//! Part 2 weights each left-hand ID by how many times it occurs in the
//! right column and sums `id * occurrences`.

use itertools::Itertools;
use vstd::prelude::*;
use vstd::relations::{sorted_by, total_ordering};

use std::collections::HashMap;

use crate::text::{
    all_digits, chars_of, digits_val, is_digit, line_ranges, parse_digits, parse_i32, parse_usize,
    range_contents, ranges_within, spec_lines, spec_parse_i32, spec_parse_usize, spec_tokens,
    sub_chars, token_ranges,
};

pub use self::Day1 as Day;

verus! {

/// The order the columns are sorted in.
pub open spec fn leq() -> spec_fn(i32, i32) -> bool {
    |a: i32, b: i32| a <= b
}

/// `s` in ascending order.
pub open spec fn spec_sorted(s: Seq<i32>) -> Seq<i32> {
    s.sort_by(leq())
}

proof fn lemma_leq_total()
    ensures
        total_ordering(leq()),
{
}

/// A sequence in ascending order with the same elements as `old` is the
/// sorted `old`.
proof fn lemma_is_sorted(old: Seq<i32>, new: Seq<i32>)
    requires
        sorted_by(new, leq()),
        new.to_multiset() == old.to_multiset(),
    ensures
        new == spec_sorted(old),
{
    lemma_leq_total();
    old.lemma_sort_by_ensures(leq());
    vstd::seq_lib::lemma_sorted_unique(new, spec_sorted(old), leq());
}

/// `<[i32]>::sort`: sorts the slice in ascending order.
#[verifier::external_body]
fn std_sort(column: &mut [i32])
    ensures
        sorted_by(final(column)@, leq()),
        final(column)@.to_multiset() == old(column)@.to_multiset(),
{
    column.sort();
}

/// Sorts one column in ascending order.
pub fn sort_pure_rust(column: &mut [i32])
    ensures
        final(column)@ == spec_sorted(old(column)@),
{
    std_sort(column);
    proof {
        lemma_is_sorted(old(column)@, column@);
    }
}

/// A sorting backend, chosen at compile time.
pub trait Sorter {
    /// Sorts `column` in ascending order.
    fn sort(column: &mut [i32])
        ensures
            final(column)@ == spec_sorted(old(column)@),
    ;
}

/// Marker type for Rust's built-in sort.
pub struct NativeSort;

impl Sorter for NativeSort {
    fn sort(column: &mut [i32]) {
        sort_pure_rust(column);
    }
}

/// How many times `n` occurs in `s`.
pub open spec fn count_in<A>(s: Seq<A>, n: A) -> nat
    decreases s.len(),
{
    if s.len() == 0 {
        0
    } else {
        count_in(s.drop_last(), n) + if s.last() == n {
            1nat
        } else {
            0nat
        }
    }
}

/// A value that fits in an `i32`.
pub open spec fn fits_i32(v: int) -> bool {
    i32::MIN <= v <= i32::MAX
}

/// A value that fits in an `i64`.
pub open spec fn fits_i64(v: int) -> bool {
    i64::MIN <= v <= i64::MAX
}

/// The similarity score of the first `k` left-hand IDs in `i32`
/// arithmetic: each ID times its count (the count cast to `i32`), summed;
/// `None` once a product or a partial sum leaves the `i32`.
pub open spec fn similarity_run(left: Seq<i32>, right: Seq<i32>, k: int) -> Option<int>
    decreases k,
{
    if k <= 0 {
        Some(0)
    } else {
        match similarity_run(left, right, k - 1) {
            None => None,
            Some(acc) => {
                let term = left[k - 1] * (count_in(right, left[k - 1]) as i32);
                if fits_i32(term) && fits_i32(acc + term) {
                    Some(acc + term)
                } else {
                    None
                }
            },
        }
    }
}

/// Part 2's similarity score in `i32` arithmetic, when nothing overflows.
pub open spec fn spec_similarity(left: Seq<i32>, right: Seq<i32>) -> Option<int> {
    similarity_run(left, right, left.len() as int)
}

/// The total distance between the first `k` rank-paired entries in `i32`
/// arithmetic: each difference, its absolute value and each partial sum
/// must fit.
pub open spec fn distance_run(left: Seq<i32>, right: Seq<i32>, k: int) -> Option<int>
    decreases k,
{
    if k <= 0 {
        Some(0)
    } else {
        match distance_run(left, right, k - 1) {
            None => None,
            Some(acc) => {
                let d = left[k - 1] - right[k - 1];
                let a = if d < 0 {
                    -d
                } else {
                    d
                };
                if fits_i32(d) && fits_i32(a) && fits_i32(acc + a) {
                    Some(acc + a)
                } else {
                    None
                }
            },
        }
    }
}

/// The number of rank pairs: the shorter column's length.
pub open spec fn pairs(left: Seq<i32>, right: Seq<i32>) -> int {
    if left.len() < right.len() {
        left.len() as int
    } else {
        right.len() as int
    }
}

/// Part 1's total distance in `i32` arithmetic, when nothing overflows.
pub open spec fn spec_distance(left: Seq<i32>, right: Seq<i32>) -> Option<int> {
    distance_run(left, right, pairs(left, right))
}

/// How many times `n` occurs in `s`.
fn count_of(s: &[i32], n: i32) -> (c: usize)
    ensures
        c == count_in(s@, n),
{
    let mut c: usize = 0;
    let mut i: usize = 0;
    while i < s.len()
        invariant
            i <= s@.len(),
            c == count_in(s@.take(i as int), n),
            c <= i,
        decreases s@.len() - i,
    {
        assert(s@.take(i + 1).drop_last() =~= s@.take(i as int));
        if s[i] == n {
            c += 1;
        }
        i += 1;
    }
    assert(s@.take(i as int) =~= s@);
    c
}

proof fn lemma_similarity_none_stays(left: Seq<i32>, right: Seq<i32>, k: int, j: int)
    requires
        0 <= k <= j,
        similarity_run(left, right, k) is None,
    ensures
        similarity_run(left, right, j) is None,
    decreases j - k,
{
    if k < j {
        lemma_similarity_none_stays(left, right, k, j - 1);
    }
}

proof fn lemma_distance_none_stays(left: Seq<i32>, right: Seq<i32>, k: int, j: int)
    requires
        0 <= k <= j,
        distance_run(left, right, k) is None,
    ensures
        distance_run(left, right, j) is None,
    decreases j - k,
{
    if k < j {
        lemma_distance_none_stays(left, right, k, j - 1);
    }
}

/// Part 2's similarity score: each left-hand ID weighted by its number of
/// occurrences in the right column. No product or partial sum may leave
/// the `i32`.
pub fn similarity_pure_rust(left: &[i32], right: &[i32]) -> (score: i32)
    requires
        spec_similarity(left@, right@) is Some,
    ensures
        score == spec_similarity(left@, right@)->0,
{
    let mut score: i32 = 0;
    let mut i: usize = 0;
    while i < left.len()
        invariant
            i <= left@.len(),
            spec_similarity(left@, right@) is Some,
            similarity_run(left@, right@, i as int) == Some(score as int),
        decreases left@.len() - i,
    {
        proof {
            if similarity_run(left@, right@, i + 1) is None {
                lemma_similarity_none_stays(left@, right@, i + 1, left@.len() as int);
            }
        }
        let n = left[i];
        let c = count_of(right, n) as i32;
        score = score + n * c;
        i += 1;
    }
    score
}

/// Part 2's similarity score in `i32` arithmetic with every step checked:
/// the score, or `None` exactly where the plain computation would overflow.
pub fn checked_similarity_i32(left: &[i32], right: &[i32]) -> (r: Option<i32>)
    ensures
        match spec_similarity(left@, right@) {
            Some(v) => r == Some(v as i32),
            None => r is None,
        },
{
    let mut score: i32 = 0;
    let mut i: usize = 0;
    while i < left.len()
        invariant
            i <= left@.len(),
            similarity_run(left@, right@, i as int) == Some(score as int),
        decreases left@.len() - i,
    {
        let n = left[i];
        let c = count_of(right, n) as i32;
        let term = match n.checked_mul(c) {
            Some(t) => t,
            None => {
                proof {
                    lemma_similarity_none_stays(left@, right@, i + 1, left@.len() as int);
                }
                return None;
            },
        };
        match score.checked_add(term) {
            Some(t) => {
                score = t;
            },
            None => {
                proof {
                    lemma_similarity_none_stays(left@, right@, i + 1, left@.len() as int);
                }
                return None;
            },
        }
        i += 1;
    }
    Some(score)
}

/// A line read as a pair of columns: exactly two whitespace-separated
/// tokens, both `i32`s.
pub open spec fn spec_line_pair(l: Seq<char>) -> Option<(i32, i32)> {
    let ts = spec_tokens(l);
    if ts.len() != 2 {
        None
    } else {
        match (spec_parse_i32(ts[0]), spec_parse_i32(ts[1])) {
            (Some(a), Some(b)) => Some((a, b)),
            _ => None,
        }
    }
}

/// Every line read as a pair: the left and right columns, or `None` if any
/// line is not exactly two integers.
pub open spec fn spec_columns(ls: Seq<Seq<char>>) -> Option<(Seq<i32>, Seq<i32>)>
    decreases ls.len(),
{
    if ls.len() == 0 {
        Some((Seq::empty(), Seq::empty()))
    } else {
        match (spec_columns(ls.drop_last()), spec_line_pair(ls.last())) {
            (Some((l, r)), Some((a, b))) => Some((l.push(a), r.push(b))),
            _ => None,
        }
    }
}

/// The two columns of an input.
pub open spec fn spec_input_columns(s: Seq<char>) -> Option<(Seq<i32>, Seq<i32>)> {
    spec_columns(spec_lines(s))
}

proof fn lemma_columns_none_stays(ls: Seq<Seq<char>>, k: int, j: int)
    requires
        0 <= k <= j <= ls.len(),
        spec_columns(ls.take(k)) is None,
    ensures
        spec_columns(ls.take(j)) is None,
    decreases j - k,
{
    if k < j {
        lemma_columns_none_stays(ls, k, j - 1);
        assert(ls.take(j).drop_last() =~= ls.take(j - 1));
    }
}

/// Reads one line as a pair of integers.
fn line_pair(line: &Vec<char>) -> (r: Option<(i32, i32)>)
    ensures
        r == spec_line_pair(line@),
{
    let ts = token_ranges(line);
    if ts.len() != 2 {
        return None;
    }
    let (a0, a1) = ts[0];
    let (b0, b1) = ts[1];
    assert(range_contents(line@, ts@)[0] == line@.subrange(a0 as int, a1 as int));
    assert(range_contents(line@, ts@)[1] == line@.subrange(b0 as int, b1 as int));
    assert(ts@[0].0 <= ts@[0].1 <= line@.len());
    assert(ts@[1].0 <= ts@[1].1 <= line@.len());
    match (parse_i32(line, a0, a1), parse_i32(line, b0, b1)) {
        (Some(a), Some(b)) => Some((a, b)),
        _ => None,
    }
}

/// Parses the two columns without trusting the input: every line must hold
/// exactly two `i32`s, or the whole input is rejected.
pub fn parse_columns(text: &str) -> (r: Option<(Vec<i32>, Vec<i32>)>)
    ensures
        match spec_input_columns(text@) {
            None => r is None,
            Some((l, rr)) => r matches Some((a, b)) && a@ == l && b@ == rr,
        },
{
    let chars = chars_of(text);
    let ranges = line_ranges(&chars);
    let ghost ls = spec_lines(text@);
    let mut left: Vec<i32> = Vec::new();
    let mut right: Vec<i32> = Vec::new();
    let mut i: usize = 0;
    assert(ls.take(0) =~= Seq::<Seq<char>>::empty());
    while i < ranges.len()
        invariant
            chars@ == text@,
            ranges_within(chars@, ranges@),
            range_contents(chars@, ranges@) == ls,
            ls == spec_lines(text@),
            i <= ls.len(),
            spec_columns(ls.take(i as int)) == Some((left@, right@)),
        decreases ls.len() - i,
    {
        let (a, b) = ranges[i];
        let line = sub_chars(&chars, a, b);
        assert(line@ == ls[i as int]);
        assert(ls.take(i + 1).drop_last() =~= ls.take(i as int));
        assert(ls.take(i + 1).last() == ls[i as int]);
        match line_pair(&line) {
            None => {
                proof {
                    lemma_columns_none_stays(ls, i + 1, ls.len() as int);
                    assert(ls.take(ls.len() as int) =~= ls);
                }
                return None;
            },
            Some((x, y)) => {
                left.push(x);
                right.push(y);
            },
        }
        i += 1;
    }
    assert(ls.take(i as int) =~= ls);
    Some((left, right))
}

/// `Itertools::collect_tuple` into a pair: the two items, in order, when
/// there are exactly two, and `None` otherwise.
#[verifier::external_body]
fn collect_pair(items: Vec<i32>) -> (r: Option<(i32, i32)>)
    ensures
        items@.len() == 2 ==> r == Some((items@[0], items@[1])),
        items@.len() != 2 ==> r is None,
{
    items.into_iter().collect_tuple()
}

/// Reads every whitespace-separated token of a line as an `i32`.
fn line_numbers(line: &Vec<char>) -> (v: Vec<i32>)
    requires
        forall|j: int|
            0 <= j < spec_tokens(line@).len() ==> (#[trigger] spec_parse_i32(
                spec_tokens(line@)[j],
            )) is Some,
    ensures
        v@.len() == spec_tokens(line@).len(),
        forall|j: int|
            0 <= j < v@.len() ==> Some(#[trigger] v@[j]) == spec_parse_i32(spec_tokens(line@)[j]),
{
    let ts = token_ranges(line);
    let mut v: Vec<i32> = Vec::new();
    let mut j: usize = 0;
    while j < ts.len()
        invariant
            j <= ts@.len(),
            ranges_within(line@, ts@),
            range_contents(line@, ts@) == spec_tokens(line@),
            forall|k: int|
                0 <= k < spec_tokens(line@).len() ==> (#[trigger] spec_parse_i32(
                    spec_tokens(line@)[k],
                )) is Some,
            v@.len() == j,
            forall|k: int|
                0 <= k < j ==> Some(#[trigger] v@[k]) == spec_parse_i32(spec_tokens(line@)[k]),
        decreases ts@.len() - j,
    {
        let (a, b) = ts[j];
        assert(ts@[j as int].0 <= ts@[j as int].1 <= line@.len());
        assert(range_contents(line@, ts@)[j as int] == line@.subrange(a as int, b as int));
        assert(spec_parse_i32(spec_tokens(line@)[j as int]) is Some);
        let x = parse_i32(line, a, b).unwrap();
        v.push(x);
        j += 1;
    }
    v
}

/// The two columns of the input, each sorted in ascending order so that the
/// `k`-th smallest left ID pairs with the `k`-th smallest right ID.
#[derive(Debug)]
pub struct Day1(Vec<i32>, Vec<i32>);

impl Clone for Day1 {
    fn clone(&self) -> (d: Self)
        ensures
            d.left() == self.left(),
            d.right() == self.right(),
    {
        let l = self.0.clone();
        let r = self.1.clone();
        assert(l@ =~= self.0@);
        assert(r@ =~= self.1@);
        Day1(l, r)
    }
}

impl Day1 {
    /// The left column, in ascending order.
    pub closed spec fn left(self) -> Seq<i32> {
        self.0@
    }

    /// The right column, in ascending order.
    pub closed spec fn right(self) -> Seq<i32> {
        self.1@
    }

    /// Reads the two columns, one pair of integers per line, and sorts each
    /// with the backend `S`.
    pub fn parse_with<S: Sorter>(input: &str) -> (d: Day1)
        requires
            spec_input_columns(input@) is Some,
        ensures
            d.left() == spec_sorted((spec_input_columns(input@)->0).0),
            d.right() == spec_sorted((spec_input_columns(input@)->0).1),
    {
        let chars = chars_of(input);
        let ranges = line_ranges(&chars);
        let ghost ls = spec_lines(input@);
        let mut left: Vec<i32> = Vec::new();
        let mut right: Vec<i32> = Vec::new();
        let mut i: usize = 0;
        assert(ls.take(0) =~= Seq::<Seq<char>>::empty());
        assert(ls.take(ls.len() as int) =~= ls);
        while i < ranges.len()
            invariant
                chars@ == input@,
                ranges_within(chars@, ranges@),
                range_contents(chars@, ranges@) == ls,
                ls == spec_lines(input@),
                spec_columns(ls) is Some,
                ls.take(ls.len() as int) == ls,
                i <= ls.len(),
                spec_columns(ls.take(i as int)) == Some((left@, right@)),
            decreases ls.len() - i,
        {
            let (a, b) = ranges[i];
            let line = sub_chars(&chars, a, b);
            assert(line@ == ls[i as int]);
            assert(ls.take(i + 1).drop_last() =~= ls.take(i as int));
            assert(ls.take(i + 1).last() == ls[i as int]);
            proof {
                if spec_columns(ls.take(i + 1)) is None {
                    lemma_columns_none_stays(ls, i + 1, ls.len() as int);
                }
            }
            assert(spec_line_pair(line@) is Some);
            let nums = line_numbers(&line);
            let (x, y) = collect_pair(nums).unwrap();
            left.push(x);
            right.push(y);
            i += 1;
        }
        assert(ls.take(i as int) =~= ls);
        S::sort(&mut left);
        S::sort(&mut right);
        Day1(left, right)
    }

    /// Reads the two columns and sorts them with Rust's own sort.
    pub fn from_str(input: &str) -> (d: Day1)
        requires
            spec_input_columns(input@) is Some,
        ensures
            d.left() == spec_sorted((spec_input_columns(input@)->0).0),
            d.right() == spec_sorted((spec_input_columns(input@)->0).1),
    {
        Self::parse_with::<NativeSort>(input)
    }

    /// Part 1: the total distance between the rank-paired IDs.
    pub fn part1(&self) -> (r: i32)
        requires
            spec_distance(self.left(), self.right()) is Some,
        ensures
            r == spec_distance(self.left(), self.right())->0,
    {
        let left = &self.0;
        let right = &self.1;
        let n = if left.len() < right.len() {
            left.len()
        } else {
            right.len()
        };
        let mut total: i32 = 0;
        let mut i: usize = 0;
        while i < n
            invariant
                n == pairs(left@, right@),
                i <= n,
                spec_distance(left@, right@) is Some,
                distance_run(left@, right@, i as int) == Some(total as int),
            decreases n - i,
        {
            proof {
                if distance_run(left@, right@, i + 1) is None {
                    lemma_distance_none_stays(left@, right@, i + 1, n as int);
                }
            }
            let d = left[i] - right[i];
            let a = if d < 0 {
                -d
            } else {
                d
            };
            total = total + a;
            i += 1;
        }
        total
    }

    /// Part 1 with every step checked: the total distance, or `None`
    /// exactly where a difference, its absolute value or a partial sum
    /// leaves the `i32`.
    pub fn checked_part1(&self) -> (r: Option<i32>)
        ensures
            match spec_distance(self.left(), self.right()) {
                Some(v) => r == Some(v as i32),
                None => r is None,
            },
    {
        let left = &self.0;
        let right = &self.1;
        let n = if left.len() < right.len() {
            left.len()
        } else {
            right.len()
        };
        let mut total: i32 = 0;
        let mut i: usize = 0;
        while i < n
            invariant
                left@ == self.left(),
                right@ == self.right(),
                n == pairs(left@, right@),
                i <= n,
                distance_run(left@, right@, i as int) == Some(total as int),
            decreases n - i,
        {
            let d = match left[i].checked_sub(right[i]) {
                Some(d) => d,
                None => {
                    proof {
                        lemma_distance_none_stays(left@, right@, i + 1, n as int);
                    }
                    return None;
                },
            };
            if d == i32::MIN {
                proof {
                    lemma_distance_none_stays(left@, right@, i + 1, n as int);
                }
                return None;
            }
            let a = if d < 0 {
                -d
            } else {
                d
            };
            match total.checked_add(a) {
                Some(t) => {
                    total = t;
                },
                None => {
                    proof {
                        lemma_distance_none_stays(left@, right@, i + 1, n as int);
                    }
                    return None;
                },
            }
            i += 1;
        }
        Some(total)
    }

    /// Part 2 with every step checked: the similarity score, or `None`
    /// exactly where a product or a partial sum leaves the `i32`.
    pub fn checked_part2(&self) -> (r: Option<i32>)
        ensures
            match spec_similarity(self.left(), self.right()) {
                Some(v) => r == Some(v as i32),
                None => r is None,
            },
    {
        checked_similarity_i32(&self.0, &self.1)
    }

    /// Part 2: the similarity score, each left-hand ID weighted by its
    /// number of occurrences in the right column.
    pub fn part2(&self) -> (r: i32)
        requires
            spec_similarity(self.left(), self.right()) is Some,
        ensures
            r == spec_similarity(self.left(), self.right())->0,
    {
        similarity_pure_rust(&self.0, &self.1)
    }
}

// ---------------------------------------------------------------------------
// The C-facing answers: defensive parsing, 64-bit checked arithmetic
// ---------------------------------------------------------------------------

/// The C-facing status code for input that is null, not UTF-8, or holds a
/// line that is not exactly two integers.
pub const INVALID_INPUT: i32 = -1;

/// The C-facing status code for an answer that does not fit an `int32_t`.
pub const OVERFLOW: i32 = -2;

/// `|v|` for an integer.
pub open spec fn abs_int(v: int) -> int {
    if v < 0 {
        -v
    } else {
        v
    }
}

/// The exact sum of `|left[i] - right[i]|` over the first `k` rank pairs.
pub open spec fn abs_distance(left: Seq<i32>, right: Seq<i32>, k: int) -> int
    decreases k,
{
    if k <= 0 {
        0
    } else {
        abs_distance(left, right, k - 1) + abs_int(left[k - 1] - right[k - 1])
    }
}

/// The exact total distance between the rank-paired entries.
pub open spec fn total_distance(left: Seq<i32>, right: Seq<i32>) -> int {
    abs_distance(left, right, pairs(left, right))
}

proof fn lemma_abs_distance_monotone(left: Seq<i32>, right: Seq<i32>, k: int, j: int)
    requires
        0 <= k <= j,
    ensures
        abs_distance(left, right, k) <= abs_distance(left, right, j),
        0 <= abs_distance(left, right, k),
    decreases j,
{
    if k < j {
        lemma_abs_distance_monotone(left, right, k, j - 1);
    } else if k > 0 {
        lemma_abs_distance_monotone(left, right, k - 1, k - 1);
    }
}

/// Part 1's total distance summed in `i64`, where no single distance can
/// overflow: the total when it fits an `i32`, and `None` when it does not.
pub fn checked_distance(left: &[i32], right: &[i32]) -> (r: Option<i32>)
    ensures
        r == (if total_distance(left@, right@) <= i32::MAX {
            Some(total_distance(left@, right@) as i32)
        } else {
            None
        }),
{
    let n = if left.len() < right.len() {
        left.len()
    } else {
        right.len()
    };
    let mut total: i64 = 0;
    let mut i: usize = 0;
    while i < n
        invariant
            n == pairs(left@, right@),
            i <= n,
            total == abs_distance(left@, right@, i as int),
        decreases n - i,
    {
        let d = left[i] as i64 - right[i] as i64;
        let a = if d < 0 {
            -d
        } else {
            d
        };
        proof {
            lemma_abs_distance_monotone(left@, right@, i + 1, n as int);
        }
        match total.checked_add(a) {
            Some(t) => {
                total = t;
            },
            None => {
                return None;
            },
        }
        i += 1;
    }
    proof {
        lemma_abs_distance_monotone(left@, right@, 0, n as int);
    }
    if total <= i32::MAX as i64 {
        Some(total as i32)
    } else {
        None
    }
}

/// Part 2's similarity score summed in `i64`, each count taken as an `i64`:
/// `None` once a count, a product or a partial sum leaves the `i64`.
pub open spec fn wide_similarity_run(left: Seq<i32>, right: Seq<i32>, k: int) -> Option<int>
    decreases k,
{
    if k <= 0 {
        Some(0)
    } else {
        match wide_similarity_run(left, right, k - 1) {
            None => None,
            Some(acc) => {
                let c = count_in(right, left[k - 1]) as int;
                let term = left[k - 1] * c;
                if fits_i64(c) && fits_i64(term) && fits_i64(acc + term) {
                    Some(acc + term)
                } else {
                    None
                }
            },
        }
    }
}

proof fn lemma_wide_none_stays(left: Seq<i32>, right: Seq<i32>, k: int, j: int)
    requires
        0 <= k <= j,
        wide_similarity_run(left, right, k) is None,
    ensures
        wide_similarity_run(left, right, j) is None,
    decreases j - k,
{
    if k < j {
        lemma_wide_none_stays(left, right, k, j - 1);
    }
}

/// Part 2's similarity score with checked `i64` arithmetic: the score when
/// it is computed without overflow and fits an `i32`, and `None` otherwise.
pub fn checked_similarity(left: &[i32], right: &[i32]) -> (r: Option<i32>)
    ensures
        r == (match wide_similarity_run(left@, right@, left@.len() as int) {
            Some(t) => if fits_i32(t) {
                Some(t as i32)
            } else {
                None
            },
            None => None,
        }),
{
    let mut total: i64 = 0;
    let mut i: usize = 0;
    while i < left.len()
        invariant
            i <= left@.len(),
            wide_similarity_run(left@, right@, i as int) == Some(total as int),
        decreases left@.len() - i,
    {
        let n = left[i];
        let c = count_of(right, n);
        if c as u64 > i64::MAX as u64 {
            proof {
                lemma_wide_none_stays(left@, right@, i + 1, left@.len() as int);
            }
            return None;
        }
        let weighted = match (n as i64).checked_mul(c as i64) {
            Some(w) => w,
            None => {
                proof {
                    lemma_wide_none_stays(left@, right@, i + 1, left@.len() as int);
                }
                return None;
            },
        };
        match total.checked_add(weighted) {
            Some(t) => {
                total = t;
            },
            None => {
                proof {
                    lemma_wide_none_stays(left@, right@, i + 1, left@.len() as int);
                }
                return None;
            },
        }
        i += 1;
    }
    if i32::MIN as i64 <= total && total <= i32::MAX as i64 {
        Some(total as i32)
    } else {
        None
    }
}

/// The C-facing answer to part 1: `None` stands for a null pointer or bytes
/// that are not UTF-8. Both are refused, as is a line that is not exactly
/// two integers; a total distance past the `int32_t` is the overflow status.
pub fn answer_part1(input: Option<&str>) -> (r: Result<i32, i32>)
    ensures
        match input {
            None => r == Err::<i32, i32>(INVALID_INPUT),
            Some(t) => match spec_input_columns(t@) {
                None => r == Err::<i32, i32>(INVALID_INPUT),
                Some((l, rr)) => {
                    let d = total_distance(spec_sorted(l), spec_sorted(rr));
                    r == if d <= i32::MAX {
                        Ok::<i32, i32>(d as i32)
                    } else {
                        Err::<i32, i32>(OVERFLOW)
                    }
                },
            },
        },
{
    let text = match input {
        None => {
            return Err(INVALID_INPUT);
        },
        Some(t) => t,
    };
    let (mut left, mut right) = match parse_columns(text) {
        None => {
            return Err(INVALID_INPUT);
        },
        Some(cols) => cols,
    };
    sort_pure_rust(&mut left);
    sort_pure_rust(&mut right);
    match checked_distance(&left, &right) {
        Some(d) => Ok(d),
        None => Err(OVERFLOW),
    }
}

/// The C-facing answer to part 2, with the same refusals as
/// [`answer_part1`]; a score that overflows the `i64` sum or does not fit
/// the `int32_t` is the overflow status.
pub fn answer_part2(input: Option<&str>) -> (r: Result<i32, i32>)
    ensures
        match input {
            None => r == Err::<i32, i32>(INVALID_INPUT),
            Some(t) => match spec_input_columns(t@) {
                None => r == Err::<i32, i32>(INVALID_INPUT),
                Some((l, rr)) => r == match wide_similarity_run(l, rr, l.len() as int) {
                    Some(s) => if fits_i32(s) {
                        Ok::<i32, i32>(s as i32)
                    } else {
                        Err::<i32, i32>(OVERFLOW)
                    },
                    None => Err::<i32, i32>(OVERFLOW),
                },
            },
        },
{
    let text = match input {
        None => {
            return Err(INVALID_INPUT);
        },
        Some(t) => t,
    };
    let (left, right) = match parse_columns(text) {
        None => {
            return Err(INVALID_INPUT);
        },
        Some(cols) => cols,
    };
    match checked_similarity(&left, &right) {
        Some(s) => Ok(s),
        None => Err(OVERFLOW),
    }
}

// ---------------------------------------------------------------------------
// Part 2 with a frequency map
// ---------------------------------------------------------------------------

/// A line as the frequency-map reading takes it: its first two tokens, both
/// `usize`s; what follows them is not read.
pub open spec fn spec_id_pair(l: Seq<char>) -> Option<(usize, usize)> {
    let ts = spec_tokens(l);
    if ts.len() < 2 {
        None
    } else {
        match (spec_parse_usize(ts[0]), spec_parse_usize(ts[1])) {
            (Some(a), Some(b)) => Some((a, b)),
            _ => None,
        }
    }
}

/// Every line read as a pair of `usize` IDs: the left and right columns, or
/// `None` if some line does not start with two of them.
pub open spec fn spec_id_columns(ls: Seq<Seq<char>>) -> Option<(Seq<usize>, Seq<usize>)>
    decreases ls.len(),
{
    if ls.len() == 0 {
        Some((Seq::empty(), Seq::empty()))
    } else {
        match (spec_id_columns(ls.drop_last()), spec_id_pair(ls.last())) {
            (Some((l, r)), Some((a, b))) => Some((l.push(a), r.push(b))),
            _ => None,
        }
    }
}

/// How many times each ID occurs in `s`, for the IDs that occur.
pub open spec fn frequencies(s: Seq<usize>) -> Map<usize, usize> {
    Map::new(|k: usize| s.contains(k), |k: usize| count_in(s, k) as usize)
}

/// The occurrence count of `k` in a frequency map, `0` when absent.
pub open spec fn count_or_zero(m: Map<usize, usize>, k: usize) -> int {
    if m.contains_key(k) {
        m[k] as int
    } else {
        0
    }
}

/// The similarity score of the first `k` left-hand IDs in `usize`
/// arithmetic; `None` once a product or a partial sum leaves the `usize`.
pub open spec fn map_similarity_run(left: Seq<usize>, counts: Map<usize, usize>, k: int) -> Option<int>
    decreases k,
{
    if k <= 0 {
        Some(0)
    } else {
        match map_similarity_run(left, counts, k - 1) {
            None => None,
            Some(acc) => {
                let term = left[k - 1] * count_or_zero(counts, left[k - 1]);
                if term <= usize::MAX && acc + term <= usize::MAX {
                    Some(acc + term)
                } else {
                    None
                }
            },
        }
    }
}

proof fn lemma_id_columns_none_stays(ls: Seq<Seq<char>>, k: int, j: int)
    requires
        0 <= k <= j <= ls.len(),
        spec_id_columns(ls.take(k)) is None,
    ensures
        spec_id_columns(ls.take(j)) is None,
    decreases j - k,
{
    if k < j {
        lemma_id_columns_none_stays(ls, k, j - 1);
        assert(ls.take(j).drop_last() =~= ls.take(j - 1));
    }
}

proof fn lemma_count_push<A>(s: Seq<A>, x: A, k: A)
    ensures
        count_in(s.push(x), k) == count_in(s, k) + if x == k {
            1nat
        } else {
            0nat
        },
        count_in(s, k) <= s.len(),
        s.contains(k) <==> count_in(s, k) > 0,
    decreases s.len(),
{
    assert(s.push(x).drop_last() =~= s);
    if s.len() > 0 {
        lemma_count_push(s.drop_last(), s.last(), k);
        if s.drop_last().contains(k) {
            let j = choose|j: int| 0 <= j < s.drop_last().len() && s.drop_last()[j] == k;
            assert(s[j] == k);
        }
        if s.contains(k) && s.last() != k {
            let j = choose|j: int| 0 <= j < s.len() && s[j] == k;
            assert(s.drop_last()[j] == k);
        }
    }
}

/// The left column, and the right column as a frequency map.
#[derive(Debug)]
pub struct Day1Hashmap(Vec<usize>, HashMap<usize, usize>);

impl Clone for Day1Hashmap {
    fn clone(&self) -> (d: Self)
        ensures
            d.left() == self.left(),
            d.counts() == self.counts(),
    {
        let l = self.0.clone();
        let m = self.1.clone();
        assert(l@ =~= self.0@);
        Day1Hashmap(l, m)
    }
}

impl Day1Hashmap {
    /// The left column, in input order.
    pub closed spec fn left(self) -> Seq<usize> {
        self.0@
    }

    /// How many times each right-hand ID occurs.
    pub closed spec fn counts(self) -> Map<usize, usize> {
        self.1@
    }

    /// Reads the first two IDs of every line: the first into the left
    /// column, the second counted into the frequency map. `None` when some
    /// line does not start with two `usize` IDs.
    pub fn try_from_str(input: &str) -> (r: Option<Day1Hashmap>)
        ensures
            match spec_id_columns(spec_lines(input@)) {
                None => r is None,
                Some((l, rr)) => r matches Some(d) && d.left() == l && d.counts() == frequencies(rr),
            },
    {
        let chars = chars_of(input);
        let ranges = line_ranges(&chars);
        let ghost ls = spec_lines(input@);
        let ghost mut rights: Seq<usize> = Seq::empty();
        let mut left: Vec<usize> = Vec::new();
        let mut right: HashMap<usize, usize> = HashMap::new();
        let mut i: usize = 0;
        assert(ls.take(0) =~= Seq::<Seq<char>>::empty());
        assert(ls.take(ls.len() as int) =~= ls);
        assert(right@ =~= frequencies(rights));
        while i < ranges.len()
            invariant
                chars@ == input@,
                ranges_within(chars@, ranges@),
                range_contents(chars@, ranges@) == ls,
                ls == spec_lines(input@),
                ls.take(ls.len() as int) == ls,
                i <= ls.len(),
                rights.len() == i,
                spec_id_columns(ls.take(i as int)) == Some((left@, rights)),
                right@ == frequencies(rights),
            decreases ls.len() - i,
        {
            let (a, b) = ranges[i];
            let line = sub_chars(&chars, a, b);
            assert(line@ == ls[i as int]);
            assert(ls.take(i + 1).drop_last() =~= ls.take(i as int));
            assert(ls.take(i + 1).last() == ls[i as int]);
            let ts = token_ranges(&line);
            if ts.len() < 2 {
                proof {
                    lemma_id_columns_none_stays(ls, i + 1, ls.len() as int);
                }
                return None;
            }
            let (a0, a1) = ts[0];
            let (b0, b1) = ts[1];
            assert(ts@[0].0 <= ts@[0].1 <= line@.len());
            assert(ts@[1].0 <= ts@[1].1 <= line@.len());
            assert(range_contents(line@, ts@)[0] == line@.subrange(a0 as int, a1 as int));
            assert(range_contents(line@, ts@)[1] == line@.subrange(b0 as int, b1 as int));
            let (x, y) = match (parse_usize(&line, a0, a1), parse_usize(&line, b0, b1)) {
                (Some(x), Some(y)) => (x, y),
                _ => {
                    proof {
                        lemma_id_columns_none_stays(ls, i + 1, ls.len() as int);
                    }
                    return None;
                },
            };
            left.push(x);
            let c = match right.get(&y) {
                Some(v) => *v,
                None => 0,
            };
            proof {
                lemma_count_push(rights, y, y);
            }
            assert(c == count_in(rights, y));
            right.insert(y, c + 1);
            proof {
                let old_rights = rights;
                rights = rights.push(y);
                assert forall|k: usize| #[trigger] right@.contains_key(k) == frequencies(rights).contains_key(k)
                    by {
                    lemma_count_push(old_rights, y, k);
                    lemma_count_push(rights, y, k);
                }
                assert forall|k: usize| right@.contains_key(k) implies #[trigger] right@[k] == frequencies(rights)[k]
                    by {
                    lemma_count_push(old_rights, y, k);
                }
                assert(right@ =~= frequencies(rights));
            }
            i += 1;
        }
        assert(ls.take(i as int) =~= ls);
        Some(Day1Hashmap(left, right))
    }

    /// Reads the first two IDs of every line, which every line must start
    /// with: the first into the left column, the second counted into the
    /// frequency map.
    pub fn from_str(input: &str) -> (d: Day1Hashmap)
        requires
            spec_id_columns(spec_lines(input@)) is Some,
        ensures
            d.left() == (spec_id_columns(spec_lines(input@))->0).0,
            d.counts() == frequencies((spec_id_columns(spec_lines(input@))->0).1),
    {
        Self::try_from_str(input).unwrap()
    }

    /// Part 2 with every step checked: the score, or `None` exactly where
    /// a product or a partial sum leaves the `usize`.
    pub fn checked_part2(&self) -> (r: Option<usize>)
        ensures
            match map_similarity_run(self.left(), self.counts(), self.left().len() as int) {
                Some(v) => r == Some(v as usize),
                None => r is None,
            },
    {
        let left = &self.0;
        let right = &self.1;
        let mut total: usize = 0;
        let mut i: usize = 0;
        while i < left.len()
            invariant
                i <= left@.len(),
                left@ == self.left(),
                right@ == self.counts(),
                map_similarity_run(left@, right@, i as int) == Some(total as int),
            decreases left@.len() - i,
        {
            let number = left[i];
            let count = match right.get(&number) {
                Some(v) => *v,
                None => 0,
            };
            let term = match number.checked_mul(count) {
                Some(t) => t,
                None => {
                    proof {
                        lemma_map_none_stays(left@, right@, i + 1, left@.len() as int);
                    }
                    return None;
                },
            };
            match total.checked_add(term) {
                Some(t) => {
                    total = t;
                },
                None => {
                    proof {
                        lemma_map_none_stays(left@, right@, i + 1, left@.len() as int);
                    }
                    return None;
                },
            }
            i += 1;
        }
        Some(total)
    }

    /// Part 2: each left-hand ID times its count in the frequency map, an
    /// absent ID counting `0`, summed.
    pub fn part2(&self) -> (r: usize)
        requires
            map_similarity_run(self.left(), self.counts(), self.left().len() as int) is Some,
        ensures
            r == map_similarity_run(self.left(), self.counts(), self.left().len() as int)->0,
    {
        let left = &self.0;
        let right = &self.1;
        let mut total: usize = 0;
        let mut i: usize = 0;
        while i < left.len()
            invariant
                i <= left@.len(),
                left@ == self.left(),
                right@ == self.counts(),
                map_similarity_run(self.left(), self.counts(), self.left().len() as int) is Some,
                map_similarity_run(left@, right@, i as int) == Some(total as int),
            decreases left@.len() - i,
        {
            proof {
                if map_similarity_run(left@, right@, i + 1) is None {
                    lemma_map_none_stays(left@, right@, i + 1, left@.len() as int);
                }
            }
            let number = left[i];
            let count = match right.get(&number) {
                Some(v) => *v,
                None => 0,
            };
            total = total + number * count;
            i += 1;
        }
        total
    }
}

proof fn lemma_map_none_stays(left: Seq<usize>, counts: Map<usize, usize>, k: int, j: int)
    requires
        0 <= k <= j,
        map_similarity_run(left, counts, k) is None,
    ensures
        map_similarity_run(left, counts, j) is None,
    decreases j - k,
{
    if k < j {
        lemma_map_none_stays(left, counts, k, j - 1);
    }
}

// ---------------------------------------------------------------------------
// The pairs grammar: `i32 space+ i32`, one pair per line
// ---------------------------------------------------------------------------

/// Which part of the grammar did not match.
#[derive(Debug, Clone, Copy, PartialEq, Eq, Structural)]
pub enum ErrorKind {
    /// No integer, or one that does not fit an `i32`.
    Digit,
    /// No run of spaces or tabs between the two integers of a pair.
    Space,
}

/// Where and why the grammar failed: the input from the failing position
/// on, and the part that did not match.
#[derive(Debug, Clone, Copy, PartialEq, Eq)]
pub struct NomError<'a> {
    /// The input from where the failing part began.
    pub input: &'a str,
    /// The part of the grammar that did not match.
    pub code: ErrorKind,
}

/// The first index at or after `q` that is not an ASCII digit.
pub open spec fn digit_end(s: Seq<char>, q: int) -> int
    decreases s.len() - q,
{
    if q < 0 || q >= s.len() || !is_digit(s[q]) {
        q
    } else {
        digit_end(s, q + 1)
    }
}

/// The first index at or after `q` that is not a space or a tab.
pub open spec fn space_end(s: Seq<char>, q: int) -> int
    decreases s.len() - q,
{
    if q < 0 || q >= s.len() || !(s[q] == ' ' || s[q] == '\t') {
        q
    } else {
        space_end(s, q + 1)
    }
}

proof fn lemma_digit_end(s: Seq<char>, q: int)
    requires
        0 <= q <= s.len(),
    ensures
        q <= digit_end(s, q) <= s.len(),
        all_digits(s.subrange(q, digit_end(s, q))),
        digit_end(s, q) < s.len() ==> !is_digit(s[digit_end(s, q)]),
    decreases s.len() - q,
{
    if q < s.len() && is_digit(s[q]) {
        lemma_digit_end(s, q + 1);
        assert forall|i: int| 0 <= i < digit_end(s, q) - q implies is_digit(
            #[trigger] s.subrange(q, digit_end(s, q))[i],
        ) by {
            if i > 0 {
                assert(s.subrange(q, digit_end(s, q))[i] == s.subrange(q + 1, digit_end(s, q))[i
                    - 1]);
            }
        }
    }
}

proof fn lemma_space_end(s: Seq<char>, q: int)
    requires
        0 <= q <= s.len(),
    ensures
        q <= space_end(s, q) <= s.len(),
    decreases s.len() - q,
{
    if q < s.len() && (s[q] == ' ' || s[q] == '\t') {
        lemma_space_end(s, q + 1);
    }
}

/// An `i32` at `p`: an optional sign, then the longest run of ASCII digits,
/// its value within `i32`. `Ok` holds the position after the digits and
/// the value; `Err` holds `p`.
pub open spec fn nom_i32_at(s: Seq<char>, p: int) -> Result<(int, i32), int> {
    let neg = p < s.len() && s[p] == '-';
    let q = if p < s.len() && (s[p] == '-' || s[p] == '+') {
        p + 1
    } else {
        p
    };
    let e = digit_end(s, q);
    let v = digits_val(s.subrange(q, e));
    if e == q {
        Err(p)
    } else if neg {
        if v <= 0x8000_0000 {
            Ok((e, (-v) as i32))
        } else {
            Err(p)
        }
    } else {
        if v <= i32::MAX {
            Ok((e, v as i32))
        } else {
            Err(p)
        }
    }
}

/// A pair at `p`: an `i32`, one or more spaces or tabs, an `i32`. `Err`
/// holds where the failing part began and which part it was.
pub open spec fn nom_pair_at(s: Seq<char>, p: int) -> Result<(int, (i32, i32)), (int, ErrorKind)> {
    match nom_i32_at(s, p) {
        Err(at) => Err((at, ErrorKind::Digit)),
        Ok((a_end, a)) => {
            let q = space_end(s, a_end);
            if q == a_end {
                Err((a_end, ErrorKind::Space))
            } else {
                match nom_i32_at(s, q) {
                    Err(at) => Err((at, ErrorKind::Digit)),
                    Ok((b_end, b)) => Ok((b_end, (a, b))),
                }
            }
        },
    }
}

/// A line ending at `p`: `\n` or `\r\n`; the position after it.
pub open spec fn line_ending_at(s: Seq<char>, p: int) -> Option<int> {
    if 0 <= p < s.len() && s[p] == '\n' {
        Some(p + 1)
    } else if 0 <= p && p + 1 < s.len() && s[p] == '\r' && s[p + 1] == '\n' {
        Some(p + 2)
    } else {
        None
    }
}

/// The pairs after the first, from position `i`: each one a line ending
/// and a pair. The list stops, at `i`, where either part does not match.
pub open spec fn nom_more_pairs(s: Seq<char>, i: int) -> (int, Seq<(i32, i32)>)
    decreases s.len() - i,
{
    match line_ending_at(s, i) {
        None => (i, Seq::empty()),
        Some(i1) => match nom_pair_at(s, i1) {
            Err(_) => (i, Seq::empty()),
            Ok((i2, pr)) => if i < i2 <= s.len() {
                let (e, rest) = nom_more_pairs(s, i2);
                (e, seq![pr] + rest)
            } else {
                (i, Seq::empty())
            },
        },
    }
}

/// The grammar on the whole input: one pair, then as many as follow on
/// their own lines. `Ok` holds the position where the list stopped and the
/// pairs; `Err` holds where the first pair failed and which part of it.
pub open spec fn spec_nom_pairs(s: Seq<char>) -> Result<(int, Seq<(i32, i32)>), (int, ErrorKind)> {
    match nom_pair_at(s, 0) {
        Err(f) => Err(f),
        Ok((i, pr)) => {
            let (e, rest) = nom_more_pairs(s, i);
            Ok((e, seq![pr] + rest))
        },
    }
}

/// The first index at or after `q` that is not an ASCII digit.
fn find_digit_end(chars: &Vec<char>, q: usize) -> (e: usize)
    requires
        q <= chars@.len(),
    ensures
        e == digit_end(chars@, q as int),
{
    let mut e = q;
    while e < chars.len() && '0' <= chars[e] && chars[e] <= '9'
        invariant
            q <= e <= chars@.len(),
            digit_end(chars@, q as int) == digit_end(chars@, e as int),
        decreases chars@.len() - e,
    {
        e += 1;
    }
    e
}

/// The first index at or after `q` that is not a space or a tab.
fn find_space_end(chars: &Vec<char>, q: usize) -> (e: usize)
    requires
        q <= chars@.len(),
    ensures
        e == space_end(chars@, q as int),
{
    let mut e = q;
    while e < chars.len() && (chars[e] == ' ' || chars[e] == '\t')
        invariant
            q <= e <= chars@.len(),
            space_end(chars@, q as int) == space_end(chars@, e as int),
        decreases chars@.len() - e,
    {
        e += 1;
    }
    e
}

/// An `i32` at `p`.
fn nom_i32(chars: &Vec<char>, p: usize) -> (r: Result<(usize, i32), usize>)
    requires
        p <= chars@.len(),
    ensures
        match r {
            Ok((e, v)) => nom_i32_at(chars@, p as int) == Ok::<(int, i32), int>((e as int, v))
                && p < e <= chars@.len(),
            Err(at) => nom_i32_at(chars@, p as int) == Err::<(int, i32), int>(at as int),
        },
{
    let neg = p < chars.len() && chars[p] == '-';
    let q = if p < chars.len() && (chars[p] == '-' || chars[p] == '+') {
        p + 1
    } else {
        p
    };
    let e = find_digit_end(chars, q);
    proof {
        lemma_digit_end(chars@, q as int);
    }
    if e == q {
        return Err(p);
    }
    let limit: u64 = if neg {
        0x8000_0000
    } else {
        0x7fff_ffff
    };
    match parse_digits(chars, q, e, limit) {
        None => Err(p),
        Some(x) => {
            if neg {
                Ok((e, (0i64 - x as i64) as i32))
            } else {
                Ok((e, x as i32))
            }
        },
    }
}

/// A pair at `p`.
fn nom_pair(chars: &Vec<char>, p: usize) -> (r: Result<(usize, (i32, i32)), (usize, ErrorKind)>)
    requires
        p <= chars@.len(),
    ensures
        match r {
            Ok((e, pr)) => nom_pair_at(chars@, p as int) == Ok::<
                (int, (i32, i32)),
                (int, ErrorKind),
            >((e as int, pr)) && p < e <= chars@.len(),
            Err((at, k)) => nom_pair_at(chars@, p as int) == Err::<
                (int, (i32, i32)),
                (int, ErrorKind),
            >((at as int, k)) && at <= chars@.len(),
        },
{
    let (a_end, a) = match nom_i32(chars, p) {
        Err(at) => {
            return Err((at, ErrorKind::Digit));
        },
        Ok(x) => x,
    };
    let q = find_space_end(chars, a_end);
    proof {
        lemma_space_end(chars@, a_end as int);
    }
    if q == a_end {
        return Err((a_end, ErrorKind::Space));
    }
    match nom_i32(chars, q) {
        Err(at) => Err((at, ErrorKind::Digit)),
        Ok((b_end, b)) => Ok((b_end, (a, b))),
    }
}

impl Day1 {
    /// Reads lines of two integers separated by spaces or tabs: one pair,
    /// then as many as follow, each after a line ending (`\n` or `\r\n`).
    /// The list stops before a line ending that no pair follows; what is
    /// left of the input comes back beside the pairs. If the first pair does
    /// not match, the error says where and which part.
    pub fn nom_parser<'a>(input: &'a str) -> (r: Result<(&'a str, Vec<(i32, i32)>), NomError<'a>>)
        ensures
            match spec_nom_pairs(input@) {
                Ok((e, prs)) => r matches Ok((rest, v)) && rest@ == input@.subrange(e, input@.len() as int)
                    && v@ == prs,
                Err((at, k)) => r matches Err(err) && err.input@ == input@.subrange(
                    at,
                    input@.len() as int,
                ) && err.code == k,
            },
    {
        let chars = chars_of(input);
        let n = chars.len();
        let (mut i, first) = match nom_pair(&chars, 0) {
            Err((at, k)) => {
                return Err(NomError { input: input.substring_char(at, n), code: k });
            },
            Ok(x) => x,
        };
        let mut pairs: Vec<(i32, i32)> = Vec::new();
        pairs.push(first);
        loop
            invariant
                chars@ == input@,
                n == chars@.len(),
                i <= n,
                pairs@.len() >= 1,
                spec_nom_pairs(input@) == Ok::<(int, Seq<(i32, i32)>), (int, ErrorKind)>(
                    (nom_more_pairs(input@, i as int).0, pairs@ + nom_more_pairs(input@, i as int).1),
                ),
            ensures
                i <= n,
                spec_nom_pairs(input@) == Ok::<(int, Seq<(i32, i32)>), (int, ErrorKind)>(
                    (i as int, pairs@),
                ),
            decreases n - i,
        {
            let i1 = if i < n && chars[i] == '\n' {
                i + 1
            } else if i < n && i + 1 < n && chars[i] == '\r' && chars[i + 1] == '\n' {
                i + 2
            } else {
                assert(pairs@ + Seq::<(i32, i32)>::empty() =~= pairs@);
                break;
            };
            match nom_pair(&chars, i1) {
                Err(_) => {
                    assert(pairs@ + Seq::<(i32, i32)>::empty() =~= pairs@);
                    break;
                },
                Ok((i2, pr)) => {
                    let ghost old_pairs = pairs@;
                    pairs.push(pr);
                    assert(old_pairs + (seq![pr] + nom_more_pairs(input@, i2 as int).1) =~= pairs@
                        + nom_more_pairs(input@, i2 as int).1);
                    i = i2;
                },
            }
        }
        Ok((input.substring_char(i, n), pairs))
    }
}

// ---------------------------------------------------------------------------
// The similarity score, exactly
// ---------------------------------------------------------------------------

/// The similarity score in exact arithmetic: each left-hand ID times its
/// number of occurrences in the right column, summed.
pub open spec fn exact_similarity<A>(left: Seq<A>, right: Seq<A>, weight: spec_fn(A) -> int) -> int
    decreases left.len(),
{
    if left.len() == 0 {
        0
    } else {
        exact_similarity(left.drop_last(), right, weight) + weight(left.last()) * count_in(
            right,
            left.last(),
        )
    }
}

/// An `i32` ID's weight: its value.
pub open spec fn id_weight() -> spec_fn(i32) -> int {
    |x: i32| x as int
}

/// A `usize` ID's weight: its value.
pub open spec fn usize_weight() -> spec_fn(usize) -> int {
    |x: usize| x as int
}

proof fn lemma_count_is_multiset_count<A>(s: Seq<A>, x: A)
    ensures
        count_in(s, x) == s.to_multiset().count(x),
    decreases s.len(),
{
    s.to_multiset_ensures();
    if s.len() > 0 {
        let init = s.drop_last();
        lemma_count_is_multiset_count(init, x);
        init.to_multiset_ensures();
        assert(init.push(s.last()) =~= s);
    } else {
        assert(s.to_multiset() =~= vstd::multiset::Multiset::empty());
    }
}

proof fn lemma_count_same_multiset<A>(r1: Seq<A>, r2: Seq<A>, x: A)
    requires
        r1.to_multiset() == r2.to_multiset(),
    ensures
        count_in(r1, x) == count_in(r2, x),
{
    lemma_count_is_multiset_count(r1, x);
    lemma_count_is_multiset_count(r2, x);
}

proof fn lemma_similarity_same_right<A>(left: Seq<A>, r1: Seq<A>, r2: Seq<A>, w: spec_fn(A) -> int)
    requires
        r1.to_multiset() == r2.to_multiset(),
    ensures
        exact_similarity(left, r1, w) == exact_similarity(left, r2, w),
    decreases left.len(),
{
    if left.len() > 0 {
        lemma_similarity_same_right(left.drop_last(), r1, r2, w);
        lemma_count_same_multiset(r1, r2, left.last());
    }
}

proof fn lemma_similarity_remove<A>(left: Seq<A>, right: Seq<A>, w: spec_fn(A) -> int, j: int)
    requires
        0 <= j < left.len(),
    ensures
        exact_similarity(left, right, w) == exact_similarity(left.remove(j), right, w) + w(left[j])
            * count_in(right, left[j]),
    decreases left.len(),
{
    if j == left.len() - 1 {
        assert(left.remove(j) =~= left.drop_last());
    } else {
        let init = left.drop_last();
        lemma_similarity_remove(init, right, w, j);
        assert(left.remove(j).drop_last() =~= init.remove(j));
        assert(left.remove(j).last() == left.last());
    }
}

proof fn lemma_similarity_same_left<A>(l1: Seq<A>, l2: Seq<A>, right: Seq<A>, w: spec_fn(A) -> int)
    requires
        l1.to_multiset() == l2.to_multiset(),
    ensures
        exact_similarity(l1, right, w) == exact_similarity(l2, right, w),
    decreases l1.len(),
{
    l1.to_multiset_ensures();
    l2.to_multiset_ensures();
    if l1.len() == 0 {
        assert(l2.len() == 0);
    } else {
        let x = l1.last();
        let init = l1.drop_last();
        init.to_multiset_ensures();
        assert(init.push(x) =~= l1);
        assert(l1.contains(x)) by {
            assert(l1[l1.len() - 1] == x);
        }
        assert(l2.to_multiset().count(x) > 0);
        assert(l2.contains(x));
        let j = choose|j: int| 0 <= j < l2.len() && l2[j] == x;
        assert(l2.remove(j).to_multiset() =~= l2.to_multiset().remove(x));
        assert(init.to_multiset() =~= l1.to_multiset().remove(x));
        lemma_similarity_same_left(init, l2.remove(j), right, w);
        lemma_similarity_remove(l2, right, w, j);
    }
}

/// The similarity score depends only on which IDs each column holds and
/// how often, not on their order: reordering either column leaves it
/// unchanged.
pub proof fn law_similarity_ignores_order<A>(
    l1: Seq<A>,
    r1: Seq<A>,
    l2: Seq<A>,
    r2: Seq<A>,
    weight: spec_fn(A) -> int,
)
    requires
        l1.to_multiset() == l2.to_multiset(),
        r1.to_multiset() == r2.to_multiset(),
    ensures
        exact_similarity(l1, r1, weight) == exact_similarity(l2, r2, weight),
{
    lemma_similarity_same_left(l1, l2, r1, weight);
    lemma_similarity_same_right(l2, r1, r2, weight);
}

/// Part 2 on the sorted columns answers the similarity score of the
/// columns as they were read: sorting changes neither score.
pub proof fn law_sorting_keeps_similarity(left: Seq<i32>, right: Seq<i32>)
    ensures
        exact_similarity(spec_sorted(left), spec_sorted(right), id_weight()) == exact_similarity(
            left,
            right,
            id_weight(),
        ),
{
    lemma_leq_total();
    left.lemma_sort_by_ensures(leq());
    right.lemma_sort_by_ensures(leq());
    law_similarity_ignores_order(spec_sorted(left), spec_sorted(right), left, right, id_weight());
}

proof fn lemma_similarity_run_exact(left: Seq<i32>, right: Seq<i32>, k: int)
    requires
        0 <= k <= left.len(),
        right.len() <= i32::MAX,
        similarity_run(left, right, k) is Some,
    ensures
        similarity_run(left, right, k) == Some(exact_similarity(left.take(k), right, id_weight())),
    decreases k,
{
    if k > 0 {
        lemma_similarity_run_exact(left, right, k - 1);
        assert(left.take(k).drop_last() =~= left.take(k - 1));
        lemma_count_le_len(right, left[k - 1]);
    } else {
        assert(left.take(0).len() == 0);
    }
}

proof fn lemma_count_le_len<A>(s: Seq<A>, x: A)
    ensures
        count_in(s, x) <= s.len(),
    decreases s.len(),
{
    if s.len() > 0 {
        lemma_count_le_len(s.drop_last(), x);
    }
}

proof fn lemma_wide_run_exact(left: Seq<i32>, right: Seq<i32>, k: int)
    requires
        0 <= k <= left.len(),
        wide_similarity_run(left, right, k) is Some,
    ensures
        wide_similarity_run(left, right, k) == Some(exact_similarity(left.take(k), right, id_weight())),
    decreases k,
{
    if k > 0 {
        lemma_wide_run_exact(left, right, k - 1);
        assert(left.take(k).drop_last() =~= left.take(k - 1));
    } else {
        assert(left.take(0).len() == 0);
    }
}

/// Wherever the `i32` and the checked `i64` computations of part 2 finish,
/// they answer the exact similarity score, and so agree with each other.
pub proof fn law_similarity_computations_agree(left: Seq<i32>, right: Seq<i32>)
    requires
        right.len() <= i32::MAX,
    ensures
        spec_similarity(left, right) matches Some(v) ==> v == exact_similarity(left, right, id_weight()),
        wide_similarity_run(left, right, left.len() as int) matches Some(v) ==> v == exact_similarity(
            left,
            right,
            id_weight(),
        ),
{
    assert(left.take(left.len() as int) =~= left);
    if spec_similarity(left, right) is Some {
        lemma_similarity_run_exact(left, right, left.len() as int);
    }
    if wide_similarity_run(left, right, left.len() as int) is Some {
        lemma_wide_run_exact(left, right, left.len() as int);
    }
}

proof fn lemma_map_run_exact(left: Seq<usize>, right: Seq<usize>, k: int)
    requires
        0 <= k <= left.len(),
        right.len() <= usize::MAX,
        map_similarity_run(left, frequencies(right), k) is Some,
    ensures
        map_similarity_run(left, frequencies(right), k) == Some(
            exact_similarity(left.take(k), right, usize_weight()),
        ),
    decreases k,
{
    if k > 0 {
        lemma_map_run_exact(left, right, k - 1);
        assert(left.take(k).drop_last() =~= left.take(k - 1));
        let x = left[k - 1];
        lemma_count_le_len(right, x);
        lemma_count_is_multiset_count(right, x);
        right.to_multiset_ensures();
        assert(count_or_zero(frequencies(right), x) == count_in(right, x));
    } else {
        assert(left.take(0).len() == 0);
    }
}

/// The frequency map answers the same score as scanning the right column
/// for every left-hand ID: where the `usize` sum finishes, it is the exact
/// similarity score.
pub proof fn law_frequency_map_agrees_with_scan(left: Seq<usize>, right: Seq<usize>)
    requires
        right.len() <= usize::MAX,
    ensures
        map_similarity_run(left, frequencies(right), left.len() as int) matches Some(v) ==> v
            == exact_similarity(left, right, usize_weight()),
{
    assert(left.take(left.len() as int) =~= left);
    if map_similarity_run(left, frequencies(right), left.len() as int) is Some {
        lemma_map_run_exact(left, right, left.len() as int);
    }
}

proof fn lemma_distance_run_symmetric(left: Seq<i32>, right: Seq<i32>, k: int)
    ensures
        distance_run(left, right, k) == distance_run(right, left, k),
    decreases k,
{
    if k > 0 {
        lemma_distance_run_symmetric(left, right, k - 1);
    }
}

/// Part 1's total distance does not depend on which column is which: each
/// rank pair adds the gap between its two IDs, whichever is larger, and the
/// sum overflows for both orders or for neither.
pub proof fn law_distance_is_symmetric(left: Seq<i32>, right: Seq<i32>)
    ensures
        spec_distance(left, right) == spec_distance(right, left),
{
    lemma_distance_run_symmetric(left, right, pairs(left, right));
    assert(pairs(left, right) == pairs(right, left));
}

proof fn lemma_distance_run_is_gaps(left: Seq<i32>, right: Seq<i32>, k: int)
    requires
        k <= left.len(),
        k <= right.len(),
    ensures
        distance_run(left, right, k) matches Some(v) ==> v == abs_distance(left, right, k),
    decreases k,
{
    if k > 0 {
        lemma_distance_run_is_gaps(left, right, k - 1);
    }
}

/// Part 1's total distance, when it fits, is the sum over the rank pairs of
/// `|left[i] - right[i]|`, and so never negative; it is 0 exactly when the
/// paired IDs are all equal.
pub proof fn law_distance_is_sum_of_gaps(left: Seq<i32>, right: Seq<i32>)
    ensures
        spec_distance(left, right) matches Some(v) ==> {
            &&& v == total_distance(left, right)
            &&& v >= 0
            &&& (v == 0 <==> forall|i: int| 0 <= i < pairs(left, right) ==> #[trigger] left[i] == right[i])
        },
{
    let n = pairs(left, right);
    lemma_distance_run_is_gaps(left, right, n);
    lemma_abs_distance_monotone(left, right, n, n);
    if spec_distance(left, right) is Some {
        if total_distance(left, right) == 0 {
            assert forall|i: int| 0 <= i < n implies #[trigger] left[i] == right[i] by {
                lemma_abs_distance_monotone(left, right, i, i);
                lemma_abs_distance_monotone(left, right, i + 1, n);
            }
        } else {
            lemma_gaps_zero(left, right, n);
        }
    }
}

proof fn lemma_gaps_zero(left: Seq<i32>, right: Seq<i32>, k: int)
    requires
        0 <= k,
    ensures
        (forall|i: int| 0 <= i < k ==> #[trigger] left[i] == right[i]) ==> abs_distance(left, right, k) == 0,
    decreases k,
{
    if k > 0 {
        lemma_gaps_zero(left, right, k - 1);
    }
}

} // verus!
