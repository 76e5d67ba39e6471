//! Day 3 of 2024: Mull It Over.
//!
//! Multiplication instructions buried in corrupted text, some of them
//! switched off. Part 1 sums the products of every well-formed `mul(a,b)`;
//! in part 2, `do()` and `don't()` toggle whether a `mul` counts, the most
//! recent toggle wins, and multiplication starts enabled.
//!
//! This module reads the text the way a `take_until`/`tag`/`digit1` grammar
//! does: find the next `mul(`, read a run of digits of any length, a comma,
//! another run, a closing parenthesis. [`cursor`] reads it the other way.

pub mod cursor;

use std::marker::PhantomData;

use vstd::prelude::*;

use crate::day_2024_12_03::cursor::{
    bytes_val, dont_tag, do_tag, is_digit_byte, mul_open, starts_at, starts_with_at,
};
use crate::text::{bytes_of, chars_of, parse_usize, spec_parse_usize};

verus! {

/// Marker for the reading that sums every `mul`.
#[derive(Debug)]
pub struct Part1;

/// Marker for the reading that honours `do()` and `don't()`.
#[derive(Debug)]
pub struct Part2;

/// A multiplication with its two operands.
#[derive(Debug, Clone, Copy)]
pub struct Product(pub usize, pub usize);

impl Product {
    /// Creates a product from the decimal texts of its operands, read as
    /// `str::parse::<usize>()` reads them. Both must parse.
    pub fn new(a: &str, b: &str) -> (p: Self)
        requires
            spec_parse_usize(a@) is Some,
            spec_parse_usize(b@) is Some,
        ensures
            p.0 == spec_parse_usize(a@)->0,
            p.1 == spec_parse_usize(b@)->0,
    {
        let ca = chars_of(a);
        let cb = chars_of(b);
        assert(ca@.subrange(0, ca@.len() as int) =~= a@);
        assert(cb@.subrange(0, cb@.len() as int) =~= b@);
        let x = parse_usize(&ca, 0, ca.len());
        let y = parse_usize(&cb, 0, cb.len());
        Product(x.unwrap(), y.unwrap())
    }

    /// The product of the two operands, which must fit in a `usize`.
    pub fn value(&self) -> (v: usize)
        requires
            self.0 * self.1 <= usize::MAX,
        ensures
            v == self.0 * self.1,
    {
        self.0 * self.1
    }
}

/// The products a day's input holds, read for part `P`.
#[derive(Debug)]
pub struct Day3<P>(pub Vec<Product>, pub PhantomData<P>);

/// How the `mul(` grammar fares when it starts looking at `p`.
pub enum NomMul {
    /// A `mul(A,B)` was read: the digit runs `[a0, a1)` and `[b0, b1)`, and
    /// the position after the closing parenthesis.
    Found { a0: int, a1: int, b0: int, b1: int, next: int },
    /// No `mul(` occurs before the end of the window.
    NoTag,
    /// A `mul(` occurs but what follows it is not `A,B)`.
    Malformed,
}

/// The first position in `[from, to - pat.len()]` where `pat` occurs.
pub open spec fn spec_find(s: Seq<u8>, from: int, to: int, pat: Seq<u8>) -> Option<int>
    decreases to - from + 1,
{
    if from < 0 || from > to || from + pat.len() > to {
        None
    } else if starts_at(s, from, pat) {
        Some(from)
    } else {
        spec_find(s, from + 1, to, pat)
    }
}

/// Where the run of ASCII digits that starts at `i` ends, within `w`.
pub open spec fn digit_run_end(s: Seq<u8>, i: int, w: int) -> int
    decreases w - i,
{
    if i >= w || i < 0 || i >= s.len() || !is_digit_byte(s[i]) {
        i
    } else {
        digit_run_end(s, i + 1, w)
    }
}

/// The grammar `take_until("mul(")`, `mul(`, digits, `,`, digits, `)`
/// applied to the window `[p, w)`.
pub open spec fn nom_mul_at(s: Seq<u8>, p: int, w: int) -> NomMul {
    match spec_find(s, p, w, mul_open()) {
        None => NomMul::NoTag,
        Some(m) => {
            let a0 = m + 4;
            let a1 = digit_run_end(s, a0, w);
            if a1 == a0 || !(a1 < w && s[a1] == 44u8) {
                NomMul::Malformed
            } else {
                let b0 = a1 + 1;
                let b1 = digit_run_end(s, b0, w);
                if b1 == b0 || !(b1 < w && s[b1] == 41u8) {
                    NomMul::Malformed
                } else {
                    NomMul::Found { a0, a1, b0, b1, next: b1 + 1 }
                }
            }
        },
    }
}

/// A UTF-8 continuation byte: not the first byte of a character.
pub open spec fn is_continuation(b: u8) -> bool {
    0x80 <= b <= 0xbf
}

/// Two readings glued end to end; either one failing fails the whole.
pub open spec fn glue(x: (Seq<(nat, nat)>, bool), y: (Seq<(nat, nat)>, bool)) -> (Seq<(nat, nat)>, bool) {
    (x.0 + y.0, x.1 || y.1)
}

/// Every `mul(A,B)` the grammar reads in the window `[p, w)`, with its two
/// operand values, and whether reading them fails on the way: an operand
/// too large for a `usize`, or a step of one byte that lands inside a
/// character. After a malformed `mul(` the search starts again one byte
/// after `p`.
pub open spec fn all_mul_from(s: Seq<u8>, p: int, w: int) -> (Seq<(nat, nat)>, bool)
    decreases w - p,
{
    if p >= w || p < 0 {
        (Seq::empty(), false)
    } else {
        match nom_mul_at(s, p, w) {
            NomMul::NoTag => (Seq::empty(), false),
            NomMul::Malformed => if w - p > 1 {
                if is_continuation(s[p + 1]) {
                    (Seq::empty(), true)
                } else {
                    all_mul_from(s, p + 1, w)
                }
            } else {
                (Seq::empty(), false)
            },
            NomMul::Found { a0, a1, b0, b1, next } => {
                let x = bytes_val(s.subrange(a0, a1));
                let y = bytes_val(s.subrange(b0, b1));
                if next <= p {
                    (Seq::empty(), true)
                } else {
                    glue(
                        (seq![(x, y)], x > usize::MAX || y > usize::MAX),
                        all_mul_from(s, next, w),
                    )
                }
            },
        }
    }
}

/// Part 1's reading of `s`: every `mul(A,B)` in the whole text.
pub open spec fn spec_products_part1(s: Seq<u8>) -> (Seq<(nat, nat)>, bool) {
    all_mul_from(s, 0, s.len() as int)
}

/// Part 2's reading from a `don't()` at `cur`: skip to the next `do()`, then
/// read up to the next `don't()` and go on from there.
pub open spec fn enabled_from_dont(s: Seq<u8>, cur: int) -> (Seq<(nat, nat)>, bool)
    decreases s.len() - cur,
{
    if cur < 0 || cur + 7 > s.len() {
        (Seq::empty(), false)
    } else {
        match spec_find(s, cur + 7, s.len() as int, do_tag()) {
            None => (Seq::empty(), false),
            Some(q) => match spec_find(s, q + 4, s.len() as int, dont_tag()) {
                None => all_mul_from(s, q + 4, s.len() as int),
                Some(d) => if d <= cur || d > s.len() {
                    (Seq::empty(), true)
                } else {
                    glue(all_mul_from(s, q + 4, d), enabled_from_dont(s, d))
                },
            },
        }
    }
}

/// Part 2's reading of `s`: the text before the first `don't()`, then every
/// stretch that a `do()` switches back on.
pub open spec fn spec_products_part2(s: Seq<u8>) -> (Seq<(nat, nat)>, bool) {
    match spec_find(s, 0, s.len() as int, dont_tag()) {
        None => all_mul_from(s, 0, s.len() as int),
        Some(d0) => glue(all_mul_from(s, 0, d0), enabled_from_dont(s, d0)),
    }
}

/// The sum of the products of the operand pairs in `ps`.
pub open spec fn sum_products(ps: Seq<(nat, nat)>) -> nat
    decreases ps.len(),
{
    if ps.len() == 0 {
        0
    } else {
        sum_products(ps.drop_last()) + ps.last().0 * ps.last().1
    }
}

/// The operand pairs held in `v`.
pub open spec fn products_view(v: Seq<Product>) -> Seq<(nat, nat)> {
    Seq::new(v.len(), |i: int| (v[i].0 as nat, v[i].1 as nat))
}

impl<P> Day3<P> {
    /// The operand pairs this day holds, in input order.
    pub open spec fn pairs(&self) -> Seq<(nat, nat)> {
        products_view(self.0@)
    }

    /// The number of products held.
    pub fn len(&self) -> (n: usize)
        ensures
            n == self.pairs().len(),
    {
        self.0.len()
    }

    /// The sum of every product held, which must fit in a `usize`.
    pub fn total(&self) -> (t: usize)
        requires
            sum_products(self.pairs()) <= usize::MAX,
        ensures
            t == sum_products(self.pairs()),
    {
        let mut t: usize = 0;
        let mut i: usize = 0;
        while i < self.0.len()
            invariant
                i <= self.0@.len(),
                t == sum_products(self.pairs().take(i as int)),
                sum_products(self.pairs()) <= usize::MAX,
            decreases self.0@.len() - i,
        {
            proof {
                let ps = self.pairs();
                assert(ps.take(i + 1).drop_last() =~= ps.take(i as int));
                lemma_sum_products_prefix(ps, i + 1);
            }
            t = t + self.0[i].value();
            i += 1;
        }
        assert(self.pairs().take(i as int) =~= self.pairs());
        t
    }
}

proof fn lemma_sum_products_prefix(ps: Seq<(nat, nat)>, k: int)
    requires
        0 <= k <= ps.len(),
    ensures
        sum_products(ps.take(k)) <= sum_products(ps),
    decreases ps.len() - k,
{
    if k < ps.len() {
        lemma_sum_products_prefix(ps, k + 1);
        assert(ps.take(k + 1).drop_last() =~= ps.take(k));
        assert(ps.take(k) =~= ps.take(k + 1).drop_last());
    } else {
        assert(ps.take(k) =~= ps);
    }
}


/// The grammar's verdict at one position, as the code sees it.
enum MulAt {
    Found { a0: usize, a1: usize, b0: usize, b1: usize, next: usize },
    NoTag,
    Malformed,
}

/// The first position in `[from, to - pat.len()]` where `pat` occurs.
fn find_pat(s: &[u8], from: usize, to: usize, pat: &[u8]) -> (r: Option<usize>)
    requires
        from <= to <= s@.len(),
        pat@.len() > 0,
    ensures
        match r {
            Some(i) => spec_find(s@, from as int, to as int, pat@) == Some(i as int),
            None => spec_find(s@, from as int, to as int, pat@) is None,
        },
{
    let mut i = from;
    while i <= to && pat.len() <= to - i
        invariant
            from <= i,
            to <= s@.len(),
            pat@.len() > 0,
            spec_find(s@, from as int, to as int, pat@) == spec_find(s@, i as int, to as int, pat@),
        decreases to - i + 1,
    {
        if starts_with_at(s, i, pat) {
            return Some(i);
        }
        i += 1;
    }
    None
}

/// Where the run of ASCII digits that starts at `i` ends, within `w`.
fn run_end(s: &[u8], i: usize, w: usize) -> (e: usize)
    requires
        i <= w <= s@.len(),
    ensures
        e == digit_run_end(s@, i as int, w as int),
        i <= e <= w,
        forall|k: int| i <= k < e ==> is_digit_byte(#[trigger] s@[k]),
{
    let mut j = i;
    while j < w && 48 <= s[j] && s[j] <= 57
        invariant
            i <= j <= w <= s@.len(),
            digit_run_end(s@, i as int, w as int) == digit_run_end(s@, j as int, w as int),
            forall|k: int| i <= k < j ==> is_digit_byte(#[trigger] s@[k]),
        decreases w - j,
    {
        j += 1;
    }
    j
}

proof fn lemma_bytes_val_prefix(s: Seq<u8>, a: int, k: int, j: int)
    requires
        0 <= a <= k <= j <= s.len(),
    ensures
        bytes_val(s.subrange(a, k)) <= bytes_val(s.subrange(a, j)),
    decreases j - k,
{
    if k < j {
        lemma_bytes_val_prefix(s, a, k, j - 1);
        assert(s.subrange(a, j).drop_last() =~= s.subrange(a, j - 1));
    }
}

/// The value of the digit bytes `s[a..b]`, or `None` if it exceeds a `usize`.
fn digits_value(s: &[u8], a: usize, b: usize) -> (r: Option<usize>)
    requires
        a <= b <= s@.len(),
        forall|k: int| a <= k < b ==> is_digit_byte(#[trigger] s@[k]),
    ensures
        match r {
            Some(v) => v == bytes_val(s@.subrange(a as int, b as int)),
            None => bytes_val(s@.subrange(a as int, b as int)) > usize::MAX,
        },
{
    let mut acc: usize = 0;
    let mut k = a;
    assert(s@.subrange(a as int, a as int) =~= Seq::<u8>::empty());
    while k < b
        invariant
            a <= k <= b <= s@.len(),
            forall|j: int| a <= j < b ==> is_digit_byte(#[trigger] s@[j]),
            acc == bytes_val(s@.subrange(a as int, k as int)),
        decreases b - k,
    {
        assert(s@.subrange(a as int, k + 1).drop_last() =~= s@.subrange(a as int, k as int));
        let d = (s[k] - 48) as usize;
        let next = match acc.checked_mul(10) {
            Some(m) => m.checked_add(d),
            None => None,
        };
        match next {
            Some(x) => {
                acc = x;
            },
            None => {
                proof {
                    lemma_bytes_val_prefix(s@, a as int, k + 1, b as int);
                }
                return None;
            },
        }
        k += 1;
    }
    Some(acc)
}

/// Applies the `mul(` grammar to the window `[p, w)`.
fn mul_at(s: &[u8], p: usize, w: usize) -> (r: MulAt)
    requires
        p <= w <= s@.len(),
    ensures
        match (r, nom_mul_at(s@, p as int, w as int)) {
            (MulAt::NoTag, NomMul::NoTag) => true,
            (MulAt::Malformed, NomMul::Malformed) => true,
            (
                MulAt::Found { a0, a1, b0, b1, next },
                NomMul::Found { a0: x0, a1: x1, b0: y0, b1: y1, next: n },
            ) => a0 == x0 && a1 == x1 && b0 == y0 && b1 == y1 && next == n && p < a0 && a0 < a1
                && a1 < b0 && b0 < b1 && b1 < next && next <= w,
            _ => false,
        },
        r matches MulAt::Found { a0, a1, b0, b1, next } ==> (forall|k: int|
            a0 <= k < a1 ==> is_digit_byte(#[trigger] s@[k])) && (forall|k: int|
            b0 <= k < b1 ==> is_digit_byte(#[trigger] s@[k])),
{
    let open: [u8; 4] = [109, 117, 108, 40];
    assert(open@ =~= mul_open());
    let m = match find_pat(s, p, w, open.as_slice()) {
        None => {
            return MulAt::NoTag;
        },
        Some(m) => m,
    };
    proof {
        lemma_find_in_window(s@, p as int, w as int, mul_open());
    }
    let a0 = m + 4;
    let a1 = run_end(s, a0, w);
    if a1 == a0 || !(a1 < w && s[a1] == 44) {
        return MulAt::Malformed;
    }
    let b0 = a1 + 1;
    let b1 = run_end(s, b0, w);
    if b1 == b0 || !(b1 < w && s[b1] == 41) {
        return MulAt::Malformed;
    }
    MulAt::Found { a0, a1, b0, b1, next: b1 + 1 }
}

proof fn lemma_find_in_window(s: Seq<u8>, from: int, to: int, pat: Seq<u8>)
    ensures
        spec_find(s, from, to, pat) matches Some(i) ==> from <= i && i + pat.len() <= to,
    decreases to - from + 1,
{
    if !(from < 0 || from > to || from + pat.len() > to) && !starts_at(s, from, pat) {
        lemma_find_in_window(s, from + 1, to, pat);
    }
}

/// Appends every `mul(A,B)` the grammar reads in `[start, w)` to `acc`.
fn parse_all_mul(s: &[u8], start: usize, w: usize, acc: &mut Vec<Product>)
    requires
        start <= w <= s@.len(),
        !all_mul_from(s@, start as int, w as int).1,
    ensures
        products_view(final(acc)@) == products_view(old(acc)@) + all_mul_from(
            s@,
            start as int,
            w as int,
        ).0,
{
    let ghost base = products_view(old(acc)@);
    let mut p = start;
    assert(products_view(acc@) + all_mul_from(s@, p as int, w as int).0 =~= base + all_mul_from(
        s@,
        start as int,
        w as int,
    ).0);
    while p < w
        invariant
            start <= p <= w <= s@.len(),
            !all_mul_from(s@, p as int, w as int).1,
            products_view(acc@) + all_mul_from(s@, p as int, w as int).0 == base + all_mul_from(
                s@,
                start as int,
                w as int,
            ).0,
        decreases w - p,
    {
        match mul_at(s, p, w) {
            MulAt::Found { a0, a1, b0, b1, next } => {
                let x = digits_value(s, a0, a1);
                let y = digits_value(s, b0, b1);
                let ghost old_acc = acc@;
                let ghost rest = all_mul_from(s@, next as int, w as int);
                acc.push(Product(x.unwrap(), y.unwrap()));
                assert(products_view(acc@) =~= products_view(old_acc) + seq![
                    (x.unwrap() as nat, y.unwrap() as nat),
                ]);
                assert(all_mul_from(s@, p as int, w as int).0 =~= seq![
                    (x.unwrap() as nat, y.unwrap() as nat),
                ] + rest.0);
                assert(products_view(acc@) + rest.0 =~= products_view(old_acc) + all_mul_from(
                    s@,
                    p as int,
                    w as int,
                ).0);
                p = next;
            },
            MulAt::NoTag => {
                assert(all_mul_from(s@, p as int, w as int).0 =~= Seq::<(nat, nat)>::empty());
                assert(products_view(acc@) =~= products_view(acc@) + Seq::<(nat, nat)>::empty());
                p = w;
            },
            MulAt::Malformed => {
                if w - p > 1 {
                    p = p + 1;
                } else {
                    assert(all_mul_from(s@, p as int, w as int).0 =~= Seq::<(nat, nat)>::empty());
                    assert(products_view(acc@) =~= products_view(acc@) + Seq::<(nat, nat)>::empty());
                    p = w;
                }
            },
        }
    }
    assert(all_mul_from(s@, p as int, w as int).0 =~= Seq::<(nat, nat)>::empty());
    assert(products_view(acc@) =~= products_view(acc@) + Seq::<(nat, nat)>::empty());
}


impl Day3<Part1> {
    /// Reads every well-formed `mul(A,B)` in `input`, skipping corruption.
    /// The reading must not fail: no operand may exceed a `usize`, and no
    /// step past a malformed `mul(` may land inside a character.
    pub fn from_str(input: &str) -> (d: Self)
        requires
            !spec_products_part1(bytes_of(input)).1,
        ensures
            d.pairs() == spec_products_part1(bytes_of(input)).0,
    {
        let s = input.as_bytes();
        let mut acc: Vec<Product> = Vec::new();
        parse_all_mul(s, 0, s.len(), &mut acc);
        assert(products_view(Seq::<Product>::empty()) =~= Seq::<(nat, nat)>::empty());
        assert(Seq::<(nat, nat)>::empty() + spec_products_part1(s@).0 =~= spec_products_part1(
            s@,
        ).0);
        Day3(acc, PhantomData)
    }

    /// Sums all products.
    pub fn part1(&self) -> (sum: usize)
        requires
            sum_products(self.pairs()) <= usize::MAX,
        ensures
            sum == sum_products(self.pairs()),
    {
        self.total()
    }
}

impl Day3<Part2> {
    /// Reads the `mul(A,B)`s that are switched on: those before the first
    /// `don't()`, and after that those between each `do()` and the next
    /// `don't()`. The reading must not fail (see [`Day3::<Part1>::from_str`]).
    pub fn from_str(input: &str) -> (d: Self)
        requires
            !spec_products_part2(bytes_of(input)).1,
        ensures
            d.pairs() == spec_products_part2(bytes_of(input)).0,
    {
        let s = input.as_bytes();
        let n = s.len();
        let dont: [u8; 7] = [100, 111, 110, 39, 116, 40, 41];
        let dob: [u8; 4] = [100, 111, 40, 41];
        assert(dont@ =~= dont_tag());
        assert(dob@ =~= do_tag());
        let ghost full = spec_products_part2(s@);
        let mut acc: Vec<Product> = Vec::new();
        assert(products_view(acc@) =~= Seq::<(nat, nat)>::empty());
        let mut current = match find_pat(s, 0, n, dont.as_slice()) {
            None => {
                parse_all_mul(s, 0, n, &mut acc);
                assert(products_view(acc@) =~= full.0);
                return Day3(acc, PhantomData);
            },
            Some(d0) => {
                proof {
                    lemma_find_in_window(s@, 0, n as int, dont_tag());
                }
                parse_all_mul(s, 0, d0, &mut acc);
                d0
            },
        };
        loop
            invariant_except_break
                products_view(acc@) + enabled_from_dont(s@, current as int).0 == full.0,
            invariant
                n == s@.len(),
                dont@ == dont_tag(),
                dob@ == do_tag(),
                current + 7 <= n,
                full == spec_products_part2(s@),
                !full.1,
                !enabled_from_dont(s@, current as int).1,
            ensures
                products_view(acc@) == full.0,
            decreases n - current,
        {
            match find_pat(s, current + 7, n, dob.as_slice()) {
                None => {
                    assert(products_view(acc@) =~= products_view(acc@) + Seq::<(nat, nat)>::empty());
                    break;
                },
                Some(q) => {
                    proof {
                        lemma_find_in_window(s@, current + 7, n as int, do_tag());
                    }
                    match find_pat(s, q + 4, n, dont.as_slice()) {
                        Some(d) => {
                            proof {
                                lemma_find_in_window(s@, q + 4, n as int, dont_tag());
                            }
                            let ghost before = products_view(acc@);
                            parse_all_mul(s, q + 4, d, &mut acc);
                            assert(products_view(acc@) + enabled_from_dont(s@, d as int).0 =~= before
                                + enabled_from_dont(s@, current as int).0);
                            current = d;
                        },
                        None => {
                            parse_all_mul(s, q + 4, n, &mut acc);
                            break;
                        },
                    }
                },
            }
        }
        Day3(acc, PhantomData)
    }

    /// Sums all enabled products.
    pub fn part2(&self) -> (sum: usize)
        requires
            sum_products(self.pairs()) <= usize::MAX,
        ensures
            sum == sum_products(self.pairs()),
    {
        self.total()
    }
}

proof fn lemma_starts_shift(pre: Seq<u8>, s: Seq<u8>, p: int, pat: Seq<u8>)
    requires
        0 <= p,
    ensures
        starts_at(pre + s, p + pre.len(), pat) == starts_at(s, p, pat),
{
    let n = pre.len() as int;
    if p + pat.len() <= s.len() {
        assert((pre + s).subrange(p + n, p + n + pat.len()) =~= s.subrange(p, p + pat.len()));
    }
}

proof fn lemma_find_shift(pre: Seq<u8>, s: Seq<u8>, from: int, to: int, pat: Seq<u8>)
    requires
        0 <= from,
        to <= s.len(),
    ensures
        spec_find(pre + s, from + pre.len(), to + pre.len(), pat) == match spec_find(s, from, to, pat) {
            Some(i) => Some(i + pre.len()),
            None => None::<int>,
        },
    decreases to - from + 1,
{
    lemma_starts_shift(pre, s, from, pat);
    if !(from > to || from + pat.len() > to) && !starts_at(s, from, pat) {
        lemma_find_shift(pre, s, from + 1, to, pat);
    }
}

proof fn lemma_digit_run_shift(pre: Seq<u8>, s: Seq<u8>, i: int, w: int)
    requires
        0 <= i,
        w <= s.len(),
    ensures
        digit_run_end(pre + s, i + pre.len(), w + pre.len()) == digit_run_end(s, i, w) + pre.len(),
    decreases w - i,
{
    if i < w {
        assert((pre + s)[i + pre.len()] == s[i]);
        if is_digit_byte(s[i]) {
            lemma_digit_run_shift(pre, s, i + 1, w);
        }
    }
}

proof fn lemma_digit_run_bounds(s: Seq<u8>, i: int, w: int)
    ensures
        i <= w ==> i <= digit_run_end(s, i, w) <= w,
    decreases w - i,
{
    if !(i >= w || i < 0 || i >= s.len() || !is_digit_byte(s[i])) {
        lemma_digit_run_bounds(s, i + 1, w);
    }
}

proof fn lemma_nom_shift(pre: Seq<u8>, s: Seq<u8>, p: int, w: int)
    requires
        0 <= p <= w,
        w <= s.len(),
    ensures
        match nom_mul_at(s, p, w) {
            NomMul::NoTag => nom_mul_at(pre + s, p + pre.len(), w + pre.len()) is NoTag,
            NomMul::Malformed => nom_mul_at(pre + s, p + pre.len(), w + pre.len()) is Malformed,
            NomMul::Found { a0, a1, b0, b1, next } => {
                &&& nom_mul_at(pre + s, p + pre.len(), w + pre.len()) == (NomMul::Found {
                    a0: a0 + pre.len(),
                    a1: a1 + pre.len(),
                    b0: b0 + pre.len(),
                    b1: b1 + pre.len(),
                    next: next + pre.len(),
                })
                &&& p <= a0 <= a1 < b0 <= b1 < next <= w
            },
        },
{
    let n = pre.len() as int;
    let t = pre + s;
    lemma_find_shift(pre, s, p, w, mul_open());
    lemma_find_in_window(s, p, w, mul_open());
    match spec_find(s, p, w, mul_open()) {
        None => {},
        Some(m) => {
            let a0 = m + 4;
            lemma_digit_run_shift(pre, s, a0, w);
            lemma_digit_run_bounds(s, a0, w);
            let a1 = digit_run_end(s, a0, w);
            if a1 < w {
                assert(t[a1 + n] == s[a1]);
            }
            let b0 = a1 + 1;
            lemma_digit_run_shift(pre, s, b0, w);
            lemma_digit_run_bounds(s, b0, w);
            let b1 = digit_run_end(s, b0, w);
            if b1 < w {
                assert(t[b1 + n] == s[b1]);
            }
        },
    }
}

proof fn lemma_all_mul_shift(pre: Seq<u8>, s: Seq<u8>, p: int, w: int)
    requires
        0 <= p,
        w <= s.len(),
    ensures
        all_mul_from(pre + s, p + pre.len(), w + pre.len()) == all_mul_from(s, p, w),
    decreases w - p,
{
    let n = pre.len() as int;
    let t = pre + s;
    if p < w {
        lemma_nom_shift(pre, s, p, w);
        match nom_mul_at(s, p, w) {
            NomMul::NoTag => {},
            NomMul::Malformed => {
                if w - p > 1 {
                    assert(t[p + 1 + n] == s[p + 1]);
                    lemma_all_mul_shift(pre, s, p + 1, w);
                }
            },
            NomMul::Found { a0, a1, b0, b1, next } => {
                assert(t.subrange(a0 + n, a1 + n) =~= s.subrange(a0, a1));
                assert(t.subrange(b0 + n, b1 + n) =~= s.subrange(b0, b1));
                lemma_all_mul_shift(pre, s, next, w);
            },
        }
    }
}

proof fn lemma_enabled_shift(pre: Seq<u8>, s: Seq<u8>, cur: int)
    requires
        0 <= cur,
    ensures
        enabled_from_dont(pre + s, cur + pre.len()) == enabled_from_dont(s, cur),
    decreases s.len() - cur,
{
    let n = pre.len() as int;
    let t = pre + s;
    let len = s.len() as int;
    if cur + 7 <= len {
        lemma_find_shift(pre, s, cur + 7, len, do_tag());
        lemma_find_in_window(s, cur + 7, len, do_tag());
        match spec_find(s, cur + 7, len, do_tag()) {
            None => {},
            Some(q) => {
                lemma_find_shift(pre, s, q + 4, len, dont_tag());
                lemma_find_in_window(s, q + 4, len, dont_tag());
                match spec_find(s, q + 4, len, dont_tag()) {
                    None => {
                        lemma_all_mul_shift(pre, s, q + 4, len);
                    },
                    Some(d) => {
                        lemma_all_mul_shift(pre, s, q + 4, d);
                        lemma_enabled_shift(pre, s, d);
                    },
                }
            },
        }
    }
}

/// A `don't()` straight away undone by a `do()` changes nothing: part 2
/// reads `don't()do()` followed by any text exactly as it reads the text
/// alone. The `do()` switches multiplication back on, and the reading goes
/// on from there through every later `don't()` and `do()`.
pub proof fn law_undone_dont_changes_nothing(s: Seq<u8>)
    ensures
        spec_products_part2(dont_tag() + do_tag() + s) == spec_products_part2(s),
{
    let pre = dont_tag() + do_tag();
    let t = pre + s;
    assert(dont_tag() + do_tag() + s == t);
    let len = s.len() as int;
    assert(pre.len() == 11);
    assert(t.subrange(0, 7) =~= dont_tag());
    assert(starts_at(t, 0, dont_tag()));
    assert(spec_find(t, 0, t.len() as int, dont_tag()) == Some(0int));
    assert(t.subrange(7, 11) =~= do_tag());
    assert(starts_at(t, 7, do_tag()));
    assert(spec_find(t, 7, t.len() as int, do_tag()) == Some(7int));
    lemma_find_shift(pre, s, 0, len, dont_tag());
    lemma_find_in_window(s, 0, len, dont_tag());
    match spec_find(s, 0, len, dont_tag()) {
        None => {
            lemma_all_mul_shift(pre, s, 0, len);
        },
        Some(d) => {
            lemma_all_mul_shift(pre, s, 0, d);
            lemma_enabled_shift(pre, s, d);
        },
    }
    let x = enabled_from_dont(t, 0);
    assert(all_mul_from(t, 0, 0) == (Seq::<(nat, nat)>::empty(), false));
    assert(glue((Seq::<(nat, nat)>::empty(), false), x).0 =~= x.0);
}

proof fn lemma_find_none(s: Seq<u8>, from: int, to: int, pat: Seq<u8>)
    requires
        forall|q: int| !#[trigger] starts_at(s, q, pat),
    ensures
        spec_find(s, from, to, pat) is None,
    decreases to - from + 1,
{
    if !(from < 0 || from > to || from + pat.len() > to) {
        lemma_find_none(s, from + 1, to, pat);
    }
}

/// A `don't()` that no `do()` follows switches everything after it off: a
/// text that opens with `don't()` and holds no `do()` gives no product.
pub proof fn law_dont_without_do_reads_nothing(s: Seq<u8>)
    requires
        forall|q: int| !#[trigger] starts_at(s, q, do_tag()),
    ensures
        spec_products_part2(dont_tag() + s) == (Seq::<(nat, nat)>::empty(), false),
{
    let pre = dont_tag();
    let t = pre + s;
    assert(t.subrange(0, 7) =~= dont_tag());
    assert(spec_find(t, 0, t.len() as int, dont_tag()) == Some(0int));
    assert forall|q: int| !#[trigger] starts_at(t, q, do_tag()) by {
        if starts_at(t, q, do_tag()) {
            if q >= 7 {
                lemma_starts_shift(pre, s, q - 7, do_tag());
            } else {
                assert(t.subrange(q, q + 4)[0] == t[q]);
                assert(t.subrange(q, q + 4)[1] == t[q + 1]);
                assert(t.subrange(q, q + 4)[2] == t[q + 2]);
                assert(t.subrange(q, q + 4)[3] == t[q + 3]);
                if q >= 4 {
                    assert(t[q] == s[q - 7] || q < 7);
                }
            }
        }
    }
    lemma_find_none(t, 7, t.len() as int, do_tag());
    assert(all_mul_from(t, 0, 0) == (Seq::<(nat, nat)>::empty(), false));
    assert(glue((Seq::<(nat, nat)>::empty(), false), (Seq::<(nat, nat)>::empty(), false)).0 =~= Seq::<(nat, nat)>::empty());
}

/// With no `don't()` in the text nothing is switched off: part 2 reads
/// every `mul(A,B)` that part 1 reads.
pub proof fn law_without_dont_both_readings_agree(s: Seq<u8>)
    requires
        forall|q: int| !#[trigger] starts_at(s, q, dont_tag()),
    ensures
        spec_products_part2(s) == spec_products_part1(s),
{
    lemma_find_none(s, 0, s.len() as int, dont_tag());
}

} // verus!
