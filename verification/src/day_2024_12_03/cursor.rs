//! Day 3 read with nothing but a byte cursor: try to read `mul(X,Y)` at the
//! current position, move one byte forward when it isn't there.
//!
//! Operands are capped at three digits, the puzzle statement's own bound, so
//! `mul(1000,1)` is corruption here.

use vstd::prelude::*;

use crate::text::bytes_of;

verus! {

/// An ASCII decimal digit, as a byte.
pub open spec fn is_digit_byte(b: u8) -> bool {
    48 <= b <= 57
}

/// The value of a run of ASCII digit bytes, most significant first.
pub open spec fn bytes_val(s: Seq<u8>) -> nat
    decreases s.len(),
{
    if s.len() == 0 {
        0
    } else {
        bytes_val(s.drop_last()) * 10 + (s.last() - 48) as nat
    }
}

/// Where a number of at most three digits that starts at `pos` ends: `pos`
/// itself when no digit is there.
pub open spec fn num_end(s: Seq<u8>, pos: int) -> int {
    if 0 <= pos < s.len() && is_digit_byte(s[pos]) {
        if pos + 1 < s.len() && is_digit_byte(s[pos + 1]) {
            if pos + 2 < s.len() && is_digit_byte(s[pos + 2]) {
                pos + 3
            } else {
                pos + 2
            }
        } else {
            pos + 1
        }
    } else {
        pos
    }
}

/// The number of one to three digits at `pos` and the position after it.
pub open spec fn spec_parse_num(s: Seq<u8>, pos: int) -> Option<(nat, int)> {
    let e = num_end(s, pos);
    if e == pos {
        None
    } else {
        Some((bytes_val(s.subrange(pos, e)), e))
    }
}

/// `pat` occurs in `s` at `pos`.
pub open spec fn starts_at(s: Seq<u8>, pos: int, pat: Seq<u8>) -> bool {
    0 <= pos && pos + pat.len() <= s.len() && s.subrange(pos, pos + pat.len()) == pat
}

/// The bytes of `mul(`.
pub open spec fn mul_open() -> Seq<u8> {
    seq![109u8, 117u8, 108u8, 40u8]
}

/// The bytes of `do()`.
pub open spec fn do_tag() -> Seq<u8> {
    seq![100u8, 111u8, 40u8, 41u8]
}

/// The bytes of `don't()`.
pub open spec fn dont_tag() -> Seq<u8> {
    seq![100u8, 111u8, 110u8, 39u8, 116u8, 40u8, 41u8]
}

/// A well-formed `mul(X,Y)` at `pos`: its product and the position after it.
pub open spec fn spec_parse_mul(s: Seq<u8>, pos: int) -> Option<(nat, int)> {
    if !starts_at(s, pos, mul_open()) {
        None
    } else {
        match spec_parse_num(s, pos + 4) {
            None => None,
            Some((x, p)) => if !(p < s.len() && s[p] == 44u8) {
                None
            } else {
                match spec_parse_num(s, p + 1) {
                    None => None,
                    Some((y, q)) => if !(q < s.len() && s[q] == 41u8) {
                        None
                    } else {
                        Some((x * y, q + 1))
                    },
                }
            },
        }
    }
}

/// The product of the `mul(X,Y)` at `pos`, or 0 if there is none.
pub open spec fn product_at(s: Seq<u8>, pos: int) -> nat {
    match spec_parse_mul(s, pos) {
        Some((p, _)) => p,
        None => 0,
    }
}

/// The sum of the products of every `mul(X,Y)` that starts at or after `i`.
pub open spec fn part1_from(s: Seq<u8>, i: int) -> nat
    decreases s.len() - i,
{
    if i >= s.len() || i < 0 {
        0
    } else {
        product_at(s, i) + part1_from(s, i + 1)
    }
}

/// Part 1's answer for the bytes `s`.
pub open spec fn spec_part1(s: Seq<u8>) -> nat {
    part1_from(s, 0)
}

/// The sum of the enabled products from `i` on, `enabled` being the state of
/// the most recent toggle before `i`.
pub open spec fn part2_from(s: Seq<u8>, i: int, enabled: bool) -> nat
    decreases s.len() - i,
{
    if i >= s.len() || i < 0 {
        0
    } else if starts_at(s, i, do_tag()) {
        part2_from(s, i + 1, true)
    } else if starts_at(s, i, dont_tag()) {
        part2_from(s, i + 1, false)
    } else if enabled {
        product_at(s, i) + part2_from(s, i + 1, enabled)
    } else {
        part2_from(s, i + 1, enabled)
    }
}

/// Part 2's answer for the bytes `s`: multiplication starts enabled.
pub open spec fn spec_part2(s: Seq<u8>) -> nat {
    part2_from(s, 0, true)
}

proof fn lemma_bytes_val_step(s: Seq<u8>, a: int, e: int)
    requires
        0 <= a < e <= s.len(),
    ensures
        bytes_val(s.subrange(a, e)) == bytes_val(s.subrange(a, e - 1)) * 10 + (s[e - 1] - 48) as nat,
{
    assert(s.subrange(a, e).drop_last() =~= s.subrange(a, e - 1));
}

/// Parses a number of one to three digits starting at `pos`. Returns the
/// number and the position after it, or `None` if no digit is there.
pub fn parse_num(input: &[u8], pos: usize) -> (r: Option<(usize, usize)>)
    ensures
        match spec_parse_num(input@, pos as int) {
            None => r is None,
            Some((v, e)) => r == Some((v as usize, e as usize)) && v < 1000,
        },
{
    let start = pos;
    let mut end = pos;
    let mut value: usize = 0;
    while end < input.len() && end - start < 3 && (48 <= input[end] && input[end] <= 57)
        invariant
            start == pos,
            start <= end <= start + 3,
            end <= input@.len() || end == start,
            forall|k: int| start <= k < end ==> is_digit_byte(#[trigger] input@[k]),
            end > start ==> value as nat == bytes_val(input@.subrange(start as int, end as int)),
            value < 1000,
            end - start == 1 ==> value < 10,
            end - start == 2 ==> value < 100,
            end == start ==> value == 0,
        decreases 3 - (end - start),
    {
        proof {
            lemma_bytes_val_step(input@, start as int, end + 1);
            assert(input@.subrange(start as int, start as int) =~= Seq::<u8>::empty());
        }
        value = value * 10 + (input[end] - 48) as usize;
        end += 1;
    }
    if end == start {
        return None;
    }
    Some((value, end))
}

/// Tries to parse `mul(X,Y)` at `pos`. Returns the product and the
/// position after the closing parenthesis, or `None`.
pub fn parse_mul(input: &[u8], pos: usize) -> (r: Option<(usize, usize)>)
    requires
        pos <= input@.len(),
    ensures
        match spec_parse_mul(input@, pos as int) {
            None => r is None,
            Some((v, e)) => r == Some((v as usize, e as usize)) && v < 1_000_000,
        },
{
    if !(input.len() - pos >= 4 && input[pos] == 109 && input[pos + 1] == 117 && input[pos + 2]
        == 108 && input[pos + 3] == 40) {
        proof {
            if starts_at(input@, pos as int, mul_open()) {
                assert(input@.subrange(pos as int, pos + 4)[0] == input@[pos as int]);
                assert(input@.subrange(pos as int, pos + 4)[1] == input@[pos + 1]);
                assert(input@.subrange(pos as int, pos + 4)[2] == input@[pos + 2]);
                assert(input@.subrange(pos as int, pos + 4)[3] == input@[pos + 3]);
            }
        }
        return None;
    }
    assert(input@.subrange(pos as int, pos + 4) =~= mul_open());
    let p = pos + 4;
    let (x, p) = match parse_num(input, p) {
        Some(t) => t,
        None => {
            return None;
        },
    };
    if !(p < input.len() && input[p] == 44) {
        return None;
    }
    let p = p + 1;
    let (y, q) = match parse_num(input, p) {
        Some(t) => t,
        None => {
            return None;
        },
    };
    if !(q < input.len() && input[q] == 41) {
        return None;
    }
    assert(x * y < 1_000_000) by (nonlinear_arith)
        requires
            x < 1000,
            y < 1000,
    ;
    Some((x * y, q + 1))
}

/// `pat` occurs in `input` at `pos`.
pub(crate) fn starts_with_at(input: &[u8], pos: usize, pat: &[u8]) -> (r: bool)
    requires
        pos <= input@.len(),
    ensures
        r == starts_at(input@, pos as int, pat@),
{
    let n = input.len();
    if pat.len() > n - pos {
        return false;
    }
    let mut k: usize = 0;
    while k < pat.len()
        invariant
            n == input@.len(),
            pos + pat@.len() <= input@.len(),
            k <= pat@.len(),
            forall|j: int| 0 <= j < k ==> input@[pos + j] == pat@[j],
        decreases pat@.len() - k,
    {
        if input[pos + k] != pat[k] {
            assert(input@.subrange(pos as int, pos + pat@.len())[k as int] != pat@[k as int]);
            return false;
        }
        k += 1;
    }
    assert(input@.subrange(pos as int, pos + pat@.len()) =~= pat@);
    true
}

/// Sums every well-formed `mul(X,Y)` in the input with checked addition:
/// `None` when the sum does not fit a `usize`.
pub fn checked_part1(input: &str) -> (r: Option<usize>)
    ensures
        r == (if spec_part1(bytes_of(input)) <= usize::MAX {
            Some(spec_part1(bytes_of(input)) as usize)
        } else {
            None
        }),
{
    let bytes = input.as_bytes();
    let ghost s = bytes@;
    let mut sum: usize = 0;
    let mut i: usize = 0;
    while i < bytes.len()
        invariant
            s == bytes@,
            s == bytes_of(input),
            i <= s.len(),
            sum + part1_from(s, i as int) == spec_part1(s),
        decreases s.len() - i,
    {
        if let Some((product, _next)) = parse_mul(bytes, i) {
            match sum.checked_add(product) {
                Some(t) => {
                    sum = t;
                },
                None => {
                    assert(part1_from(s, i as int) == product_at(s, i as int) + part1_from(
                        s,
                        i + 1,
                    ));
                    return None;
                },
            }
        }
        i += 1;
    }
    Some(sum)
}

/// Sums every well-formed `mul(X,Y)` in the input.
pub fn part1(input: &str) -> (sum: usize)
    requires
        spec_part1(bytes_of(input)) <= usize::MAX,
    ensures
        sum == spec_part1(bytes_of(input)),
{
    checked_part1(input).unwrap()
}

/// Sums the enabled `mul(X,Y)`s with checked addition: `None` when the sum
/// does not fit a `usize`.
pub fn checked_part2(input: &str) -> (r: Option<usize>)
    ensures
        r == (if spec_part2(bytes_of(input)) <= usize::MAX {
            Some(spec_part2(bytes_of(input)) as usize)
        } else {
            None
        }),
{
    let bytes = input.as_bytes();
    let ghost s = bytes@;
    let do_bytes: [u8; 4] = [100, 111, 40, 41];
    let dont_bytes: [u8; 7] = [100, 111, 110, 39, 116, 40, 41];
    assert(do_bytes@ =~= do_tag());
    assert(dont_bytes@ =~= dont_tag());
    let mut sum: usize = 0;
    let mut enabled = true;
    let mut i: usize = 0;
    while i < bytes.len()
        invariant
            s == bytes@,
            s == bytes_of(input),
            do_bytes@ == do_tag(),
            dont_bytes@ == dont_tag(),
            i <= s.len(),
            sum + part2_from(s, i as int, enabled) == spec_part2(s),
        decreases s.len() - i,
    {
        if starts_with_at(bytes, i, do_bytes.as_slice()) {
            enabled = true;
        } else if starts_with_at(bytes, i, dont_bytes.as_slice()) {
            enabled = false;
        } else if enabled {
            if let Some((product, _next)) = parse_mul(bytes, i) {
                match sum.checked_add(product) {
                    Some(t) => {
                        sum = t;
                    },
                    None => {
                        assert(part2_from(s, i as int, enabled) == product_at(s, i as int)
                            + part2_from(s, i + 1, enabled));
                        return None;
                    },
                }
            }
        }
        i += 1;
    }
    Some(sum)
}

/// Sums the enabled `mul(X,Y)`s: `don't()` switches them off, `do()` back
/// on, the most recent toggle wins, and multiplication starts enabled.
pub fn part2(input: &str) -> (sum: usize)
    requires
        spec_part2(bytes_of(input)) <= usize::MAX,
    ensures
        sum == spec_part2(bytes_of(input)),
{
    checked_part2(input).unwrap()
}

/// The C-facing status code for input that is null or not UTF-8.
pub const INVALID_INPUT: i32 = -1;

/// The C-facing status code for a sum that could not be computed.
pub const INTERNAL: i32 = -4;

/// The C-facing answer: part 1's sum, or part 2's when `toggles` is set.
/// `None` stands for a null pointer or bytes that are not UTF-8 and is
/// refused; a sum past the `usize` is the internal status.
pub fn sum_status(input: Option<&str>, toggles: bool) -> (r: Result<u64, i32>)
    ensures
        match input {
            None => r == Err::<u64, i32>(INVALID_INPUT),
            Some(t) => {
                let total = if toggles {
                    spec_part2(bytes_of(t))
                } else {
                    spec_part1(bytes_of(t))
                };
                r == if total <= usize::MAX {
                    Ok::<u64, i32>(total as u64)
                } else {
                    Err::<u64, i32>(INTERNAL)
                }
            },
        },
{
    let t = match input {
        None => {
            return Err(INVALID_INPUT);
        },
        Some(t) => t,
    };
    let sum = if toggles {
        checked_part2(t)
    } else {
        checked_part1(t)
    };
    match sum {
        Some(v) => Ok(v as u64),
        None => Err(INTERNAL),
    }
}

proof fn lemma_part2_from_le(s: Seq<u8>, i: int, enabled: bool)
    ensures
        part2_from(s, i, enabled) <= part1_from(s, i),
    decreases s.len() - i,
{
    if 0 <= i < s.len() {
        lemma_part2_from_le(s, i + 1, true);
        lemma_part2_from_le(s, i + 1, false);
        lemma_part2_from_le(s, i + 1, enabled);
    }
}

/// Switching products off can only lower the sum: part 2's answer never
/// exceeds part 1's on the same text.
pub proof fn law_part2_at_most_part1(s: Seq<u8>)
    ensures
        spec_part2(s) <= spec_part1(s),
{
    lemma_part2_from_le(s, 0, true);
}

proof fn lemma_no_dont_from(s: Seq<u8>, i: int)
    requires
        forall|k: int| i <= k < s.len() ==> !starts_at(s, k, dont_tag()),
    ensures
        part2_from(s, i, true) == part1_from(s, i),
    decreases s.len() - i,
{
    if 0 <= i < s.len() {
        lemma_no_dont_from(s, i + 1);
    }
}

/// A text that holds no `don't()` scores the same under both parts:
/// multiplication starts enabled and nothing switches it off.
pub proof fn law_no_dont_parts_agree(s: Seq<u8>)
    requires
        forall|k: int| 0 <= k < s.len() ==> !starts_at(s, k, dont_tag()),
    ensures
        spec_part2(s) == spec_part1(s),
{
    lemma_no_dont_from(s, 0);
}

/// Multiplication is on at `p`: the most recent `do()` or `don't()` that
/// starts before `p` is a `do()`, or there is none. Put otherwise, every
/// `don't()` before `p` is followed by a `do()` that is still before `p`.
pub open spec fn enabled_at(s: Seq<u8>, p: int) -> bool {
    forall|q: int|
        0 <= q < p && #[trigger] starts_at(s, q, dont_tag()) ==> exists|r: int|
            q < r < p && #[trigger] starts_at(s, r, do_tag())
}

/// The sum of the products of the `mul(X,Y)` at `i` or after at which
/// multiplication is on.
pub open spec fn enabled_products(s: Seq<u8>, i: int) -> nat
    decreases s.len() - i,
{
    if i >= s.len() || i < 0 {
        0
    } else {
        (if enabled_at(s, i) {
            product_at(s, i)
        } else {
            0
        }) + enabled_products(s, i + 1)
    }
}

/// A `do()` or `don't()` is not where a `mul(` starts, and the two tags do
/// not start at the same place.
proof fn lemma_tags_apart(s: Seq<u8>, i: int)
    ensures
        starts_at(s, i, do_tag()) ==> !starts_at(s, i, dont_tag()) && product_at(s, i) == 0,
        starts_at(s, i, dont_tag()) ==> product_at(s, i) == 0,
{
    if starts_at(s, i, do_tag()) {
        assert(s.subrange(i, i + 4)[0] == s[i]);
        assert(s.subrange(i, i + 4)[2] == s[i + 2]);
        if starts_at(s, i, dont_tag()) {
            assert(s.subrange(i, i + 7)[2] == s[i + 2]);
        }
        if starts_at(s, i, mul_open()) {
            assert(s.subrange(i, i + 4)[0] == s[i]);
        }
    }
    if starts_at(s, i, dont_tag()) {
        assert(s.subrange(i, i + 7)[0] == s[i]);
        if starts_at(s, i, mul_open()) {
            assert(s.subrange(i, i + 4)[0] == s[i]);
        }
    }
}

proof fn lemma_part2_from_toggles(s: Seq<u8>, i: int, enabled: bool)
    requires
        0 <= i,
        enabled == enabled_at(s, i),
    ensures
        part2_from(s, i, enabled) == enabled_products(s, i),
    decreases s.len() - i,
{
    if i < s.len() {
        lemma_tags_apart(s, i);
        if starts_at(s, i, do_tag()) {
            assert forall|q: int| 0 <= q < i + 1 && #[trigger] starts_at(s, q, dont_tag()) implies exists|r: int|
                q < r < i + 1 && #[trigger] starts_at(s, r, do_tag()) by {
                assert(q < i);
                assert(starts_at(s, i, do_tag()));
            }
            lemma_part2_from_toggles(s, i + 1, true);
        } else if starts_at(s, i, dont_tag()) {
            if enabled_at(s, i + 1) {
                assert(0 <= i < i + 1 && starts_at(s, i, dont_tag()));
            }
            lemma_part2_from_toggles(s, i + 1, false);
        } else {
            if enabled {
                assert forall|q: int| 0 <= q < i + 1 && #[trigger] starts_at(s, q, dont_tag()) implies exists|r: int|
                    q < r < i + 1 && #[trigger] starts_at(s, r, do_tag()) by {
                    assert(q < i);
                }
            } else {
                let q = choose|q: int| !(0 <= q < i && #[trigger] starts_at(s, q, dont_tag()) ==> exists|r: int|
                    q < r < i && #[trigger] starts_at(s, r, do_tag()));
                if enabled_at(s, i + 1) {
                    assert(0 <= q < i + 1 && starts_at(s, q, dont_tag()));
                    let r = choose|r: int| q < r < i + 1 && #[trigger] starts_at(s, r, do_tag());
                    assert(r < i);
                }
            }
            lemma_part2_from_toggles(s, i + 1, enabled);
        }
    }
}

/// Part 2 is the most-recent-toggle rule: a `mul(X,Y)` counts exactly when
/// the last `do()` or `don't()` before it is a `do()`, or there is none; a
/// `don't()` switches multiplication off whatever came before it, and a
/// `do()` switches it on.
pub proof fn law_most_recent_toggle_wins(s: Seq<u8>)
    ensures
        spec_part2(s) == enabled_products(s, 0),
{
    lemma_part2_from_toggles(s, 0, true);
}

} // verus!
