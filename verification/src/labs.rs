//! Two small byte-counting routines behind a C boundary: how many `é`
//! characters a UTF-8 text holds, and the sum of its ASCII digits.

use vstd::prelude::*;

verus! {

/// The UTF-8 encoding of `é` starts at `i`: the bytes `C3 A9`.
pub open spec fn e_acute_at(b: Seq<u8>, i: int) -> bool {
    0 <= i && i + 1 < b.len() && b[i] == 0xC3 && b[i + 1] == 0xA9
}

/// The number of positions below `k` where an encoded `é` starts.
pub open spec fn e_acute_count(b: Seq<u8>, k: int) -> nat
    decreases k,
{
    if k <= 0 {
        0
    } else {
        e_acute_count(b, k - 1) + if e_acute_at(b, k - 1) {
            1nat
        } else {
            0nat
        }
    }
}

/// The sum of the values of the ASCII digits among the first `k` bytes.
pub open spec fn digit_sum(b: Seq<u8>, k: int) -> nat
    decreases k,
{
    if k <= 0 {
        0
    } else {
        digit_sum(b, k - 1) + if 0x30 <= b[k - 1] <= 0x39 {
            (b[k - 1] - 0x30) as nat
        } else {
            0nat
        }
    }
}

proof fn lemma_digit_sum_monotone(b: Seq<u8>, k: int, j: int)
    requires
        0 <= k <= j,
    ensures
        digit_sum(b, k) <= digit_sum(b, j),
    decreases j - k,
{
    if k < j {
        lemma_digit_sum_monotone(b, k, j - 1);
    }
}

/// How many `é` characters the text holds; `None` stands for a null
/// pointer and answers `-1`. The bytes are read as UTF-8 with invalid
/// sequences replaced, and `C3 A9` always reads as one `é`, since `C3` can
/// only start a character and `é` has no other encoding.
pub fn count_e_acute(input: Option<&[u8]>) -> (r: i64)
    ensures
        match input {
            None => r == -1,
            Some(b) => r == e_acute_count(b@, b@.len() as int) as i64,
        },
{
    let b = match input {
        None => {
            return -1;
        },
        Some(b) => b,
    };
    let mut n: usize = 0;
    let mut i: usize = 0;
    while i < b.len()
        invariant
            i <= b@.len(),
            n == e_acute_count(b@, i as int),
            n <= i,
        decreases b@.len() - i,
    {
        if b[i] == 0xC3 && i + 1 < b.len() && b[i + 1] == 0xA9 {
            n += 1;
        }
        i += 1;
    }
    n as i64
}

/// The sum of the ASCII digits of the text; `None` stands for a null
/// pointer and answers `-1`.
pub fn sum_digits(input: Option<&[u8]>) -> (r: i64)
    requires
        input matches Some(b) ==> digit_sum(b@, b@.len() as int) <= i64::MAX,
    ensures
        match input {
            None => r == -1,
            Some(b) => r == digit_sum(b@, b@.len() as int),
        },
{
    let b = match input {
        None => {
            return -1;
        },
        Some(b) => b,
    };
    let mut total: i64 = 0;
    let mut i: usize = 0;
    while i < b.len()
        invariant
            i <= b@.len(),
            total == digit_sum(b@, i as int),
            digit_sum(b@, b@.len() as int) <= i64::MAX,
        decreases b@.len() - i,
    {
        proof {
            lemma_digit_sum_monotone(b@, i + 1, b@.len() as int);
        }
        let c = b[i];
        if 0x30 <= c && c <= 0x39 {
            total = total + (c - 0x30) as i64;
        }
        i += 1;
    }
    total
}

} // verus!
