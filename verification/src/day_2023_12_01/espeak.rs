//! The puzzle as a speech synthesiser hears it: a line's digits are the
//! positions whose spoken suffix begins with the pronunciation of a digit.
//!
//! What this module holds is everything around the synthesiser: the
//! reference pronunciations and how a spoken suffix is matched against
//! them, how a transcription is cleaned of stress marks and spacing, and
//! how the digits heard along a line, and the lines of an input, add up.

use vstd::prelude::*;

use crate::text::{chars_of, has_prefix, push_char};

verus! {

/// Why a set of reference pronunciations cannot be used.
#[derive(Debug, Clone, Copy, PartialEq, Eq, Structural)]
pub enum SpeakerError {
    /// The synthesiser gave no phonemes for one of the references.
    EmptyReference,
}

/// The nineteen reference pronunciations, each with the value it stands
/// for: the digits first, then the words.
pub struct Speaker {
    references: Vec<(String, u32)>,
}

/// A character the comparison ignores: a primary or secondary stress mark,
/// a space, or a newline.
pub open spec fn is_ignored(c: char) -> bool {
    c == '\u{2c8}' || c == '\u{2cc}' || c == ' ' || c == '\n'
}

/// `s` without its ignored characters.
pub open spec fn spec_strip(s: Seq<char>) -> Seq<char>
    decreases s.len(),
{
    if s.len() == 0 {
        Seq::empty()
    } else if is_ignored(s.last()) {
        spec_strip(s.drop_last())
    } else {
        spec_strip(s.drop_last()).push(s.last())
    }
}

/// Removes stress marks, spaces and newlines from a transcription.
pub fn strip_phonemes(raw: &str) -> (r: String)
    ensures
        r@ == spec_strip(raw@),
{
    let cs = chars_of(raw);
    let mut r = String::new();
    let mut i: usize = 0;
    while i < cs.len()
        invariant
            cs@ == raw@,
            i <= cs@.len(),
            r@ == spec_strip(cs@.take(i as int)),
        decreases cs@.len() - i,
    {
        let c = cs[i];
        assert(cs@.take(i + 1).drop_last() =~= cs@.take(i as int));
        if !(c == '\u{2c8}' || c == '\u{2cc}' || c == ' ' || c == '\n') {
            push_char(&mut r, c);
        }
        i += 1;
    }
    assert(cs@.take(i as int) =~= cs@);
    r
}

/// The value of the first reference, in order, that `spoken` begins with.
pub open spec fn first_reference(refs: Seq<(Seq<char>, u32)>, spoken: Seq<char>, from: int) -> Option<u32>
    decreases refs.len() - from,
{
    if from < 0 || from >= refs.len() {
        None
    } else if has_prefix(spoken, refs[from].0) {
        Some(refs[from].1)
    } else {
        first_reference(refs, spoken, from + 1)
    }
}

/// The digits heard along a line, one entry per position.
pub open spec fn heard_digits(heard: Seq<Option<u32>>) -> Seq<u32>
    decreases heard.len(),
{
    if heard.len() == 0 {
        Seq::empty()
    } else {
        match heard.last() {
            Some(d) => heard_digits(heard.drop_last()).push(d),
            None => heard_digits(heard.drop_last()),
        }
    }
}

/// First digit heard times ten plus the last, each 0 when none is heard.
pub open spec fn spec_heard_value(heard: Seq<Option<u32>>) -> int {
    let ds = heard_digits(heard);
    if ds.len() == 0 {
        0
    } else {
        ds[0] * 10 + ds.last()
    }
}

/// The sum of `values`.
pub open spec fn spec_sum(values: Seq<u32>) -> nat
    decreases values.len(),
{
    if values.len() == 0 {
        0
    } else {
        spec_sum(values.drop_last()) + values.last() as nat
    }
}

/// How many positions hold the same value in both sequences.
pub open spec fn spec_agreed(a: Seq<u32>, b: Seq<u32>) -> nat
    decreases a.len(),
{
    if a.len() == 0 || b.len() < a.len() {
        0
    } else {
        spec_agreed(a.drop_last(), b.take(a.len() - 1)) + if a.last() == b[a.len() - 1] {
            1nat
        } else {
            0nat
        }
    }
}

impl Speaker {
    /// The references as character sequences with their values.
    pub closed spec fn refs(&self) -> Seq<(Seq<char>, u32)> {
        Seq::new(self.references@.len(), |i: int| (self.references@[i].0@, self.references@[i].1))
    }

    /// Takes the reference pronunciations; none of them may be empty.
    pub fn from_references(references: Vec<(String, u32)>) -> (r: Result<Speaker, SpeakerError>)
        ensures
            match r {
                Ok(s) => s.refs() == Seq::new(
                    references@.len(),
                    |i: int| (references@[i].0@, references@[i].1),
                ) && forall|i: int| 0 <= i < references@.len() ==> #[trigger] references@[i].0@.len() > 0,
                Err(e) => e == SpeakerError::EmptyReference && exists|i: int|
                    0 <= i < references@.len() && #[trigger] references@[i].0@.len() == 0,
            },
    {
        let mut i: usize = 0;
        while i < references.len()
            invariant
                i <= references@.len(),
                forall|j: int| 0 <= j < i ==> #[trigger] references@[j].0@.len() > 0,
            decreases references@.len() - i,
        {
            if references[i].0.as_str().is_empty() {
                return Err(SpeakerError::EmptyReference);
            }
            i += 1;
        }
        Ok(Speaker { references })
    }

    /// What the spoken suffix `spoken` is heard as: the value of the first
    /// reference it begins with, or nothing when it is empty or begins with
    /// none.
    pub fn digit_for(&self, spoken: &str) -> (r: Option<u32>)
        ensures
            r == (if spoken@.len() == 0 {
                None
            } else {
                first_reference(self.refs(), spoken@, 0)
            }),
    {
        let sc = chars_of(spoken);
        if sc.len() == 0 {
            return None;
        }
        let ghost refs = self.refs();
        let mut i: usize = 0;
        while i < self.references.len()
            invariant
                refs == self.refs(),
                sc@ == spoken@,
                spoken@.len() > 0,
                i <= refs.len(),
                refs.len() == self.references@.len(),
                first_reference(refs, spoken@, 0) == first_reference(refs, spoken@, i as int),
            decreases refs.len() - i,
        {
            let rc = chars_of(self.references[i].0.as_str());
            assert(rc@ == refs[i as int].0);
            let n = rc.len();
            let mut matched = n <= sc.len();
            let mut k: usize = 0;
            while matched && k < n
                invariant
                    n == rc@.len(),
                    rc@ == refs[i as int].0,
                    refs == self.refs(),
                    sc@ == spoken@,
                    i < refs.len(),
                    refs.len() == self.references@.len(),
                    first_reference(refs, spoken@, 0) == first_reference(refs, spoken@, i as int),
                    k <= n,
                    matched ==> n <= sc@.len(),
                    matched ==> forall|j: int| 0 <= j < k ==> sc@[j] == rc@[j],
                    !matched ==> !has_prefix(sc@, rc@),
                decreases n - k,
            {
                if sc[k] != rc[k] {
                    matched = false;
                    assert(sc@.take(n as int)[k as int] != rc@[k as int]);
                }
                k += 1;
            }
            if matched {
                assert(sc@.take(n as int) =~= rc@);
                return Some(self.references[i].1);
            }
            i += 1;
        }
        None
    }

    /// A line's value from what was heard at each of its positions: first
    /// digit heard times ten plus the last, each 0 when none was heard.
    pub fn calibration_from(heard: &[Option<u32>]) -> (v: u64)
        ensures
            v == spec_heard_value(heard@),
    {
        let mut first: Option<u32> = None;
        let mut last: Option<u32> = None;
        let mut i: usize = 0;
        while i < heard.len()
            invariant
                i <= heard@.len(),
                heard_digits(heard@.take(i as int)).len() == 0 ==> first is None && last is None,
                heard_digits(heard@.take(i as int)).len() > 0 ==> first == Some(
                    heard_digits(heard@.take(i as int))[0],
                ) && last == Some(heard_digits(heard@.take(i as int)).last()),
            decreases heard@.len() - i,
        {
            assert(heard@.take(i + 1).drop_last() =~= heard@.take(i as int));
            match heard[i] {
                Some(value) => {
                    if first.is_none() {
                        first = Some(value);
                    }
                    last = Some(value);
                },
                None => {},
            }
            i += 1;
        }
        assert(heard@.take(i as int) =~= heard@);
        let f: u64 = match first {
            Some(x) => x as u64,
            None => 0,
        };
        let l: u64 = match last {
            Some(x) => x as u64,
            None => 0,
        };
        f * 10 + l
    }
}

/// The sum of `values`, or `None` when it does not fit in a `u32`.
pub fn checked_sum(values: &[u32]) -> (r: Option<u32>)
    ensures
        match r {
            Some(t) => t == spec_sum(values@),
            None => spec_sum(values@) > u32::MAX,
        },
{
    let mut total: u32 = 0;
    let mut i: usize = 0;
    while i < values.len()
        invariant
            i <= values@.len(),
            total == spec_sum(values@.take(i as int)),
        decreases values@.len() - i,
    {
        assert(values@.take(i + 1).drop_last() =~= values@.take(i as int));
        match total.checked_add(values[i]) {
            Some(t) => {
                total = t;
            },
            None => {
                proof {
                    lemma_sum_prefix(values@, i + 1);
                }
                return None;
            },
        }
        i += 1;
    }
    assert(values@.take(i as int) =~= values@);
    Some(total)
}

proof fn lemma_sum_prefix(v: Seq<u32>, k: int)
    requires
        0 <= k <= v.len(),
    ensures
        spec_sum(v.take(k)) <= spec_sum(v),
    decreases v.len() - k,
{
    if k < v.len() {
        lemma_sum_prefix(v, k + 1);
        assert(v.take(k + 1).drop_last() =~= v.take(k));
    } else {
        assert(v.take(k) =~= v);
    }
}

/// How many lines were heard as they read: the number of positions where
/// `heard` and `read` hold the same value, and the number of lines.
pub fn agreement(heard: &[u32], read: &[u32]) -> (r: (usize, usize))
    requires
        heard@.len() == read@.len(),
    ensures
        r.0 == spec_agreed(heard@, read@),
        r.1 == heard@.len(),
{
    let mut agreed: usize = 0;
    let mut i: usize = 0;
    while i < heard.len()
        invariant
            heard@.len() == read@.len(),
            i <= heard@.len(),
            agreed <= i,
            agreed == spec_agreed(heard@.take(i as int), read@.take(i as int)),
        decreases heard@.len() - i,
    {
        assert(heard@.take(i + 1).drop_last() =~= heard@.take(i as int));
        assert(read@.take(i + 1).take(i as int) =~= read@.take(i as int));
        if heard[i] == read[i] {
            agreed += 1;
        }
        i += 1;
    }
    assert(heard@.take(i as int) =~= heard@);
    assert(read@.take(i as int) =~= read@);
    (agreed, heard.len())
}

} // verus!
