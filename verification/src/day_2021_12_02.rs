//! Day 2 of 2021: Dive!
//!
//! Each line is a command: `forward X`, `down X`, or `up X`. In part 1,
//! `forward` increases the horizontal position and `down`/`up` increase or
//! decrease the depth; the answer multiplies the two. In part 2, `down`/`up`
//! adjust an aim instead, and `forward X` also increases the depth by
//! `aim * X`.

use vstd::prelude::*;

use crate::text::{
    chars_of, find_chars, find_in, lemma_find_in_bounds, line_ranges, parse_i32, range_contents,
    ranges_within, spec_lines, spec_parse_i32, sub_chars,
};

verus! {

/// One line of the course.
#[derive(Debug, Clone, Copy, PartialEq, Eq, Structural)]
pub enum Command {
    Forward(i32),
    Down(i32),
    Up(i32),
}

/// Why a line is not a command.
#[derive(Debug, Clone, Copy, PartialEq, Eq, Structural)]
pub enum CommandError {
    /// The line has no space between the word and the amount.
    Malformed,
    /// The amount is not an `i32`.
    BadAmount,
    /// The word is none of `forward`, `down`, `up`.
    UnknownCommand,
}

/// An answer that does not fit the `i32` it is asked for in.
#[derive(Debug, Clone, Copy, PartialEq, Eq, Structural)]
pub struct OutOfRange(pub i64);

pub open spec fn forward_text() -> Seq<char> {
    seq!['f', 'o', 'r', 'w', 'a', 'r', 'd']
}

pub open spec fn down_text() -> Seq<char> {
    seq!['d', 'o', 'w', 'n']
}

pub open spec fn up_text() -> Seq<char> {
    seq!['u', 'p']
}

/// A line read as a command: split at the first space, the amount read as
/// `str::parse::<i32>()` reads it, then the word.
pub open spec fn spec_command(l: Seq<char>) -> Result<Command, CommandError> {
    match find_in(l, 0, l.len() as int, seq![' ']) {
        None => Err(CommandError::Malformed),
        Some(sp) => match spec_parse_i32(l.subrange(sp + 1, l.len() as int)) {
            None => Err(CommandError::BadAmount),
            Some(x) => {
                let word = l.subrange(0, sp);
                if word == forward_text() {
                    Ok(Command::Forward(x))
                } else if word == down_text() {
                    Ok(Command::Down(x))
                } else if word == up_text() {
                    Ok(Command::Up(x))
                } else {
                    Err(CommandError::UnknownCommand)
                }
            },
        },
    }
}

/// Every line read as a command; the first that is not one is the error.
pub open spec fn spec_commands(ls: Seq<Seq<char>>) -> Result<Seq<Command>, CommandError>
    decreases ls.len(),
{
    if ls.len() == 0 {
        Ok(Seq::empty())
    } else {
        match spec_command(ls[0]) {
            Err(e) => Err(e),
            Ok(c) => match spec_commands(ls.drop_first()) {
                Err(e) => Err(e),
                Ok(rest) => Ok(seq![c] + rest),
            },
        }
    }
}

/// A value that fits in an `i32`.
pub open spec fn fits(v: int) -> bool {
    i32::MIN <= v <= i32::MAX
}

/// Part 1's state after one more command, in `i32` arithmetic: `None` once
/// any value has left the `i32`.
pub open spec fn step1(p: Option<(int, int)>, c: Command) -> Option<(int, int)> {
    match p {
        None => None,
        Some((h, d)) => match c {
            Command::Forward(x) => if fits(h + x) {
                Some((h + x, d))
            } else {
                None
            },
            Command::Down(x) => if fits(d + x) {
                Some((h, d + x))
            } else {
                None
            },
            Command::Up(x) => if fits(d - x) {
                Some((h, d - x))
            } else {
                None
            },
        },
    }
}

/// Part 1's horizontal position and depth after the first `k` commands.
pub open spec fn run1(cs: Seq<Command>, k: int) -> Option<(int, int)>
    decreases k,
{
    if k <= 0 {
        Some((0, 0))
    } else {
        step1(run1(cs, k - 1), cs[k - 1])
    }
}

/// Part 2's state after one more command, in `i32` arithmetic.
pub open spec fn step2(p: Option<(int, int, int)>, c: Command) -> Option<(int, int, int)> {
    match p {
        None => None,
        Some((h, d, a)) => match c {
            Command::Forward(x) => if fits(h + x) && fits(a * x) && fits(d + a * x) {
                Some((h + x, d + a * x, a))
            } else {
                None
            },
            Command::Down(x) => if fits(a + x) {
                Some((h, d, a + x))
            } else {
                None
            },
            Command::Up(x) => if fits(a - x) {
                Some((h, d, a - x))
            } else {
                None
            },
        },
    }
}

/// Part 2's horizontal position, depth and aim after the first `k` commands.
pub open spec fn run2(cs: Seq<Command>, k: int) -> Option<(int, int, int)>
    decreases k,
{
    if k <= 0 {
        Some((0, 0, 0))
    } else {
        step2(run2(cs, k - 1), cs[k - 1])
    }
}

/// Part 1's answer, `horizontal * depth`, when every value on the way and
/// the product itself fit in an `i32`.
pub open spec fn spec_dead_reckon(cs: Seq<Command>) -> Option<int> {
    match run1(cs, cs.len() as int) {
        Some((h, d)) => if fits(h * d) {
            Some(h * d)
        } else {
            None
        },
        None => None,
    }
}

/// Part 2's answer, `horizontal * depth`, when every value on the way and
/// the product itself fit in an `i32`.
pub open spec fn spec_dead_reckon_with_aim(cs: Seq<Command>) -> Option<int> {
    match run2(cs, cs.len() as int) {
        Some((h, d, _)) => if fits(h * d) {
            Some(h * d)
        } else {
            None
        },
        None => None,
    }
}

impl Command {
    /// Reads one line as a command.
    pub fn from_str(line: &str) -> (r: Result<Command, CommandError>)
        ensures
            r == spec_command(line@),
    {
        let l = chars_of(line);
        Self::from_chars(&l)
    }

    /// Reads the characters of one line as a command.
    pub fn from_chars(l: &Vec<char>) -> (r: Result<Command, CommandError>)
        ensures
            r == spec_command(l@),
    {
        let space: [char; 1] = [' '];
        assert(space@ =~= seq![' ']);
        let sp = match find_chars(l, 0, space.as_slice()) {
            None => {
                return Err(CommandError::Malformed);
            },
            Some(sp) => sp,
        };
        proof {
            lemma_find_in_bounds(l@, 0, l@.len() as int, seq![' ']);
        }
        let n = l.len();
        let x = match parse_i32(l, sp + 1, n) {
            None => {
                return Err(CommandError::BadAmount);
            },
            Some(x) => x,
        };
        let word = sub_chars(l, 0, sp);
        let fwd: [char; 7] = ['f', 'o', 'r', 'w', 'a', 'r', 'd'];
        let dwn: [char; 4] = ['d', 'o', 'w', 'n'];
        let up: [char; 2] = ['u', 'p'];
        assert(fwd@ =~= forward_text());
        assert(dwn@ =~= down_text());
        assert(up@ =~= up_text());
        if chars_eq(&word, fwd.as_slice()) {
            Ok(Command::Forward(x))
        } else if chars_eq(&word, dwn.as_slice()) {
            Ok(Command::Down(x))
        } else if chars_eq(&word, up.as_slice()) {
            Ok(Command::Up(x))
        } else {
            Err(CommandError::UnknownCommand)
        }
    }
}

/// The two character sequences are equal.
fn chars_eq(a: &Vec<char>, b: &[char]) -> (r: bool)
    ensures
        r == (a@ == b@),
{
    if a.len() != b.len() {
        return false;
    }
    let mut i: usize = 0;
    while i < a.len()
        invariant
            a@.len() == b@.len(),
            i <= a@.len(),
            forall|j: int| 0 <= j < i ==> a@[j] == b@[j],
        decreases a@.len() - i,
    {
        if a[i] != b[i] {
            return false;
        }
        i += 1;
    }
    assert(a@ =~= b@);
    true
}

/// Submarine state: horizontal distance, depth, and (part two only) aim.
#[derive(Debug, Default)]
struct Position {
    horizontal: i32,
    depth: i32,
    aim: i32,
}

impl Position {
    fn apply(&mut self, command: &Command)
        requires
            step1(Some((old(self).horizontal as int, old(self).depth as int)), *command) is Some,
        ensures
            step1(Some((old(self).horizontal as int, old(self).depth as int)), *command) == Some(
                (final(self).horizontal as int, final(self).depth as int),
            ),
            final(self).aim == old(self).aim,
    {
        match *command {
            Command::Forward(x) => self.horizontal += x,
            Command::Down(x) => self.depth += x,
            Command::Up(x) => self.depth -= x,
        }
    }

    fn apply_with_aim(&mut self, command: &Command)
        requires
            step2(
                Some((old(self).horizontal as int, old(self).depth as int, old(self).aim as int)),
                *command,
            ) is Some,
        ensures
            step2(
                Some((old(self).horizontal as int, old(self).depth as int, old(self).aim as int)),
                *command,
            ) == Some((final(self).horizontal as int, final(self).depth as int, final(self).aim as int)),
    {
        match *command {
            Command::Forward(x) => {
                self.horizontal += x;
                self.depth += self.aim * x;
            },
            Command::Down(x) => self.aim += x,
            Command::Up(x) => self.aim -= x,
        }
    }
}

proof fn lemma_run1_none_stays(cs: Seq<Command>, k: int, j: int)
    requires
        0 <= k <= j <= cs.len(),
        run1(cs, k) is None,
    ensures
        run1(cs, j) is None,
    decreases j - k,
{
    if k < j {
        lemma_run1_none_stays(cs, k, j - 1);
    }
}

proof fn lemma_run2_none_stays(cs: Seq<Command>, k: int, j: int)
    requires
        0 <= k <= j <= cs.len(),
        run2(cs, k) is None,
    ensures
        run2(cs, j) is None,
    decreases j - k,
{
    if k < j {
        lemma_run2_none_stays(cs, k, j - 1);
    }
}

/// Runs the course and returns `horizontal * depth`. No value may leave the
/// `i32` on the way, nor the product.
pub fn dead_reckon_pure_rust(commands: &[Command]) -> (r: i32)
    requires
        spec_dead_reckon(commands@) is Some,
    ensures
        r == spec_dead_reckon(commands@)->0,
{
    let ghost cs = commands@;
    let mut position = Position { horizontal: 0, depth: 0, aim: 0 };
    let mut i: usize = 0;
    while i < commands.len()
        invariant
            cs == commands@,
            i <= cs.len(),
            spec_dead_reckon(cs) is Some,
            run1(cs, i as int) == Some((position.horizontal as int, position.depth as int)),
        decreases cs.len() - i,
    {
        proof {
            if run1(cs, i + 1) is None {
                lemma_run1_none_stays(cs, i + 1, cs.len() as int);
            }
        }
        position.apply(&commands[i]);
        i += 1;
    }
    position.horizontal * position.depth
}

/// Part two's aim rules. No value may leave the `i32` on the way, nor the
/// product.
pub fn dead_reckon_with_aim_pure_rust(commands: &[Command]) -> (r: i32)
    requires
        spec_dead_reckon_with_aim(commands@) is Some,
    ensures
        r == spec_dead_reckon_with_aim(commands@)->0,
{
    let ghost cs = commands@;
    let mut position = Position { horizontal: 0, depth: 0, aim: 0 };
    let mut i: usize = 0;
    while i < commands.len()
        invariant
            cs == commands@,
            i <= cs.len(),
            spec_dead_reckon_with_aim(cs) is Some,
            run2(cs, i as int) == Some(
                (position.horizontal as int, position.depth as int, position.aim as int),
            ),
        decreases cs.len() - i,
    {
        proof {
            if run2(cs, i + 1) is None {
                lemma_run2_none_stays(cs, i + 1, cs.len() as int);
            }
        }
        position.apply_with_aim(&commands[i]);
        i += 1;
    }
    position.horizontal * position.depth
}

/// Part one's answer, or `None` when a value on the way or the product
/// leaves the `i32`.
pub fn checked_dead_reckon_pure_rust(commands: &[Command]) -> (r: Option<i32>)
    ensures
        match spec_dead_reckon(commands@) {
            Some(v) => r == Some(v as i32),
            None => r is None,
        },
{
    let ghost cs = commands@;
    let mut h: i32 = 0;
    let mut d: i32 = 0;
    let mut i: usize = 0;
    while i < commands.len()
        invariant
            cs == commands@,
            i <= cs.len(),
            run1(cs, i as int) == Some((h as int, d as int)),
        decreases cs.len() - i,
    {
        let next = match commands[i] {
            Command::Forward(x) => match h.checked_add(x) {
                Some(v) => Some((v, d)),
                None => None,
            },
            Command::Down(x) => match d.checked_add(x) {
                Some(v) => Some((h, v)),
                None => None,
            },
            Command::Up(x) => match d.checked_sub(x) {
                Some(v) => Some((h, v)),
                None => None,
            },
        };
        match next {
            Some((a, b)) => {
                h = a;
                d = b;
            },
            None => {
                proof {
                    lemma_run1_none_stays(cs, i + 1, cs.len() as int);
                }
                return None;
            },
        }
        i += 1;
    }
    h.checked_mul(d)
}

/// Part two's answer, or `None` when a value on the way or the product
/// leaves the `i32`.
pub fn checked_dead_reckon_with_aim_pure_rust(commands: &[Command]) -> (r: Option<i32>)
    ensures
        match spec_dead_reckon_with_aim(commands@) {
            Some(v) => r == Some(v as i32),
            None => r is None,
        },
{
    let ghost cs = commands@;
    let mut h: i32 = 0;
    let mut d: i32 = 0;
    let mut a: i32 = 0;
    let mut i: usize = 0;
    while i < commands.len()
        invariant
            cs == commands@,
            i <= cs.len(),
            run2(cs, i as int) == Some((h as int, d as int, a as int)),
        decreases cs.len() - i,
    {
        let next = match commands[i] {
            Command::Forward(x) => match (h.checked_add(x), a.checked_mul(x)) {
                (Some(nh), Some(m)) => match d.checked_add(m) {
                    Some(nd) => Some((nh, nd, a)),
                    None => None,
                },
                _ => None,
            },
            Command::Down(x) => match a.checked_add(x) {
                Some(v) => Some((h, d, v)),
                None => None,
            },
            Command::Up(x) => match a.checked_sub(x) {
                Some(v) => Some((h, d, v)),
                None => None,
            },
        };
        match next {
            Some((p, q, r)) => {
                h = p;
                d = q;
                a = r;
            },
            None => {
                proof {
                    lemma_run2_none_stays(cs, i + 1, cs.len() as int);
                }
                return None;
            },
        }
        i += 1;
    }
    h.checked_mul(d)
}

/// Narrows a 64-bit answer to the puzzle's `i32`.
pub fn narrow(product: i64) -> (r: Result<i32, OutOfRange>)
    ensures
        r == (if fits(product as int) {
            Ok::<i32, OutOfRange>(product as i32)
        } else {
            Err::<i32, OutOfRange>(OutOfRange(product))
        }),
{
    if i32::MIN as i64 <= product && product <= i32::MAX as i64 {
        Ok(product as i32)
    } else {
        Err(OutOfRange(product))
    }
}

/// The course: one command per line.
#[derive(Debug, Clone)]
pub struct Day(pub Vec<Command>);

impl Day {
    /// Reads every line as a command; the first line that is not one is
    /// the error. An empty input is an empty course.
    pub fn from_str(input: &str) -> (r: Result<Day, CommandError>)
        ensures
            match r {
                Ok(d) => spec_commands(spec_lines(input@)) == Ok::<Seq<Command>, CommandError>(d.0@),
                Err(e) => spec_commands(spec_lines(input@)) == Err::<Seq<Command>, CommandError>(e),
            },
    {
        let chars = chars_of(input);
        let ranges = line_ranges(&chars);
        let ghost ls = spec_lines(input@);
        let mut acc: Vec<Command> = Vec::new();
        let mut i: usize = 0;
        assert(ls.skip(0) =~= ls);
        assert forall|rest: Seq<Command>| acc@ + rest == rest by {
            assert(acc@ + rest =~= rest);
        }
        while i < ranges.len()
            invariant
                chars@ == input@,
                ranges_within(chars@, ranges@),
                range_contents(chars@, ranges@) == ls,
                ls == spec_lines(input@),
                i <= ranges@.len(),
                spec_commands(ls) == match spec_commands(ls.skip(i as int)) {
                    Ok(rest) => Ok(acc@ + rest),
                    Err(e) => Err(e),
                },
            decreases ranges@.len() - i,
        {
            let (a, b) = ranges[i];
            let line = sub_chars(&chars, a, b);
            assert(line@ == ls[i as int]);
            assert(ls.skip(i as int).drop_first() =~= ls.skip(i + 1));
            assert(ls.skip(i as int)[0] == ls[i as int]);
            match Command::from_chars(&line) {
                Err(e) => {
                    return Err(e);
                },
                Ok(c) => {
                    let ghost old_acc = acc@;
                    acc.push(c);
                    assert forall|rest: Seq<Command>| old_acc + (seq![c] + rest) == acc@ + rest by {
                        assert(old_acc + (seq![c] + rest) =~= acc@ + rest);
                    }
                },
            }
            i += 1;
        }
        assert(ls.skip(i as int) =~= Seq::<Seq<char>>::empty());
        assert(acc@ + Seq::<Command>::empty() =~= acc@);
        Ok(Day(acc))
    }

    /// Part 1: `horizontal * depth`, which must fit in an `i32` along with
    /// every value on the way.
    pub fn part1(&self) -> (r: i32)
        requires
            spec_dead_reckon(self.0@) is Some,
        ensures
            r == spec_dead_reckon(self.0@)->0,
    {
        dead_reckon_pure_rust(self.0.as_slice())
    }

    /// Part 2: the same product under the aim rules.
    pub fn part2(&self) -> (r: i32)
        requires
            spec_dead_reckon_with_aim(self.0@) is Some,
        ensures
            r == spec_dead_reckon_with_aim(self.0@)->0,
    {
        dead_reckon_with_aim_pure_rust(self.0.as_slice())
    }
}

/// The C-facing status code for input that is null, not UTF-8, or holds a
/// line that is not a command.
pub const INVALID_INPUT: i32 = -1;

/// The C-facing status code for an answer that leaves the `int`.
pub const OVERFLOW: i32 = -3;

/// The C-facing answer: part 1's product, or part 2's when `aim` is set.
/// `None` stands for a null pointer or bytes that are not UTF-8 and is
/// refused, as is a course with a line that is not a command; a value that
/// leaves the `int` on the way is the overflow status.
pub fn product_status(input: Option<&str>, aim: bool) -> (r: Result<i32, i32>)
    ensures
        match input {
            None => r == Err::<i32, i32>(INVALID_INPUT),
            Some(t) => match spec_commands(spec_lines(t@)) {
                Err(_) => r == Err::<i32, i32>(INVALID_INPUT),
                Ok(cs) => {
                    let answer = if aim {
                        spec_dead_reckon_with_aim(cs)
                    } else {
                        spec_dead_reckon(cs)
                    };
                    r == match answer {
                        Some(v) => Ok::<i32, i32>(v as i32),
                        None => Err::<i32, i32>(OVERFLOW),
                    }
                },
            },
        },
{
    let t = match input {
        None => {
            return Err(INVALID_INPUT);
        },
        Some(t) => t,
    };
    let day = match Day::from_str(t) {
        Err(_) => {
            return Err(INVALID_INPUT);
        },
        Ok(d) => d,
    };
    let answer = if aim {
        checked_dead_reckon_with_aim_pure_rust(day.0.as_slice())
    } else {
        checked_dead_reckon_pure_rust(day.0.as_slice())
    };
    match answer {
        Some(v) => Ok(v),
        None => Err(OVERFLOW),
    }
}

/// Under the aim rules `down` and `up` steer the aim exactly as they steer
/// the depth under the first rules, and `forward` moves the horizontal
/// position the same way under both: wherever the course runs under the
/// aim rules, it runs under the first rules too, with the same horizontal
/// position and the first rules' depth equal to the aim.
pub proof fn law_aim_follows_first_depth(cs: Seq<Command>, k: int)
    requires
        0 <= k <= cs.len(),
        run2(cs, k) is Some,
    ensures
        run1(cs, k) == Some(((run2(cs, k)->0).0, (run2(cs, k)->0).2)),
    decreases k,
{
    if k > 0 {
        assert(run2(cs, k - 1) is Some);
        law_aim_follows_first_depth(cs, k - 1);
    }
}

} // verus!
