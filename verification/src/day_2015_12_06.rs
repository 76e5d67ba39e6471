//! Day 6 of 2015: Probably a Fire Hazard.
//!
//! A 1000×1000 grid of lights, all off, and a list of instructions over
//! inclusive rectangles: `turn on 0,0 through 999,999`, `toggle 0,0 through
//! 999,0`, `turn off 499,499 through 500,500`. Part 1 reads the words as
//! switches and counts the lights left on. Part 2 reads the same words as
//! brightness: `turn on` adds one, `turn off` subtracts one but never below
//! zero, `toggle` adds two, and sums the brightness of every light.

use vstd::prelude::*;

use crate::text::{
    chars_of, find_chars, find_in, has_prefix, lemma_find_in_bounds, parse_usize, spec_lines,
    spec_parse_usize, starts_with_chars, sub_chars, line_ranges, ranges_within, range_contents,
};

verus! {

/// Lights per side. Coordinates run 0..=999 on both axes.
pub const GRID: usize = 1000;

/// The verb of one instruction. What it does to a light depends on the part.
#[derive(Debug, Clone, Copy, PartialEq, Eq, Structural)]
pub enum Action {
    TurnOn,
    TurnOff,
    Toggle,
}

/// One line of input: a verb and an inclusive rectangle, `from` at or before
/// `to` on both axes, every coordinate on the grid.
#[derive(Debug, Clone, Copy, PartialEq, Eq)]
pub struct Instruction {
    pub action: Action,
    pub from: (usize, usize),
    pub to: (usize, usize),
}

/// Why a line is not an instruction the grid can hold.
#[derive(Debug, Clone, Copy, PartialEq, Eq, Structural)]
pub enum InstructionError {
    /// The line starts with none of `turn on `, `turn off `, `toggle `.
    UnknownInstruction,
    /// There is no ` through ` between the corners.
    NoThrough,
    /// A corner has no comma.
    BadCorner,
    /// A coordinate is not a number.
    BadCoordinate,
    /// A coordinate is 1000 or more.
    OffGrid,
    /// `from` is after `to` on some axis.
    OutOfOrder,
}

/// How each verb acts on one light: which part's reading.
#[derive(Debug, Clone, Copy, PartialEq, Eq, Structural)]
pub enum Rule {
    /// Part 1: a light is on or off; see [`switch`].
    Switch,
    /// Part 2: a light has a brightness; see [`dim`].
    Dim,
}

/// The total did not fit in the 32 bits the answer is given in.
#[derive(Debug, Clone, Copy, PartialEq, Eq, Structural)]
pub struct TotalOverflow;

pub open spec fn turn_on_text() -> Seq<char> {
    seq!['t', 'u', 'r', 'n', ' ', 'o', 'n', ' ']
}

pub open spec fn turn_off_text() -> Seq<char> {
    seq!['t', 'u', 'r', 'n', ' ', 'o', 'f', 'f', ' ']
}

pub open spec fn toggle_text() -> Seq<char> {
    seq!['t', 'o', 'g', 'g', 'l', 'e', ' ']
}

pub open spec fn through_text() -> Seq<char> {
    seq![' ', 't', 'h', 'r', 'o', 'u', 'g', 'h', ' ']
}

/// One coordinate: a `usize` as `str::parse` reads it, on the grid.
pub open spec fn spec_coordinate(t: Seq<char>) -> Result<usize, InstructionError> {
    match spec_parse_usize(t) {
        None => Err(InstructionError::BadCoordinate),
        Some(n) => if n >= GRID {
            Err(InstructionError::OffGrid)
        } else {
            Ok(n)
        },
    }
}

/// `x,y`, split at the first comma, both on the grid.
pub open spec fn spec_corner(t: Seq<char>) -> Result<(usize, usize), InstructionError> {
    match find_in(t, 0, t.len() as int, seq![',']) {
        None => Err(InstructionError::BadCorner),
        Some(c) => match spec_coordinate(t.subrange(0, c)) {
            Err(e) => Err(e),
            Ok(x) => match spec_coordinate(t.subrange(c + 1, t.len() as int)) {
                Err(e) => Err(e),
                Ok(y) => Ok((x, y)),
            },
        },
    }
}

/// A line read as an instruction: the verb, then the two corners split at
/// the first ` through `, in order on both axes.
pub open spec fn spec_instruction(l: Seq<char>) -> Result<Instruction, InstructionError> {
    let (known, action, skip) = if has_prefix(l, turn_on_text()) {
        (true, Action::TurnOn, 8int)
    } else if has_prefix(l, turn_off_text()) {
        (true, Action::TurnOff, 9int)
    } else if has_prefix(l, toggle_text()) {
        (true, Action::Toggle, 7int)
    } else {
        (false, Action::TurnOn, 0int)
    };
    if !known {
        Err(InstructionError::UnknownInstruction)
    } else {
        let rest = l.subrange(skip, l.len() as int);
        match find_in(rest, 0, rest.len() as int, through_text()) {
            None => Err(InstructionError::NoThrough),
            Some(t) => match spec_corner(rest.subrange(0, t)) {
                Err(e) => Err(e),
                Ok(from) => match spec_corner(rest.subrange(t + 9, rest.len() as int)) {
                    Err(e) => Err(e),
                    Ok(to) => if from.0 > to.0 || from.1 > to.1 {
                        Err(InstructionError::OutOfOrder)
                    } else {
                        Ok(Instruction { action, from, to })
                    },
                },
            },
        }
    }
}

/// The non-empty lines of an input, each read as an instruction; the first
/// line that is not one decides the error.
pub open spec fn spec_instructions(ls: Seq<Seq<char>>) -> Result<Seq<Instruction>, InstructionError>
    decreases ls.len(),
{
    if ls.len() == 0 {
        Ok(Seq::empty())
    } else if ls[0].len() == 0 {
        spec_instructions(ls.drop_first())
    } else {
        match spec_instruction(ls[0]) {
            Err(e) => Err(e),
            Ok(i) => match spec_instructions(ls.drop_first()) {
                Err(e) => Err(e),
                Ok(rest) => Ok(seq![i] + rest),
            },
        }
    }
}

/// A whole input read as a day: one instruction per non-empty line.
pub open spec fn spec_day(s: Seq<char>) -> Result<Seq<Instruction>, InstructionError> {
    spec_instructions(spec_lines(s))
}

/// One coordinate of a corner.
fn coordinate(t: &Vec<char>) -> (r: Result<usize, InstructionError>)
    ensures
        r == spec_coordinate(t@),
{
    assert(t@.subrange(0, t@.len() as int) =~= t@);
    match parse_usize(t, 0, t.len()) {
        None => Err(InstructionError::BadCoordinate),
        Some(n) => if n >= GRID {
            Err(InstructionError::OffGrid)
        } else {
            Ok(n)
        },
    }
}

/// `x,y`, both on the grid.
fn corner(t: &Vec<char>) -> (r: Result<(usize, usize), InstructionError>)
    ensures
        r == spec_corner(t@),
{
    let comma: [char; 1] = [','];
    assert(comma@ =~= seq![',']);
    match find_chars(t, 0, comma.as_slice()) {
        None => Err(InstructionError::BadCorner),
        Some(c) => {
            proof {
                lemma_find_in_bounds(t@, 0, t@.len() as int, seq![',']);
            }
            let xs = sub_chars(t, 0, c);
            let x = match coordinate(&xs) {
                Err(e) => {
                    return Err(e);
                },
                Ok(x) => x,
            };
            let n = t.len();
            assert(c + 1 <= n);
            let ys = sub_chars(t, c + 1, n);
            let y = match coordinate(&ys) {
                Err(e) => {
                    return Err(e);
                },
                Ok(y) => y,
            };
            Ok((x, y))
        },
    }
}

impl Instruction {
    /// Reads one line as an instruction.
    pub fn from_str(line: &str) -> (r: Result<Instruction, InstructionError>)
        ensures
            r == spec_instruction(line@),
    {
        let l = chars_of(line);
        Self::from_chars(&l)
    }

    /// Reads the characters of one line as an instruction.
    pub fn from_chars(l: &Vec<char>) -> (r: Result<Instruction, InstructionError>)
        ensures
            r == spec_instruction(l@),
    {
        let on: [char; 8] = ['t', 'u', 'r', 'n', ' ', 'o', 'n', ' '];
        let off: [char; 9] = ['t', 'u', 'r', 'n', ' ', 'o', 'f', 'f', ' '];
        let tog: [char; 7] = ['t', 'o', 'g', 'g', 'l', 'e', ' '];
        let thr: [char; 9] = [' ', 't', 'h', 'r', 'o', 'u', 'g', 'h', ' '];
        assert(on@ =~= turn_on_text());
        assert(off@ =~= turn_off_text());
        assert(tog@ =~= toggle_text());
        assert(thr@ =~= through_text());
        let (action, skip) = if starts_with_chars(l, on.as_slice()) {
            (Action::TurnOn, 8usize)
        } else if starts_with_chars(l, off.as_slice()) {
            (Action::TurnOff, 9usize)
        } else if starts_with_chars(l, tog.as_slice()) {
            (Action::Toggle, 7usize)
        } else {
            return Err(InstructionError::UnknownInstruction);
        };
        let rest = sub_chars(l, skip, l.len());
        let t = match find_chars(&rest, 0, thr.as_slice()) {
            None => {
                return Err(InstructionError::NoThrough);
            },
            Some(t) => t,
        };
        proof {
            lemma_find_in_bounds(rest@, 0, rest@.len() as int, through_text());
        }
        let a = sub_chars(&rest, 0, t);
        let from = match corner(&a) {
            Err(e) => {
                return Err(e);
            },
            Ok(c) => c,
        };
        let b = sub_chars(&rest, t + 9, rest.len());
        let to = match corner(&b) {
            Err(e) => {
                return Err(e);
            },
            Ok(c) => c,
        };
        if from.0 > to.0 || from.1 > to.1 {
            return Err(InstructionError::OutOfOrder);
        }
        Ok(Instruction { action, from, to })
    }
}


/// An instruction whose rectangle lies on the grid, corners in order.
pub open spec fn valid_instruction(i: Instruction) -> bool {
    i.from.0 <= i.to.0 < GRID && i.from.1 <= i.to.1 < GRID
}

proof fn lemma_instruction_valid(l: Seq<char>)
    ensures
        spec_instruction(l) matches Ok(i) ==> valid_instruction(i),
{
}

/// The parsed instruction list, in input order.
#[derive(Debug)]
pub struct Day(Vec<Instruction>);

impl Clone for Day {
    fn clone(&self) -> (d: Self)
        ensures
            d.view_instructions() == self.view_instructions(),
    {
        proof {
            use_type_invariant(self);
        }
        let mut v: Vec<Instruction> = Vec::new();
        let mut i: usize = 0;
        while i < self.0.len()
            invariant
                i <= self.0@.len(),
                v@ == self.0@.take(i as int),
                forall|j: int| 0 <= j < self.0@.len() ==> valid_instruction(#[trigger] self.0@[j]),
            decreases self.0@.len() - i,
        {
            v.push(self.0[i]);
            assert(v@ =~= self.0@.take(i + 1));
            i += 1;
        }
        assert(v@ =~= self.0@);
        Day(v)
    }
}

impl Day {
    /// Every instruction lies on the grid, its corners in order.
    #[verifier::type_invariant]
    spec fn wf(self) -> bool {
        forall|i: int| 0 <= i < self.0@.len() ==> valid_instruction(#[trigger] self.0@[i])
    }

    /// The instructions, in input order.
    pub closed spec fn view_instructions(self) -> Seq<Instruction> {
        self.0@
    }

    /// The instructions, in input order.
    pub fn instructions(&self) -> (v: &Vec<Instruction>)
        ensures
            v@ == self.view_instructions(),
    {
        &self.0
    }

    /// The number of instructions.
    pub fn len(&self) -> (n: usize)
        ensures
            n == self.view_instructions().len(),
    {
        self.0.len()
    }

    /// Reads one instruction per non-empty line; the first line that is not
    /// an instruction the grid can hold is the error.
    pub fn from_str(input: &str) -> (r: Result<Day, InstructionError>)
        ensures
            match r {
                Ok(d) => spec_day(input@) == Ok::<Seq<Instruction>, InstructionError>(
                    d.view_instructions(),
                ),
                Err(e) => spec_day(input@) == Err::<Seq<Instruction>, InstructionError>(e),
            },
    {
        let chars = chars_of(input);
        let ranges = line_ranges(&chars);
        let ghost ls = spec_lines(input@);
        let mut acc: Vec<Instruction> = Vec::new();
        let mut i: usize = 0;
        assert(ls.skip(0) =~= ls);
        assert forall|rest: Seq<Instruction>| acc@ + rest == rest by {
            assert(acc@ + rest =~= rest);
        }
        while i < ranges.len()
            invariant
                chars@ == input@,
                ranges_within(chars@, ranges@),
                range_contents(chars@, ranges@) == ls,
                ls == spec_lines(input@),
                i <= ranges@.len(),
                forall|j: int| 0 <= j < acc@.len() ==> valid_instruction(#[trigger] acc@[j]),
                spec_instructions(ls) == match spec_instructions(ls.skip(i as int)) {
                    Ok(rest) => Ok(acc@ + rest),
                    Err(e) => Err(e),
                },
            decreases ranges@.len() - i,
        {
            let (a, b) = ranges[i];
            let line = sub_chars(&chars, a, b);
            assert(line@ == ls[i as int]);
            assert(ls.skip(i as int).drop_first() =~= ls.skip(i + 1));
            assert(ls.skip(i as int)[0] == ls[i as int]);
            if line.len() > 0 {
                match Instruction::from_chars(&line) {
                    Err(e) => {
                        return Err(e);
                    },
                    Ok(ins) => {
                        proof {
                            lemma_instruction_valid(line@);
                        }
                        let ghost old_acc = acc@;
                        acc.push(ins);
                        assert forall|rest: Seq<Instruction>|
                            old_acc + (seq![ins] + rest) == acc@ + rest by {
                            assert(old_acc + (seq![ins] + rest) =~= acc@ + rest);
                        }
                    },
                }
            }
            i += 1;
        }
        assert(ls.skip(i as int) =~= Seq::<Seq<char>>::empty());
        assert(acc@ + Seq::<Instruction>::empty() =~= acc@);
        Ok(Day(acc))
    }
}


/// Part 1's reading of a verb: a light is `0` or `1`, and `toggle` flips
/// its lowest bit.
pub open spec fn spec_switch(action: Action, light: u32) -> u32 {
    match action {
        Action::TurnOn => 1,
        Action::TurnOff => 0,
        Action::Toggle => light ^ 1,
    }
}

/// Part 2's reading of the same verb: brightness, floored at zero.
pub open spec fn spec_dim(action: Action, light: u32) -> u32 {
    match action {
        Action::TurnOn => (light + 1) as u32,
        Action::TurnOff => if light == 0 {
            0
        } else {
            (light - 1) as u32
        },
        Action::Toggle => (light + 2) as u32,
    }
}

/// Whether `dim` can act on `light` without leaving the `u32`.
pub open spec fn dim_fits(action: Action, light: u32) -> bool {
    match action {
        Action::TurnOn => light < u32::MAX,
        Action::TurnOff => true,
        Action::Toggle => light <= u32::MAX - 2,
    }
}

/// Part 1's reading of a verb: a light is `0` or `1`, and `toggle` flips it.
pub fn switch(action: Action, light: u32) -> (r: u32)
    ensures
        r == spec_switch(action, light),
{
    match action {
        Action::TurnOn => 1,
        Action::TurnOff => 0,
        Action::Toggle => light ^ 1,
    }
}

/// Part 2's reading of the same verb: brightness, floored at zero.
pub fn dim(action: Action, light: u32) -> (r: u32)
    requires
        dim_fits(action, light),
    ensures
        r == spec_dim(action, light),
        action == Action::TurnOn ==> r == light + 1,
        action == Action::TurnOff ==> r == if light == 0 {
            0
        } else {
            light - 1
        },
        action == Action::Toggle ==> r == light + 2,
{
    match action {
        Action::TurnOn => light + 1,
        Action::TurnOff => light.saturating_sub(1),
        Action::Toggle => light + 2,
    }
}

/// What `rule` does to one light under `action`.
pub open spec fn spec_apply(rule: Rule, action: Action, light: u32) -> u32 {
    match rule {
        Rule::Switch => spec_switch(action, light),
        Rule::Dim => spec_dim(action, light),
    }
}

/// Whether `rule` can act on `light` without leaving the `u32`.
pub open spec fn rule_fits(rule: Rule, action: Action, light: u32) -> bool {
    rule == Rule::Switch || dim_fits(action, light)
}

fn apply(rule: Rule, action: Action, light: u32) -> (r: u32)
    requires
        rule_fits(rule, action, light),
    ensures
        r == spec_apply(rule, action, light),
{
    match rule {
        Rule::Switch => switch(action, light),
        Rule::Dim => dim(action, light),
    }
}

/// The light at `(x, y)` lies in the instruction's rectangle.
pub open spec fn in_rect(i: Instruction, x: int, y: int) -> bool {
    i.from.0 <= x <= i.to.0 && i.from.1 <= y <= i.to.1
}

/// What one instruction does to the light at `(x, y)`.
pub open spec fn step(i: Instruction, rule: Rule, x: int, y: int, light: u32) -> u32 {
    if in_rect(i, x, y) {
        spec_apply(rule, i.action, light)
    } else {
        light
    }
}

/// The light at `(x, y)` after the first `k` instructions, starting dark.
pub open spec fn light(insts: Seq<Instruction>, rule: Rule, k: int, x: int, y: int) -> u32
    decreases k,
{
    if k <= 0 {
        0
    } else {
        step(insts[k - 1], rule, x, y, light(insts, rule, k - 1, x, y))
    }
}

/// No instruction ever takes a light out of the `u32` it is kept in.
pub open spec fn never_overflows(insts: Seq<Instruction>, rule: Rule) -> bool {
    forall|k: int, x: int, y: int|
        0 <= k < insts.len() && 0 <= x < GRID && 0 <= y < GRID && in_rect(insts[k], x, y)
            ==> rule_fits(rule, insts[k].action, #[trigger] light(insts, rule, k, x, y))
}

/// The sum of the lights `(0, y) .. (upto - 1, y)` after every instruction.
pub open spec fn row_total(insts: Seq<Instruction>, rule: Rule, y: int, upto: int) -> nat
    decreases upto,
{
    if upto <= 0 {
        0
    } else {
        row_total(insts, rule, y, upto - 1) + light(insts, rule, insts.len() as int, upto - 1, y) as nat
    }
}

/// The sum of the rows `0 .. upto - 1` after every instruction.
pub open spec fn grid_total(insts: Seq<Instruction>, rule: Rule, upto: int) -> nat
    decreases upto,
{
    if upto <= 0 {
        0
    } else {
        grid_total(insts, rule, upto - 1) + row_total(insts, rule, upto - 1, GRID as int)
    }
}

/// The grid's total after every instruction: the sum over all its lights.
pub open spec fn spec_run(insts: Seq<Instruction>, rule: Rule) -> nat {
    grid_total(insts, rule, GRID as int)
}

/// The light at `(x, y)` of a row-major grid.
pub open spec fn cell(g: Seq<u32>, x: int, y: int) -> u32 {
    g[y * 1000 + x]
}

/// Applies one instruction to every light in its rectangle.
fn apply_instruction(grid: &mut Vec<u32>, ins: Instruction, rule: Rule)
    requires
        old(grid)@.len() == GRID * GRID,
        valid_instruction(ins),
        forall|x: int, y: int|
            0 <= x < GRID && 0 <= y < GRID && in_rect(ins, x, y) ==> rule_fits(
                rule,
                ins.action,
                #[trigger] cell(old(grid)@, x, y),
            ),
    ensures
        final(grid)@.len() == GRID * GRID,
        forall|x: int, y: int|
            0 <= x < GRID && 0 <= y < GRID ==> #[trigger] cell(final(grid)@, x, y) == step(
                ins,
                rule,
                x,
                y,
                cell(old(grid)@, x, y),
            ),
{
    let ghost g0 = grid@;
    let mut y = ins.from.1;
    while y <= ins.to.1
        invariant
            grid@.len() == GRID * GRID,
            valid_instruction(ins),
            ins.from.1 <= y <= ins.to.1 + 1,
            forall|x: int, yy: int|
                0 <= x < GRID && 0 <= yy < GRID && in_rect(ins, x, yy) ==> rule_fits(
                    rule,
                    ins.action,
                    #[trigger] cell(g0, x, yy),
                ),
            forall|x: int, yy: int|
                0 <= x < GRID && 0 <= yy < GRID ==> #[trigger] cell(grid@, x, yy) == if in_rect(
                    ins,
                    x,
                    yy,
                ) && yy < y {
                    spec_apply(rule, ins.action, cell(g0, x, yy))
                } else {
                    cell(g0, x, yy)
                },
            g0.len() == GRID * GRID,
        decreases ins.to.1 + 1 - y,
    {
        let mut x = ins.from.0;
        while x <= ins.to.0
            invariant
                grid@.len() == GRID * GRID,
                valid_instruction(ins),
                ins.from.1 <= y <= ins.to.1,
                ins.from.0 <= x <= ins.to.0 + 1,
                g0.len() == GRID * GRID,
                forall|xx: int, yy: int|
                    0 <= xx < GRID && 0 <= yy < GRID && in_rect(ins, xx, yy) ==> rule_fits(
                        rule,
                        ins.action,
                        #[trigger] cell(g0, xx, yy),
                    ),
                forall|xx: int, yy: int|
                    0 <= xx < GRID && 0 <= yy < GRID ==> #[trigger] cell(grid@, xx, yy) == if in_rect(
                        ins,
                        xx,
                        yy,
                    ) && (yy < y || (yy == y && xx < x)) {
                        spec_apply(rule, ins.action, cell(g0, xx, yy))
                    } else {
                        cell(g0, xx, yy)
                    },
            decreases ins.to.0 + 1 - x,
        {
            let idx = y * GRID + x;
            let v = grid[idx];
            assert(v == cell(grid@, x as int, y as int));
            assert(v == cell(g0, x as int, y as int));
            let nv = apply(rule, ins.action, v);
            let ghost before = grid@;
            grid.set(idx, nv);
            assert forall|xx: int, yy: int|
                0 <= xx < GRID && 0 <= yy < GRID implies #[trigger] cell(grid@, xx, yy) == if in_rect(
                ins,
                xx,
                yy,
            ) && (yy < y || (yy == y && xx < x + 1)) {
                spec_apply(rule, ins.action, cell(g0, xx, yy))
            } else {
                cell(g0, xx, yy)
            } by {
                if xx == x && yy == y {
                } else {
                    assert(yy * 1000 + xx != y * 1000 + x);
                    assert(cell(grid@, xx, yy) == cell(before, xx, yy));
                }
            }
            x += 1;
        }
        y += 1;
    }
}

impl Day {
    /// Applies every instruction to a grid that starts dark, `rule`
    /// deciding what each verb does to one light, and returns the grid's
    /// total. No light may leave its `u32` on the way.
    pub fn run(&self, rule: Rule) -> (total: u64)
        requires
            never_overflows(self.view_instructions(), rule),
        ensures
            total == spec_run(self.view_instructions(), rule),
    {
        proof {
            use_type_invariant(self);
        }
        let ghost insts = self.0@;
        let mut grid: Vec<u32> = vec![0u32; GRID * GRID];
        let mut k: usize = 0;
        while k < self.0.len()
            invariant
                insts == self.0@,
                forall|i: int| 0 <= i < insts.len() ==> valid_instruction(#[trigger] insts[i]),
                never_overflows(insts, rule),
                k <= insts.len(),
                grid@.len() == GRID * GRID,
                forall|x: int, y: int|
                    0 <= x < GRID && 0 <= y < GRID ==> #[trigger] cell(grid@, x, y) == light(
                        insts,
                        rule,
                        k as int,
                        x,
                        y,
                    ),
            decreases insts.len() - k,
        {
            let ins = self.0[k];
            assert(valid_instruction(insts[k as int]));
            assert forall|x: int, y: int|
                0 <= x < GRID && 0 <= y < GRID && in_rect(ins, x, y) implies rule_fits(
                rule,
                ins.action,
                #[trigger] cell(grid@, x, y),
            ) by {
                assert(cell(grid@, x, y) == light(insts, rule, k as int, x, y));
            }
            apply_instruction(&mut grid, ins, rule);
            assert forall|x: int, y: int| 0 <= x < GRID && 0 <= y < GRID implies #[trigger] cell(
                grid@,
                x,
                y,
            ) == light(insts, rule, k + 1, x, y) by {}
            k += 1;
        }
        let mut total: u64 = 0;
        let mut y: usize = 0;
        while y < GRID
            invariant
                insts == self.0@,
                k == insts.len(),
                grid@.len() == GRID * GRID,
                forall|x: int, yy: int|
                    0 <= x < GRID && 0 <= yy < GRID ==> #[trigger] cell(grid@, x, yy) == light(
                        insts,
                        rule,
                        k as int,
                        x,
                        yy,
                    ),
                y <= GRID,
                total == grid_total(insts, rule, y as int),
                total <= y * 1000 * 4294967295,
            decreases GRID - y,
        {
            let mut x: usize = 0;
            while x < GRID
                invariant
                    insts == self.0@,
                    k == insts.len(),
                    grid@.len() == GRID * GRID,
                    forall|xx: int, yy: int|
                        0 <= xx < GRID && 0 <= yy < GRID ==> #[trigger] cell(grid@, xx, yy)
                            == light(insts, rule, k as int, xx, yy),
                    y < GRID,
                    x <= GRID,
                    total == grid_total(insts, rule, y as int) + row_total(insts, rule, y as int, x as int),
                    total <= (y * 1000 + x) * 4294967295,
                decreases GRID - x,
            {
                let v = grid[y * GRID + x];
                assert(v == cell(grid@, x as int, y as int));
                total = total + v as u64;
                x += 1;
            }
            y += 1;
        }
        total
    }
}


impl Day {
    /// Part 1: the number of lights left on, as a `u32`.
    pub fn part1(&self) -> (r: Result<u32, TotalOverflow>)
        ensures
            r == (if spec_run(self.view_instructions(), Rule::Switch) <= u32::MAX {
                Ok::<u32, TotalOverflow>(spec_run(self.view_instructions(), Rule::Switch) as u32)
            } else {
                Err::<u32, TotalOverflow>(TotalOverflow)
            }),
    {
        proof {
            law_switch_never_overflows(self.view_instructions());
        }
        let total = self.run(Rule::Switch);
        if total <= u32::MAX as u64 {
            Ok(total as u32)
        } else {
            Err(TotalOverflow)
        }
    }

    /// Part 2: the total brightness, as a `u32`. No light may leave its
    /// `u32` on the way.
    pub fn part2(&self) -> (r: Result<u32, TotalOverflow>)
        requires
            never_overflows(self.view_instructions(), Rule::Dim),
        ensures
            r == (if spec_run(self.view_instructions(), Rule::Dim) <= u32::MAX {
                Ok::<u32, TotalOverflow>(spec_run(self.view_instructions(), Rule::Dim) as u32)
            } else {
                Err::<u32, TotalOverflow>(TotalOverflow)
            }),
    {
        let total = self.run(Rule::Dim);
        if total <= u32::MAX as u64 {
            Ok(total as u32)
        } else {
            Err(TotalOverflow)
        }
    }
}

/// The C-facing status code for input that is null, not UTF-8, or holds a
/// line that is not an instruction the grid can hold.
pub const INVALID_INPUT: i32 = -1;

/// The C-facing status code for a total that does not fit a `uint32_t`.
pub const OVERFLOW: i32 = -3;

/// The C-facing status code for a computation that could not be finished.
pub const INTERNAL: i32 = -4;

/// The C-facing reading of an input: `None` stands for a null pointer or
/// bytes that are not UTF-8, and both are refused, as is a line that is not
/// an instruction.
pub fn read_day(input: Option<&str>) -> (r: Result<Day, i32>)
    ensures
        match input {
            None => r == Err::<Day, i32>(INVALID_INPUT),
            Some(t) => match spec_day(t@) {
                Ok(is) => r matches Ok(d) && d.view_instructions() == is,
                Err(_) => r == Err::<Day, i32>(INVALID_INPUT),
            },
        },
{
    match input {
        None => Err(INVALID_INPUT),
        Some(t) => match Day::from_str(t) {
            Ok(d) => Ok(d),
            Err(_) => Err(INVALID_INPUT),
        },
    }
}

/// The C-facing answer for a day under `rule`: the total, or the overflow
/// status when it does not fit a `uint32_t`.
pub fn solve_day(day: &Day, rule: Rule) -> (r: Result<u32, i32>)
    requires
        never_overflows(day.view_instructions(), rule),
    ensures
        r == (if spec_run(day.view_instructions(), rule) <= u32::MAX {
            Ok::<u32, i32>(spec_run(day.view_instructions(), rule) as u32)
        } else {
            Err::<u32, i32>(OVERFLOW)
        }),
{
    let total = day.run(rule);
    if total <= u32::MAX as u64 {
        Ok(total as u32)
    } else {
        Err(OVERFLOW)
    }
}

proof fn lemma_switch_binary(insts: Seq<Instruction>, k: int, x: int, y: int)
    ensures
        light(insts, Rule::Switch, k, x, y) <= 1,
    decreases k,
{
    if k > 0 {
        lemma_switch_binary(insts, k - 1, x, y);
        let l = light(insts, Rule::Switch, k - 1, x, y);
        assert(l <= 1 ==> (l ^ 1) <= 1) by (bit_vector);
    }
}

proof fn lemma_row_total_bound(insts: Seq<Instruction>, rule: Rule, y: int, upto: int, bound: nat)
    requires
        forall|x: int| 0 <= x < upto ==> light(insts, rule, insts.len() as int, x, y) <= bound,
    ensures
        row_total(insts, rule, y, upto) <= (if upto < 0 { 0 } else { upto }) * bound,
    decreases upto,
{
    if upto > 0 {
        lemma_row_total_bound(insts, rule, y, upto - 1, bound);
        assert((upto - 1) * bound + bound == upto * bound) by (nonlinear_arith);
    }
}

proof fn lemma_grid_total_bound(insts: Seq<Instruction>, rule: Rule, upto: int, row: nat)
    requires
        forall|y: int| 0 <= y < upto ==> row_total(insts, rule, y, GRID as int) <= row,
    ensures
        grid_total(insts, rule, upto) <= (if upto < 0 { 0 } else { upto }) * row,
    decreases upto,
{
    if upto > 0 {
        lemma_grid_total_bound(insts, rule, upto - 1, row);
        assert((upto - 1) * row + row == upto * row) by (nonlinear_arith);
    }
}

/// Part 1's lights are only ever on or off, so no light leaves its `u32`
/// and at most all 1,000,000 of them are lit: part 1 always fits a `u32`.
pub proof fn law_switch_never_overflows(insts: Seq<Instruction>)
    ensures
        never_overflows(insts, Rule::Switch),
        spec_run(insts, Rule::Switch) <= 1_000_000,
        forall|k: int, x: int, y: int| #[trigger] light(insts, Rule::Switch, k, x, y) <= 1,
{
    assert forall|k: int, x: int, y: int| #[trigger] light(insts, Rule::Switch, k, x, y) <= 1 by {
        lemma_switch_binary(insts, k, x, y);
    }
    assert forall|y: int| 0 <= y < GRID implies row_total(insts, Rule::Switch, y, GRID as int)
        <= 1000 by {
        lemma_row_total_bound(insts, Rule::Switch, y, GRID as int, 1);
    }
    lemma_grid_total_bound(insts, Rule::Switch, GRID as int, 1000);
}

proof fn lemma_dim_bound(insts: Seq<Instruction>, k: int, x: int, y: int)
    requires
        0 <= k <= 2_147_483_647,
    ensures
        light(insts, Rule::Dim, k, x, y) <= 2 * k,
    decreases k,
{
    if k > 0 {
        lemma_dim_bound(insts, k - 1, x, y);
    }
}

/// Each instruction raises a light's brightness by at most two, so a light
/// cannot leave its `u32` before some 2,147,483,647 instructions.
pub proof fn law_dim_fits_below_two_billion(insts: Seq<Instruction>)
    requires
        insts.len() <= 2_147_483_647,
    ensures
        never_overflows(insts, Rule::Dim),
{
    assert forall|k: int, x: int, y: int|
        0 <= k < insts.len() && 0 <= x < GRID && 0 <= y < GRID && in_rect(
            insts[k],
            x,
            y,
        ) implies rule_fits(Rule::Dim, insts[k].action, #[trigger] light(insts, Rule::Dim, k, x, y)) by {
        lemma_dim_bound(insts, k, x, y);
    }
}

} // verus!
