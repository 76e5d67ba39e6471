//! Day 1 of 2015: Not Quite Lisp.
//!
//! Santa reads a string of parentheses: `(` takes him up one floor, `)`
//! down one, anything else leaves him where he is. Part 1 is the floor he
//! ends on; part 2 is the one-based position of the first instruction that
//! takes him below the ground floor, into the basement.

use vstd::prelude::*;

use crate::text::chars_of;

pub mod banner;
pub mod godot;

verus! {

/// The move an instruction character stands for.
pub open spec fn floor_step(c: char) -> i32 {
    if c == '(' {
        1i32
    } else if c == ')' {
        -1i32
    } else {
        0i32
    }
}

/// The moves of an instruction string, one per character.
pub open spec fn spec_floors(s: Seq<char>) -> Seq<i32> {
    s.map_values(|c: char| floor_step(c))
}

/// A single move: up one, down one, or nowhere.
pub open spec fn is_step(v: i32) -> bool {
    v == 1 || v == -1 || v == 0
}

/// The floor after the first `k` moves.
pub open spec fn floor_after(fs: Seq<i32>, k: int) -> int
    decreases k,
{
    if k <= 0 {
        0
    } else {
        floor_after(fs, k - 1) + fs[k - 1]
    }
}

/// The floor after every move.
pub open spec fn final_floor(fs: Seq<i32>) -> int {
    floor_after(fs, fs.len() as int)
}

/// Every floor on the way, the last included, fits an `i32`.
pub open spec fn floors_fit(fs: Seq<i32>) -> bool {
    forall|k: int| 0 <= k <= fs.len() ==> i32::MIN <= #[trigger] floor_after(fs, k) <= i32::MAX
}

/// The first one-based position at or after `k` after which Santa is below
/// the ground floor.
pub open spec fn first_basement(fs: Seq<i32>, k: int) -> Option<int>
    decreases fs.len() + 1 - k,
{
    if k < 1 || k > fs.len() {
        None
    } else if floor_after(fs, k) < 0 {
        Some(k)
    } else {
        first_basement(fs, k + 1)
    }
}

/// The one-based position of the first move into the basement, if any.
pub open spec fn basement(fs: Seq<i32>) -> Option<int> {
    first_basement(fs, 1)
}

proof fn lemma_floor_bounds(fs: Seq<i32>, k: int)
    requires
        0 <= k <= fs.len(),
        forall|i: int| 0 <= i < fs.len() ==> is_step(#[trigger] fs[i]),
    ensures
        -k <= floor_after(fs, k) <= k,
    decreases k,
{
    if k > 0 {
        lemma_floor_bounds(fs, k - 1);
        assert(is_step(fs[k - 1]));
    }
}

proof fn lemma_first_basement_skip(fs: Seq<i32>, k: int)
    requires
        1 <= k <= fs.len(),
        floor_after(fs, k) >= 0,
    ensures
        first_basement(fs, k) == first_basement(fs, k + 1),
{
}

proof fn lemma_first_basement_after(fs: Seq<i32>, k: int)
    requires
        1 <= k,
    ensures
        first_basement(fs, k) matches Some(p) ==> k <= p <= fs.len() && floor_after(fs, p) < 0
            && forall|j: int| k <= j < p ==> #[trigger] floor_after(fs, j) >= 0,
        first_basement(fs, k) is None ==> forall|j: int|
            k <= j <= fs.len() ==> #[trigger] floor_after(fs, j) >= 0,
    decreases fs.len() + 1 - k,
{
    if k <= fs.len() && floor_after(fs, k) >= 0 {
        lemma_first_basement_after(fs, k + 1);
    }
}

/// Part 2's position is the first move into the basement: a real
/// one-based position after which Santa is below the ground floor, and
/// before which he never was. When there is none, he never goes below.
pub proof fn law_basement_is_first_entry(fs: Seq<i32>)
    ensures
        basement(fs) matches Some(p) ==> 1 <= p <= fs.len() && floor_after(fs, p) < 0 && forall|
            j: int,
        | 1 <= j < p ==> #[trigger] floor_after(fs, j) >= 0,
        basement(fs) is None ==> forall|j: int|
            0 <= j <= fs.len() ==> #[trigger] floor_after(fs, j) >= 0,
{
    lemma_first_basement_after(fs, 1);
    assert(floor_after(fs, 0) == 0);
}

/// The moves, one per character of the input.
#[derive(Debug)]
pub struct Day(Vec<i32>);

impl Clone for Day {
    fn clone(&self) -> (d: Self)
        ensures
            d.floors() == self.floors(),
    {
        proof {
            use_type_invariant(self);
        }
        let v = self.0.clone();
        assert(v@ =~= self.0@);
        Day(v)
    }
}

impl Day {
    /// Every entry is a single move.
    #[verifier::type_invariant]
    spec fn wf(self) -> bool {
        forall|i: int| 0 <= i < self.0@.len() ==> is_step(#[trigger] self.0@[i])
    }

    /// The moves, in input order.
    pub closed spec fn floors(self) -> Seq<i32> {
        self.0@
    }

    /// The moves, in input order.
    pub fn moves(&self) -> (v: &Vec<i32>)
        ensures
            v@ == self.floors(),
    {
        &self.0
    }

    /// Reads one move per character: `(` is up, `)` is down, and any other
    /// character is no move at all.
    pub fn from_str(input: &str) -> (d: Day)
        ensures
            d.floors() == spec_floors(input@),
    {
        let chars = chars_of(input);
        let mut v: Vec<i32> = Vec::new();
        let mut i: usize = 0;
        while i < chars.len()
            invariant
                chars@ == input@,
                i <= chars@.len(),
                v@ == spec_floors(input@).take(i as int),
            decreases chars@.len() - i,
        {
            let c = chars[i];
            let step: i32 = if c == '(' {
                1
            } else if c == ')' {
                -1
            } else {
                0
            };
            v.push(step);
            assert(v@ =~= spec_floors(input@).take(i + 1));
            i += 1;
        }
        assert(v@ =~= spec_floors(input@));
        Day(v)
    }

    /// The moves written as the body of a C array literal, `1, -1, 1`.
    pub fn floors_as_c_array(&self) -> (s: String)
        ensures
            s@ == c_array(self.floors()),
    {
        let mut s = String::new();
        let mut i: usize = 0;
        while i < self.0.len()
            invariant
                i <= self.0@.len(),
                s@ == c_array(self.0@.take(i as int)),
            decreases self.0@.len() - i,
        {
            proof {
                reveal_strlit(", ");
                reveal_strlit("1");
                reveal_strlit("-1");
                reveal_strlit("0");
            }
            assert(self.0@.take(i + 1).drop_last() =~= self.0@.take(i as int));
            assert(self.0@.take(i + 1).last() == self.0@[i as int]);
            if i > 0 {
                s.append(", ");
            }
            let v = self.0[i];
            if v == 1 {
                s.append("1");
            } else if v == -1 {
                s.append("-1");
            } else {
                s.append("0");
            }
            i += 1;
        }
        assert(self.0@.take(i as int) =~= self.0@);
        s
    }

    /// The C function that part 1 compiles: it sums the moves and returns
    /// the floor Santa ends on.
    pub fn part1_source(&self) -> (s: String)
        ensures
            s@ == part1_source_text(c_array(self.floors())),
    {
        let floors = self.floors_as_c_array();
        let mut s = String::new();
        s.append(SOURCE_HEAD);
        s.append(floors.as_str());
        s.append(PART1_TAIL);
        s
    }

    /// The C function that part 2 compiles: it returns the one-based
    /// position of the first move into the basement, or `-1`.
    pub fn part2_source(&self) -> (s: String)
        ensures
            s@ == part2_source_text(c_array(self.floors())),
    {
        let floors = self.floors_as_c_array();
        let mut s = String::new();
        s.append(SOURCE_HEAD);
        s.append(floors.as_str());
        s.append(PART2_TAIL);
        s
    }
}

/// A single move written in decimal.
pub open spec fn c_number(v: i32) -> Seq<char> {
    if v == 1 {
        seq!['1']
    } else if v == -1 {
        seq!['-', '1']
    } else {
        seq!['0']
    }
}

/// The moves written in decimal and joined by `", "`.
pub open spec fn c_array(fs: Seq<i32>) -> Seq<char>
    decreases fs.len(),
{
    if fs.len() == 0 {
        Seq::empty()
    } else if fs.len() == 1 {
        c_number(fs[0])
    } else {
        c_array(fs.drop_last()) + seq![',', ' '] + c_number(fs.last())
    }
}

/// The opening of both compiled functions, up to the array's contents.
pub const SOURCE_HEAD: &'static str = "int solve(void) {\n                static const int floors[] = { ";

/// The rest of part 1's function after the array's contents.
pub const PART1_TAIL: &'static str = " };\n                int total = 0;\n                for (unsigned i = 0; i < sizeof(floors) / sizeof(floors[0]); i++) {\n                    total += floors[i];\n                }\n                return total;\n            }";

/// The rest of part 2's function after the array's contents.
pub const PART2_TAIL: &'static str = " };\n                int total = 0;\n                for (unsigned i = 0; i < sizeof(floors) / sizeof(floors[0]); i++) {\n                    total += floors[i];\n                    if (total < 0) return (int) i + 1;\n                }\n                return -1;\n            }";

/// Part 1's C function around the array's contents `floors`.
pub open spec fn part1_source_text(floors: Seq<char>) -> Seq<char> {
    SOURCE_HEAD@ + floors + PART1_TAIL@
}

/// Part 2's C function around the array's contents `floors`.
pub open spec fn part2_source_text(floors: Seq<char>) -> Seq<char> {
    SOURCE_HEAD@ + floors + PART2_TAIL@
}

/// Santa never goes below the ground floor.
#[derive(Debug, Clone, Copy, PartialEq, Eq, Structural)]
pub struct NeverInBasement;

/// Part 2's answer from what its compiled function returned: `-1` means
/// Santa never enters the basement.
pub fn part2_answer(returned: i32) -> (r: Result<i32, NeverInBasement>)
    ensures
        returned == -1 ==> r == Err::<i32, NeverInBasement>(NeverInBasement),
        returned != -1 ==> r == Ok::<i32, NeverInBasement>(returned),
{
    if returned == -1 {
        Err(NeverInBasement)
    } else {
        Ok(returned)
    }
}

/// The floor Santa ends on.
pub fn sum_pure_rust(day: &Day) -> (r: i32)
    requires
        floors_fit(day.floors()),
    ensures
        r == final_floor(day.floors()),
{
    let fs = day.moves();
    let mut total: i32 = 0;
    let mut i: usize = 0;
    while i < fs.len()
        invariant
            fs@ == day.floors(),
            floors_fit(fs@),
            i <= fs@.len(),
            total == floor_after(fs@, i as int),
        decreases fs@.len() - i,
    {
        assert(i32::MIN <= floor_after(fs@, i + 1) <= i32::MAX);
        total = total + fs[i];
        i += 1;
    }
    total
}

/// The first move into the basement, scanned on the depth above ground,
/// which cannot overflow.
fn scan_basement(fs: &Vec<i32>) -> (r: Option<usize>)
    requires
        forall|j: int| 0 <= j < fs@.len() ==> is_step(#[trigger] fs@[j]),
    ensures
        match basement(fs@) {
            Some(p) => r == Some(p as usize),
            None => r is None,
        },
{
    let mut depth: usize = 0;
    let mut i: usize = 0;
    while i < fs.len()
        invariant
            forall|j: int| 0 <= j < fs@.len() ==> is_step(#[trigger] fs@[j]),
            i <= fs@.len(),
            depth == floor_after(fs@, i as int),
            depth <= i,
            basement(fs@) == first_basement(fs@, i + 1),
        decreases fs@.len() - i,
    {
        proof {
            lemma_first_basement_after(fs@, i + 1);
        }
        let v = fs[i];
        assert(is_step(fs@[i as int]));
        if v == 1 {
            depth += 1;
        } else if v == -1 {
            if depth == 0 {
                return Some(i + 1);
            }
            depth -= 1;
        }
        proof {
            lemma_first_basement_skip(fs@, i + 1);
        }
        i += 1;
    }
    None
}

/// The one-based position of the first move that takes Santa into the
/// basement, or `None` if he never goes below the ground floor.
pub fn basement_position_pure_rust(day: &Day) -> (r: Option<i32>)
    requires
        basement(day.floors()) matches Some(p) ==> p <= i32::MAX,
    ensures
        match basement(day.floors()) {
            Some(p) => r == Some(p as i32),
            None => r is None,
        },
{
    proof {
        use_type_invariant(day);
        lemma_first_basement_after(day.floors(), 1);
    }
    match scan_basement(day.moves()) {
        Some(p) => Some(p as i32),
        None => None,
    }
}

/// The checked reading of [`sum_pure_rust`]: `None` when some floor on the
/// way leaves the `i32`.
pub fn checked_final_floor(day: &Day) -> (r: Option<i32>)
    ensures
        floors_fit(day.floors()) ==> r == Some(final_floor(day.floors()) as i32),
        !floors_fit(day.floors()) ==> r is None,
{
    let fs = day.moves();
    let mut total: i32 = 0;
    let mut i: usize = 0;
    while i < fs.len()
        invariant
            fs@ == day.floors(),
            i <= fs@.len(),
            total == floor_after(fs@, i as int),
            forall|k: int| 0 <= k <= i ==> i32::MIN <= #[trigger] floor_after(fs@, k) <= i32::MAX,
        decreases fs@.len() - i,
    {
        match total.checked_add(fs[i]) {
            Some(t) => {
                total = t;
            },
            None => {
                assert(!(i32::MIN <= floor_after(fs@, i + 1) <= i32::MAX));
                return None;
            },
        }
        i += 1;
    }
    Some(total)
}

/// The C-facing status code for input that is null or not UTF-8.
pub const INVALID_INPUT: i32 = -1;

/// The C-facing status code for Santa never entering the basement.
pub const NEVER_IN_BASEMENT: i32 = -2;

/// The C-facing status code for an answer that could not be computed in
/// an `int`.
pub const INTERNAL: i32 = -3;

/// The C-facing answer to part 1: `None` stands for a null pointer or bytes
/// that are not UTF-8 and is refused; a floor on the way that leaves the
/// `int` is the internal status.
pub fn floor_status(input: Option<&str>) -> (r: Result<i32, i32>)
    ensures
        match input {
            None => r == Err::<i32, i32>(INVALID_INPUT),
            Some(t) => r == if floors_fit(spec_floors(t@)) {
                Ok::<i32, i32>(final_floor(spec_floors(t@)) as i32)
            } else {
                Err::<i32, i32>(INTERNAL)
            },
        },
{
    match input {
        None => Err(INVALID_INPUT),
        Some(t) => {
            let day = Day::from_str(t);
            match checked_final_floor(&day) {
                Some(f) => Ok(f),
                None => Err(INTERNAL),
            }
        },
    }
}

/// The C-facing answer to part 2: refusals as in [`floor_status`]; no move
/// into the basement is its own status, and a position past the `int` is
/// the internal status.
pub fn basement_status(input: Option<&str>) -> (r: Result<i32, i32>)
    ensures
        match input {
            None => r == Err::<i32, i32>(INVALID_INPUT),
            Some(t) => r == match basement(spec_floors(t@)) {
                None => Err::<i32, i32>(NEVER_IN_BASEMENT),
                Some(p) => if p <= i32::MAX {
                    Ok::<i32, i32>(p as i32)
                } else {
                    Err::<i32, i32>(INTERNAL)
                },
            },
        },
{
    match input {
        None => Err(INVALID_INPUT),
        Some(t) => {
            let day = Day::from_str(t);
            proof {
                use_type_invariant(&day);
                lemma_first_basement_after(day.floors(), 1);
            }
            match scan_basement(day.moves()) {
                None => Err(NEVER_IN_BASEMENT),
                Some(p) => if p as u64 <= i32::MAX as u64 {
                    Ok(p as i32)
                } else {
                    Err(INTERNAL)
                },
            }
        },
    }
}

} // verus!
