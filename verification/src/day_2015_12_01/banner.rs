//! Turning a drawn canvas into text: the canvas is a grid of code points,
//! row by row, and each row becomes one line.

use vstd::prelude::*;

use crate::text::push_char;

verus! {

/// `cp` is a Unicode scalar value: a code point that is not a surrogate.
pub open spec fn is_scalar(cp: u32) -> bool {
    cp < 0xD800 || (0xE000 <= cp && cp <= 0x10FFFF)
}

/// What a cell shows: its character, or a space for an empty cell (code
/// point 0) and for a code point that is no character.
pub open spec fn cell_char(cp: u32) -> char {
    if cp != 0 && is_scalar(cp) {
        cp as char
    } else {
        ' '
    }
}

/// Row `y` of a canvas `width` cells wide, as text with its newline.
pub open spec fn banner_row(cells: Seq<u32>, width: nat, y: nat) -> Seq<char> {
    Seq::new(width, |x: int| cell_char(cells[y * width + x])).push('\n')
}

/// The first `height` rows of a canvas `width` cells wide, as text.
pub open spec fn spec_banner(cells: Seq<u32>, width: nat, height: nat) -> Seq<char>
    decreases height,
{
    if height == 0 {
        Seq::empty()
    } else {
        spec_banner(cells, width, (height - 1) as nat) + banner_row(cells, width, (height - 1) as nat)
    }
}

/// `char::from_u32`: the character with code point `cp`, or `None` when
/// `cp` is a surrogate or above `0x10FFFF`.
#[verifier::external_body]
fn char_from_u32(cp: u32) -> (r: Option<char>)
    ensures
        is_scalar(cp) ==> r == Some(cp as char),
        !is_scalar(cp) ==> r is None,
{
    char::from_u32(cp)
}

/// What one cell shows.
fn cell_to_char(cp: u32) -> (c: char)
    ensures
        c == cell_char(cp),
{
    if cp == 0 {
        return ' ';
    }
    match char_from_u32(cp) {
        Some(c) => c,
        None => ' ',
    }
}

/// The text of a canvas `width` cells wide and `height` rows high, whose
/// cells are stored row after row: each cell as its character (a space
/// where it holds none), each row ended by a newline.
pub fn banner_text(width: usize, height: usize, cells: &[u32]) -> (s: String)
    requires
        width * height <= cells@.len(),
    ensures
        s@ == spec_banner(cells@, width as nat, height as nat),
{
    let n = cells.len();
    let mut s = String::new();
    let mut y: usize = 0;
    while y < height
        invariant
            y <= height,
            n == cells@.len(),
            width * height <= cells@.len(),
            s@ == spec_banner(cells@, width as nat, y as nat),
        decreases height - y,
    {
        let ghost before = s@;
        let mut x: usize = 0;
        while x < width
            invariant
                x <= width,
                y < height,
                n == cells@.len(),
                width * height <= cells@.len(),
                before == spec_banner(cells@, width as nat, y as nat),
                s@ == before + Seq::new(x as nat, |k: int| cell_char(cells@[y * width + k])),
            decreases width - x,
        {
            assert(y * width + x < width * height) by (nonlinear_arith)
                requires
                    x < width,
                    y < height,
            ;
            assert(y * width <= y * width + x);
            let c = cell_to_char(cells[y * width + x]);
            push_char(&mut s, c);
            assert(s@ =~= before + Seq::new((x + 1) as nat, |k: int| cell_char(cells@[y * width + k])));
            x += 1;
        }
        push_char(&mut s, '\n');
        assert(s@ =~= spec_banner(cells@, width as nat, (y + 1) as nat));
        y += 1;
    }
    s
}

} // verus!
